use crate::repos::messages::{ChatModel, RepoError};
use vstd::prelude::*;

verus! {

/// A chat turn as a caller hands it in to be stored.
pub struct ChatRequest {
    pub role: String,
    pub content: String,
    pub hash: String,
}

/// A search as a caller hands it in: the text to look for.
pub struct SearchRequest {
    pub content: String,
}

/// A stored chat turn as it is handed back to a caller.
pub struct ChatResponse {
    pub role: String,
    pub content: String,
    pub hash: String,
}

impl ChatRequest {
    /// The message to store for this request, once the embeddings provider
    /// has answered for its content. A failed provider fails the save.
    pub fn with_embedding(self, embedding: Result<Vec<u32>, ()>) -> (r: Result<ChatModel, RepoError>)
        ensures
            match embedding {
                Ok(e) => r matches Ok(m) && m.role@ == self.role@ && m.content@ == self.content@
                    && m.hash@ == self.hash@ && m.embedding@ == e@,
                Err(_) => r == Err::<ChatModel, RepoError>(RepoError::Upstream),
            },
    {
        match embedding {
            Ok(e) => Ok(ChatModel { role: self.role, content: self.content, hash: self.hash, embedding: e }),
            Err(_) => Err(RepoError::Upstream),
        }
    }
}

impl ChatResponse {
    pub fn new(role: String, content: String, hash: String) -> (r: ChatResponse)
        ensures
            r.role@ == role@,
            r.content@ == content@,
            r.hash@ == hash@,
    {
        ChatResponse { role, content, hash }
    }

    /// The response for a stored message: its role, content and identity.
    pub fn from_model(model: ChatModel) -> (r: ChatResponse)
        ensures
            r.role@ == model.role@,
            r.content@ == model.content@,
            r.hash@ == model.hash@,
    {
        ChatResponse { role: model.role, content: model.content, hash: model.hash }
    }
}

} // verus!
