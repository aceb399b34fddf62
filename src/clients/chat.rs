use vstd::prelude::*;

verus! {

/// One turn of a conversation as a chat-completion provider takes it.
pub struct Message {
    pub role: String,
    pub content: String,
}

impl Message {
    /// The turn as `role: content`.
    pub fn to_text(&self) -> (r: String)
        ensures
            r@ == self.role@ + ": "@ + self.content@,
    {
        self.role.clone().concat(": ").concat(self.content.as_str())
    }
}

/// Who speaks a turn.
#[derive(PartialEq, Eq, Structural, Clone, Copy, Debug)]
pub enum Role {
    System,
    User,
    Assistant,
}

/// The label that a provider expects for a role.
pub open spec fn role_label(role: Role) -> Seq<char> {
    match role {
        Role::System => "system"@,
        Role::User => "user"@,
        Role::Assistant => "assistant"@,
    }
}

impl Role {
    /// The role's label: `system`, `user` or `assistant`.
    pub fn to_text(&self) -> (r: String)
        ensures
            r@ == role_label(*self),
    {
        match self {
            Role::System => String::from_str("system"),
            Role::User => String::from_str("user"),
            Role::Assistant => String::from_str("assistant"),
        }
    }
}

/// `s` without its leading and trailing white space, as `str::trim` cuts it.
pub uninterp spec fn trimmed(s: Seq<char>) -> Seq<char>;

/// `t` is a run of consecutive characters of `s`.
pub open spec fn is_slice_of(t: Seq<char>, s: Seq<char>) -> bool {
    exists|a: int, b: int| 0 <= a <= b <= s.len() && t == s.subrange(a, b)
}

/// Relies on `str::trim`: the result is `s` without leading and trailing
/// white space, so a slice of `s`.
#[verifier::external_body]
fn trim_text(s: &String) -> (r: String)
    ensures
        r@ == trimmed(s@),
        is_slice_of(r@, s@),
{
    s.trim().to_string()
}

/// Collects the turns of a conversation to hand to a provider.
pub struct ContextBuilder {
    messages: Vec<Message>,
}

/// A turn as (role label, content).
pub open spec fn turn_of(m: Message) -> (Seq<char>, Seq<char>) {
    (m.role@, m.content@)
}

impl ContextBuilder {
    /// The turns collected so far, in order.
    pub closed spec fn turns(&self) -> Seq<(Seq<char>, Seq<char>)> {
        self.messages@.map_values(|m: Message| turn_of(m))
    }

    pub fn new() -> (r: ContextBuilder)
        ensures
            r.turns() == Seq::<(Seq<char>, Seq<char>)>::empty(),
    {
        let r = ContextBuilder { messages: Vec::new() };
        assert(r.turns() =~= Seq::<(Seq<char>, Seq<char>)>::empty());
        r
    }

    /// Adds a turn: the role's label, and the text without leading and
    /// trailing white space. The builder itself is handed back, so that
    /// calls can be chained.
    pub fn add_message(&mut self, role: Role, text: String) -> (r: &mut ContextBuilder)
        ensures
            r.turns() == old(self).turns().push((role_label(role), trimmed(text@))),
            *final(self) == *final(r),
    {
        let m = Message { role: role.to_text(), content: trim_text(&text) };
        self.messages.push(m);
        assert(self.turns() =~= old(self).turns().push((role_label(role), trimmed(text@))));
        self
    }

    /// The turns collected so far, in order.
    pub fn build(&self) -> (r: Vec<Message>)
        ensures
            r@.map_values(|m: Message| turn_of(m)) == self.turns(),
    {
        let mut r: Vec<Message> = Vec::new();
        let mut i: usize = 0;
        while i < self.messages.len()
            invariant
                i <= self.messages@.len(),
                r@.len() == i,
                forall|j: int| 0 <= j < i ==> turn_of(#[trigger] r@[j]) == turn_of(self.messages@[j]),
            decreases self.messages@.len() - i,
        {
            let m = &self.messages[i];
            r.push(Message { role: m.role.clone(), content: m.content.clone() });
            i = i + 1;
        }
        assert(r@.map_values(|m: Message| turn_of(m)) =~= self.turns());
        r
    }
}

/// A request body for a chat-completion provider.
pub struct ChatRequest {
    pub model: String,
    pub messages: Vec<Message>,
}

/// Token counts that the completion service returns.
pub struct Usage {
    pub prompt_tokens: u64,
    pub completion_tokens: u64,
    pub total_tokens: u64,
}

/// One answer that the completion service offers.
pub struct Choice {
    pub message: Message,
    pub finish_reason: String,
    pub index: u64,
}

/// The completion service's answer.
pub struct ChatResponse {
    pub id: String,
    pub object: String,
    pub created: u64,
    pub model: String,
    pub usage: Usage,
    pub choices: Vec<Choice>,
}

/// What a caller gets back when a completion fails.
pub open spec fn failed_reply() -> Seq<char> {
    "Error"@
}

/// A chat-completion provider: where it is reached, and the request it
/// takes for a conversation.
pub trait ChatClient {
    fn endpoint(&self) -> String;

    fn model(&self) -> String;

    fn request(&self, context: Vec<Message>) -> (r: ChatRequest)
        ensures
            r.messages@ == context@,
    ;
}

/// A model served by a local Ollama.
pub struct OllamaClient;

impl OllamaClient {
    pub fn new() -> (r: OllamaClient) {
        OllamaClient {  }
    }

    /// The reply text from the answer, where the answer could be read.
    pub fn reply(&self, answer: Option<Message>) -> (r: String)
        ensures
            match answer {
                Some(m) => r@ == m.content@,
                None => r@ == failed_reply(),
            },
    {
        match answer {
            Some(m) => m.content,
            None => String::from_str("Error"),
        }
    }
}

impl ChatClient for OllamaClient {
    fn endpoint(&self) -> (r: String) {
        String::from_str("http://localhost:11434/api/chat")
    }

    fn model(&self) -> (r: String) {
        String::from_str("gemma:2b")
    }

    fn request(&self, context: Vec<Message>) -> (r: ChatRequest) {
        ChatRequest { model: self.model(), messages: context }
    }
}

/// A model of the OpenAI completion service.
pub struct GptClient;

impl GptClient {
    pub fn new() -> (r: GptClient) {
        GptClient {  }
    }

    /// The reply text: the first choice's content, where the answer could be
    /// read and offers a choice.
    pub fn reply(&self, answer: Option<ChatResponse>) -> (r: String)
        ensures
            match answer {
                Some(a) => if a.choices@.len() > 0 {
                    r@ == a.choices@[0].message.content@
                } else {
                    r@ == failed_reply()
                },
                None => r@ == failed_reply(),
            },
    {
        match answer {
            Some(a) => {
                if a.choices.len() > 0 {
                    a.choices[0].message.content.clone()
                } else {
                    String::from_str("Error")
                }
            },
            None => String::from_str("Error"),
        }
    }
}

impl ChatClient for GptClient {
    fn endpoint(&self) -> (r: String) {
        String::from_str("https://api.openai.com/v1/chat/completions")
    }

    fn model(&self) -> (r: String) {
        String::from_str("gpt-4-turbo-preview")
    }

    fn request(&self, context: Vec<Message>) -> (r: ChatRequest) {
        ChatRequest { model: self.model(), messages: context }
    }
}

} // verus!
