pub mod clients;
pub mod handlers;
pub mod repos;
