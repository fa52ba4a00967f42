//! Plain data types for talking to a text-generation service: requests made
//! of role-tagged messages, and the fragments of a streamed response.
//!
//! The transport that carries these values over the network lives outside
//! the library.
use vstd::prelude::*;

pub mod claude_api;
pub mod sse_parser;

verus! {

/// One event of a streamed response: a fragment of text, or the final event
/// carrying the full text and the token usage.
#[derive(Debug)]
pub enum ResponseFragment {
    TextDelta(String),
    MessageComplete(OutputMessage),
}

/// An outbound request: an optional system prompt, the conversation so far,
/// and a token budget.
pub struct Request {
    pub system: Option<String>,
    pub messages: Vec<InputMessage>,
    pub max_tokens: usize,
}

#[derive(Debug)]
pub struct InputMessage {
    pub role: Role,
    pub content: String,
}

impl InputMessage {
    pub fn user(user_message: String) -> (r: InputMessage)
        ensures
            r.role == Role::User,
            r.content == user_message,
    {
        Self { role: Role::User, content: user_message }
    }

    pub fn assistant(assistant_message: String) -> (r: InputMessage)
        ensures
            r.role == Role::Assistant,
            r.content == assistant_message,
    {
        Self { role: Role::Assistant, content: assistant_message }
    }
}

/// The completed response: full text plus token usage.
#[derive(Debug, Clone)]
pub struct OutputMessage {
    pub input_tokens: usize,
    pub output_tokens: usize,
    pub text: String,
}

#[derive(Debug, Clone, Copy, PartialEq, Eq, Structural)]
pub enum Role {
    User,
    Assistant,
}

} // verus!
