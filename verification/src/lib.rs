//! Verified core of the zeta terminal agent: text formatting, session
//! identifiers, chat-stream decisions and the state of the terminal views.

pub mod text;
pub mod tools;
pub mod session;
pub mod agent;
pub mod render;
pub mod view;
