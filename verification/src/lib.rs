//! A POP3 protocol engine: command parsing, mailbox bookkeeping, the session
//! state machine, response encoding and line framing.

pub mod command;
pub mod mailbox;
pub mod request;
pub mod response;
pub mod session;
pub mod text;
