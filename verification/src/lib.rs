//! Shared-document editing: the version-gated document, the session registry
//! that fans accepted edits out to the other peers, and the client's input line.

pub mod client;
pub mod document;
pub mod history;
pub mod input;
pub mod registry;
pub mod session;
pub mod text;

