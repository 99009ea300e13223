//! Session and broadcast coordination for a multi-user terminal chat.
//!
//! The library keeps the shared history, the live sessions and the pending
//! authentications, turns keystroke bytes into commands, and decides which
//! frames have to be drawn after each event. Transport and drawing stay with
//! the caller.

pub mod history;
pub mod input;
pub mod render;
pub mod chat;
