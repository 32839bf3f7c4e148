//! Client-side protocol handling and state reconciliation for a real-time chat.
//!
//! The wire codec, the local state store, the outbound action encoder, the
//! event distribution hub and the session identity cell are verified here;
//! the transport and the rendering layer are left to the embedding program.
use vstd::prelude::*;

pub mod codec;
pub mod grammar;
pub mod hub;
pub mod laws;
pub mod parser;
pub mod protocol;
pub mod session;
pub mod store;
mod text;

