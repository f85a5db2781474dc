//! The completion engine: requests, replies and a stand-in engine.
pub mod json;
pub mod mock;
pub mod request;
pub mod session;

pub use json::escape;
pub use request::{messages_to_json, CompleteOptions, Message};
pub use session::{engine_kind, Error, Model};
