//! A store of append-only byte segments addressed by path, with the
//! request-level decisions of a streaming upload/download service.

pub mod chunk;
pub mod keys;
pub mod segment;
pub mod app_state;
pub mod handlers;
