//! A verified core for a small TODO manager: items, the markdown document
//! codec with its round-trip proof, the day's record store, and the
//! action dispatcher.
pub mod action;
pub mod codec;
pub mod store;
pub mod text;
pub mod todo;
