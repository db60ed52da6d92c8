//! An ephemeral blob-sharing core: content-addressed storage with
//! write-once keys, a minimal wire-protocol reader and response writer,
//! a time-based garbage-collection sweep, and a concurrency admission gate.
pub mod digest;
pub mod gate;
pub mod hex;
pub mod parse;
pub mod response;
pub mod service;
pub mod store;
