//! An in-memory key/value store speaking a Redis-like textual wire protocol.
//!
//! The crate provides the three verified pieces of the server:
//! a frame codec ([`frame`], [`decode`]) that serializes and deserializes
//! protocol messages with partial-read tolerance, a command layer
//! ([`command`]) that turns frames into GET/SET operations and replies,
//! and a sharded map ([`store`]) holding the data. Socket handling lives
//! outside the library; it feeds raw bytes in and writes encoded bytes out.

pub mod buffer;
pub mod command;
pub mod decode;
pub mod digits;
pub mod frame;
pub mod store;

