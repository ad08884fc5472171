//! A log-structured, persistent key-value store.
//!
//! The store keeps UTF-8 string keys and values in append-only segments,
//! holds an in-memory index from key to record location, and reclaims
//! stale space through compaction.  A small line-of-command protocol
//! exposes `set`, `get` and `remove` over a byte stream.

pub use codec::Command;
pub use common::{GetResponse, RemoveResponse, Request, SetResponse};
pub use engine_select::Engine;
pub use error::KvsError;
pub use kv::{CommandPos, Effect, KvStore, Segment};
pub use server::{KvsEngine, KvsServer};
pub use sled_engine::SledKvsEngine;

pub mod client;
pub mod codec;
pub mod common;
pub mod dir;
pub mod engine_select;
mod error;
pub mod index;
pub mod kv;
pub mod server;
pub mod sled_engine;
