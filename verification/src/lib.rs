//! A persistent, log-structured key/value store.
//!
//! Commands are appended to generation-numbered log files as self-delimiting
//! textual records; an in-memory index maps each live key to the position of
//! its latest `Put` record, and compaction rewrites live records into a fresh
//! generation, reclaiming superseded bytes.

pub mod codec;
pub mod engine;
pub mod error;
pub mod gens;
pub mod index;
pub mod laws;
pub mod reader;
pub mod server;
pub mod store;

pub use codec::Command;
pub use engine::KvsEngine;
pub use error::KvsError;
pub use server::KvsServer;
pub use store::{CommandPos, KvStore};
