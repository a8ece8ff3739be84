//! A persistent key-value store built around a log-structured engine.
//!
//! Every mutation is appended to a command log as one text record per line;
//! an in-memory index maps each live key to the ordinal of its latest `Set`
//! record. Reopening replays the log, and compaction rewrites it so that it
//! holds one record per live key. The engine sits behind the [`KvsEngine`]
//! interface together with a backend that keeps its data in sled.

pub mod cli;
pub mod codec;
pub mod datafile;
pub mod engine;
pub mod error;
pub mod selection;
pub mod server;
pub mod sled_engine;
pub mod store;
pub mod text;

pub use cli::{Action, GetCmd, KvsCLI, RmCmd, SetCmd};
pub use datafile::{KvsDatabase, KvsDatafile, Offset};
pub use engine::{Backend, KvsEngine};
pub use error::DbError;
pub use sled_engine::SledKvsEngine;
pub use store::{KvStore, LogWrite};
