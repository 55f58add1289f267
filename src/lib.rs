//! `kvs` is a log-structured key/value store engine.
//!
//! The library holds the engine's verified logic: the command model and the
//! replay semantics of a command log, the in-memory key directory, the
//! recovery of a store from its log segments, and the bookkeeping of writes
//! and compaction. The file handles and the record encoding live with the
//! program that drives the engine.
pub mod command;
pub mod engine;
pub mod error;
pub mod keydir;
pub mod segment;

pub use command::Command;
pub use engine::{compacted_value, value_of, Engine, COMPACTION_THRESHOLD};
pub use error::{KvsError, Result};
pub use keydir::{KeyDir, ValueEntry};
pub use segment::{load, log_ids_of, log_path, parse_log_id, LoadedRecord};
