//! A log-structured key-value store: the record codec, the replay of a log,
//! the write path and compaction, with the file handling left to the caller.

pub mod bytes;
pub mod codec;
pub mod engine;
pub mod error;
pub mod log;
pub mod theorems;

pub use codec::EngineCommand;
pub use engine::{Compacted, KvStore, PendingWrite, COMPACTION_THRESHOLD_BYTES};
pub use error::EngineError;

