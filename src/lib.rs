//! A persistent key/value store kept as one append-only log of
//! length-prefixed records.
//!
//! The library holds the record format, the encoding used by the write path
//! and the forward scan used by the read path, with their laws. Opening,
//! appending to and reading the log file is left to the caller.
pub mod codec;
pub mod key_value;
pub mod laws;
pub mod scan;

pub use key_value::{encode_record, process_buffer, KvError, KvKey, KvStore, KvValue, Pair};
pub use scan::{Scanner, Step};
