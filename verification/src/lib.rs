//! A persistent key-value store for UTF-8 strings, built on an append-only log
//! of JSON records and an in-memory index of byte offsets.
//!
//! The library holds the storage engine: the record codec, the log, the index
//! with its replay, the store operations and compaction. Every function is
//! verified against a contract stated over the bytes of the log. Reading and
//! writing the backing file is left to the caller, who mirrors the log's bytes
//! to disk.

pub mod codec;
pub mod compaction;
pub mod error;
pub mod index;
pub mod json;
pub mod log;
pub mod store;
pub mod theorems;

pub use crate::codec::{decode_one, encode, Command};
pub use crate::error::{DecodeError, KvsError};
pub use crate::log::Log;
pub use crate::store::KvStore;
