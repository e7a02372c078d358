//! A persistent key-value store built on append-only log segments.
//!
//! The library holds the store's logic: the in-memory index, replay of
//! existing segments, the bookkeeping of the write path and compaction, and
//! the naming of segment files. Reading and writing the files themselves is
//! left to the caller, which hands the library the records it read and the
//! encoded length of each record it wrote.
use vstd::prelude::*;

pub mod command;
pub mod error;
pub mod index;
pub mod laws;
pub mod log;
pub mod segment;
pub mod store;

pub use command::KvsCommand;
pub use error::KvsError;
pub use index::IndexMeta;
pub use segment::{gen_list, log_path, parse_gen, replay_order, segment_file_name};
pub use store::{read_value, KvStore, COMPACTION_THRESHOLD};

verus! {

/// The result of a store operation.
pub type Result<T> = std::result::Result<T, KvsError>;

} // verus!
