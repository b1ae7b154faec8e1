//! A persistent key-value store core: an append-only segmented log,
//! an in-memory index from keys to log pointers, and online compaction.
//!
//! The store itself operates on an in-memory model of the data directory
//! (a list of segments, each an append-only byte buffer); an embedding
//! program mirrors those segments to files on disk.

use vstd::prelude::*;

pub mod codec;
pub mod command;
pub mod error;
pub mod file_name;
pub mod index;
pub mod storage;
pub mod store;

pub use command::{Command, Sequencer};
pub use error::KvError;
pub use index::{Index, IndexEntry};
pub use storage::{FileId, LogPointer, Segment, Storage};
pub use store::KvStore;

verus! {

} // verus!
