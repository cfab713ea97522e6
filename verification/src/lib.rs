//! An embedded vector-database storage engine: a write-ahead log feeding an
//! in-memory table, frozen tables flushed by a multi-lane compaction scheduler
//! into immutable sorted tables (SSTs) with a byte-exact on-disk format.
//!
//! This crate is the verified core: the record codec, the memtable, the WAL
//! segment model, the SST file image and its read path, the SST catalog and
//! the lane scheduler are all ordinary data structures with contracts proved
//! by Verus. The surrounding process — files, locks, threads and channels —
//! drives these functions from outside.

pub mod codec;
pub mod collection;
pub mod compact;
pub mod document;
pub mod index;
pub mod memtable;
pub mod paths;
pub mod search;
pub mod sst;
pub mod wal;
pub mod error;

use vstd::prelude::*;

verus! {

/// Largest vector dimension a collection may be created with.
pub const MAX_DIMENSION: i32 = 65332;

} // verus!
