//! Core of a log-structured merge-tree key-value storage engine: the
//! prefix-compressed block format with its builder and binary-searching
//! iterator, the in-memory table of sorted byte keys, and the engine state
//! that freezes a full table into an immutable list.
use vstd::prelude::*;

pub mod block;
pub mod iterators;
pub mod key;
pub mod lsm_storage;
pub mod mem_table;

verus! {

/// The error kinds surfaced by the storage core.
#[derive(Clone, Copy, Debug, PartialEq, Eq, Structural)]
pub enum LsmError {
    /// A key handed to the engine write path was empty.
    EmptyKey,
    /// A value handed to `put` was empty; empty values are reserved for tombstones.
    EmptyValueOnPut,
    /// An attempt to build a block with zero entries.
    EmptyBlock,
    /// A block buffer shorter than its declared offset region.
    MalformedBlock,
    /// Reserved for iterators that touch storage; never produced by the core.
    IoError,
}

} // verus!
