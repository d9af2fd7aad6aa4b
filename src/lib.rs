//! The core of a log-structured key-value store: an ordered in-memory table
//! over an arena-backed skiplist, the block codec, and sorted string tables.

use vstd::prelude::*;

pub mod arena;
pub mod block;
pub mod error;
pub mod keys;
pub mod memtable;
pub mod skiplist;
pub mod table;

verus! {

/// Adds two sizes.
pub fn add(left: usize, right: usize) -> (r: usize)
    requires
        left + right <= usize::MAX,
    ensures
        r == left + right,
{
    left + right
}

} // verus!
