//! An ordered, insert-only in-memory index over byte-string keys: a skip list
//! backed by growable storage, together with the bump arena, the pluggable
//! byte comparator and the random source that drive it.

pub mod arena;
pub mod byte_str;
pub mod cmp;
pub mod random;
pub mod render;
pub mod skiplist;
pub mod skipnode;
pub mod skiplist_iter;

use vstd::prelude::*;

verus! {

/// Structural ceiling on a node tower's height, and the height of the
/// head sentinel's tower.
pub const K_MAX_HEIGHT: usize = 12;

} // verus!
