//! One entry of the index: an immutable key plus a "tower" of forward
//! links, one per level the node participates in.
//!
//! Nodes live inside the list's backing storage and refer to each other by
//! index; index 0 is the head sentinel, and a link of 0 means "no
//! successor" (the head is never a successor).

use crate::byte_str::{bytes_as_slice, bytes_new, bytes_view, debug_bytes, fmt_bytes};
use crate::K_MAX_HEIGHT;
use bytes::Bytes;
use vstd::prelude::*;

verus! {

pub struct Node {
    pub data: Bytes,
    pub forward: Vec<usize>,
}

impl Node {
    /// The key this node carries.
    pub open spec fn key(self) -> Seq<u8> {
        bytes_view(self.data)
    }

    /// The number of levels this node participates in, fixed at
    /// construction: exactly the length of its tower.
    pub open spec fn height(self) -> int {
        self.forward@.len() as int
    }

    /// A fresh node of the given height with every forward link empty.
    /// The tower is sized to exactly `height` slots, not the structural
    /// maximum.
    pub fn new(data: Bytes, height: usize) -> (n: Node)
        requires
            height <= K_MAX_HEIGHT,
        ensures
            n.data == data,
            n.height() == height,
            forall|l: int| 0 <= l < height ==> n.forward@[l] == 0usize,
    {
        let mut forward: Vec<usize> = Vec::new();
        let mut i: usize = 0;
        while i < height
            invariant
                i <= height,
                forward@.len() == i,
                forall|l: int| 0 <= l < i ==> forward@[l] == 0usize,
            decreases height - i,
        {
            forward.push(0);
            i = i + 1;
        }
        Node { data, forward }
    }

    /// The head sentinel: maximum height, empty key.
    pub fn head() -> (n: Node)
        ensures
            n.height() == K_MAX_HEIGHT,
            n.key() == Seq::<u8>::empty(),
            forall|l: int| 0 <= l < K_MAX_HEIGHT ==> n.forward@[l] == 0usize,
    {
        Node::new(bytes_new(), K_MAX_HEIGHT)
    }

    /// Replace the forward link at level `n`; every other level and the
    /// key stay as they were.
    pub fn set_next(&mut self, n: usize, node: usize)
        requires
            n < old(self).forward@.len(),
        ensures
            final(self).forward@ == old(self).forward@.update(n as int, node),
            final(self).data == old(self).data,
    {
        self.forward.set(n, node);
    }

    /// The key rendered the way byte slices print: decimal values in
    /// square brackets.
    pub fn to_string(&self) -> (r: String)
        ensures
            r@ == debug_bytes(self.key()),
    {
        fmt_bytes(bytes_as_slice(&self.data))
    }

    /// The forward link at level `n`; levels at or above this node's
    /// height are a caller error, ruled out by the precondition.
    pub fn get_next(&self, n: usize) -> (r: usize)
        requires
            n < self.forward@.len(),
        ensures
            r == self.forward@[n as int],
    {
        self.forward[n]
    }
}

} // verus!
