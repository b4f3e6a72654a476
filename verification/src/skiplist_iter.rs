//! A non-owning cursor over a skip list: direct positioning plus forward
//! and backward stepping.
//!
//! The cursor is either invalid (no current node) or stands on a real
//! node; 0, the head sentinel's index, encodes "invalid". Backward
//! stepping re-descends from the top, since towers only point forward.

use crate::byte_str::bytes_as_slice;
use crate::cmp::{
    lemma_cmp_refl, lemma_first_geq_basic, lemma_first_geq_classify, lemma_first_geq_unique,
    lemma_lt_le_lt, lemma_sorted_le_pair, BaseComparator,
};
use crate::random::RandomGenerator;
use crate::skiplist::SkipList;
use core::cmp::Ordering;
use vstd::prelude::*;

verus! {

pub struct SkipListIter<'a, R: RandomGenerator, C: BaseComparator> {
    list: &'a SkipList<R, C>,
    node: usize,
}

impl<'a, R: RandomGenerator, C: BaseComparator> SkipListIter<'a, R, C> {
    /// The list this cursor walks.
    pub closed spec fn list_spec(self) -> SkipList<R, C> {
        *self.list
    }

    /// A valid cursor stands on a real node.
    pub closed spec fn valid_spec(self) -> bool {
        self.node != 0
    }

    /// The current position, in key order.
    pub closed spec fn pos(self) -> int {
        self.list.links_at(0).index_of(self.node)
    }

    /// The cursor's list is well-formed, and a valid cursor stands on one
    /// of its chain nodes.
    pub closed spec fn wf(self) -> bool {
        &&& self.list.wf()
        &&& (self.node == 0 || self.list.links_at(0).contains(self.node))
    }

    /// The facts a valid cursor's position gives.
    proof fn lemma_cursor(self)
        requires
            self.wf(),
            self.valid_spec(),
        ensures
            0 <= self.pos() < self.list_spec()@.len(),
            self.node == self.list_spec().node_of(self.pos()),
            self.list_spec().node_key(self.node) == self.list_spec()@[self.pos()],
            self.node < self.list_spec().nodes_seq().len(),
            self.list_spec().nodes_seq()[self.node as int].height() > 0,
    {
        self.list.lemma_chain_member(self.node);
    }

    /// A fresh cursor, not yet positioned.
    pub fn new(list: &'a SkipList<R, C>) -> (r: Self)
        requires
            list.wf(),
        ensures
            r.wf(),
            r.list_spec() == *list,
            !r.valid_spec(),
    {
        SkipListIter { list, node: 0 }
    }

    /// Whether the cursor stands on a node.
    pub fn valid(&self) -> (r: bool)
        ensures
            r == self.valid_spec(),
    {
        self.node != 0
    }

    /// Step to the first node; invalid if the list is empty.
    pub fn seek_to_first(&mut self)
        requires
            old(self).wf(),
        ensures
            final(self).wf(),
            final(self).list_spec() == old(self).list_spec(),
            final(self).valid_spec() <==> old(self).list_spec()@.len() > 0,
            final(self).valid_spec() ==> final(self).pos() == 0,
    {
        proof {
            self.list.lemma_head_next();
            if self.list@.len() > 0 {
                self.list.lemma_pos_of_node(0);
            }
        }
        let n = self.list.get_head();
        self.node = n.get_next(0);
    }

    /// Step to the last node; invalid if the list is empty.
    pub fn seek_to_last(&mut self)
        requires
            old(self).wf(),
        ensures
            final(self).wf(),
            final(self).list_spec() == old(self).list_spec(),
            final(self).valid_spec() <==> old(self).list_spec()@.len() > 0,
            final(self).valid_spec() ==> final(self).pos() == old(self).list_spec()@.len() - 1,
    {
        proof {
            if self.list@.len() > 0 {
                self.list.lemma_pos_of_node(self.list@.len() - 1);
            }
        }
        self.node = self.list.find_last();
    }

    /// Position on the first node whose key is not strictly below `s`;
    /// invalid if every key is below it.
    pub fn seek(&mut self, s: &[u8])
        requires
            old(self).wf(),
        ensures
            final(self).wf(),
            final(self).list_spec() == old(self).list_spec(),
            final(self).valid_spec() <==> old(self).list_spec().first_geq(s@) < old(
                self,
            ).list_spec()@.len(),
            final(self).valid_spec() ==> final(self).pos() == old(self).list_spec().first_geq(s@),
    {
        let mut prev: Vec<usize> = Vec::new();
        let lst = self.list;
        self.node = lst.find(s, &mut prev);
        proof {
            lemma_first_geq_basic(&lst.comparator(), lst@, s@);
            let p = lst.first_geq(s@);
            if p < lst@.len() {
                lst.lemma_pos_of_node(p);
            }
        }
    }

    /// Step forward; becomes invalid past the last node.
    pub fn next(&mut self)
        requires
            old(self).wf(),
            old(self).valid_spec(),
        ensures
            final(self).wf(),
            final(self).list_spec() == old(self).list_spec(),
            final(self).valid_spec() <==> old(self).pos() + 1 < old(self).list_spec()@.len(),
            final(self).valid_spec() ==> final(self).pos() == old(self).pos() + 1,
    {
        proof {
            self.lemma_cursor();
            self.list.lemma_chain_next(self.pos());
            if self.pos() + 1 < self.list@.len() {
                self.list.lemma_pos_of_node(self.pos() + 1);
            }
        }
        let lst = self.list;
        let n = lst.node(self.node);
        self.node = n.get_next(0);
    }

    /// Step backward, to the last node strictly below the current key;
    /// becomes invalid before the first node. Costs a fresh descent,
    /// since towers only point forward.
    pub fn prev(&mut self)
        requires
            old(self).wf(),
            old(self).valid_spec(),
        ensures
            final(self).wf(),
            final(self).list_spec() == old(self).list_spec(),
            ({
                let fg = old(self).list_spec().first_geq(
                    old(self).list_spec()@[old(self).pos()],
                );
                &&& (final(self).valid_spec() <==> fg > 0)
                &&& (fg > 0 ==> final(self).pos() == fg - 1)
            }),
    {
        proof {
            self.lemma_cursor();
        }
        let lst = self.list;
        let cur = self.node;
        let k = bytes_as_slice(&lst.node(cur).data);
        self.node = lst.find_less_than(k);
        proof {
            let fg = lst.first_geq(k@);
            lemma_first_geq_basic(&lst.comparator(), lst@, k@);
            if fg > 0 {
                lst.lemma_pos_of_node(fg - 1);
            }
        }
    }

    /// The current node's key.
    pub fn key(&self) -> (r: &[u8])
        requires
            self.wf(),
            self.valid_spec(),
        ensures
            r@ == self.list_spec()@[self.pos()],
    {
        proof {
            self.lemma_cursor();
        }
        bytes_as_slice(&self.list.node(self.node).data)
    }
}

/// Iterator symmetry: where `seek(k)` lands, the key is not below `k`;
/// stepping `prev` from there lands strictly below `k` (or goes invalid
/// before the first node), and stepping `next` again returns to the very
/// node `seek(k)` found.
pub proof fn lemma_iter_symmetry<R: RandomGenerator, C: BaseComparator>(
    list: SkipList<R, C>,
    k: Seq<u8>,
)
    requires
        list.wf(),
        list.first_geq(k) < list@.len(),
    ensures
        list.comparator().cmp_spec(list@[list.first_geq(k)], k) != Ordering::Less,
        list.first_geq(list@[list.first_geq(k)]) == list.first_geq(k),
        list.first_geq(k) > 0 ==> list.comparator().cmp_spec(list@[list.first_geq(k) - 1], k)
            == Ordering::Less,
{
    let p = list.first_geq(k);
    let keys = list@;
    let c = list.comparator();
    list.lemma_order_invariant();
    lemma_first_geq_classify(&c, keys, k);
    assert forall|j: int| 0 <= j < p implies c.cmp_spec(keys[j], keys[p]) == Ordering::Less by {
        c.law_flip(keys[p], k);
        c.law_flip(k, keys[p]);
        lemma_lt_le_lt(&c, keys[j], k, keys[p]);
    }
    lemma_cmp_refl(&c, keys[p]);
    lemma_first_geq_unique(&c, keys, keys[p], p);
}

/// The key `seek_to_last` lands on is maximal: no held key is above it.
pub proof fn lemma_last_is_max<R: RandomGenerator, C: BaseComparator>(
    list: SkipList<R, C>,
    i: int,
)
    requires
        list.wf(),
        0 <= i < list@.len(),
    ensures
        list.comparator().cmp_spec(list@[i], list@[list@.len() - 1]) != Ordering::Greater,
{
    list.lemma_order_invariant();
    lemma_sorted_le_pair(&list.comparator(), list@, i, list@.len() - 1);
}

} // verus!
