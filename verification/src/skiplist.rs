//! The skip list engine: a probabilistically balanced, ordered, insert-only
//! index over byte-string keys.
//!
//! Nodes live in growable backing storage owned by the list and refer to
//! each other by index; index 0 is the head sentinel and also stands for
//! "no successor" in forward links, since the head is never a successor.
//! The mathematical model is one sequence of node indices per level: the
//! chain a level's forward links trace from the head. Level 0 holds every
//! node in key order; every higher level is a sorted sub-chain of the one
//! below it.
//!
//! The engine is meant for a single writer at a time; here ownership makes
//! that discipline structural: `insert` takes the list exclusively, while
//! any number of read-only borrows (lookups, cursors) may coexist.

use crate::byte_str::{bytes_as_slice, bytes_from_vec};
use crate::cmp::{
    first_geq_from, lemma_cmp_refl, lemma_eq_sym, lemma_first_geq_classify, lemma_first_geq_unique,
    lemma_le_lt_lt, lemma_lt_le_lt, lemma_sorted_le_pair, sorted_le, BaseComparator,
    DefaultComparator,
};
use crate::random::{Random, RandomGenerator};
use crate::skipnode::Node;
use crate::K_MAX_HEIGHT;
use core::cmp::Ordering;
use vstd::prelude::*;

verus! {

pub struct SkipList<R: RandomGenerator, C: BaseComparator> {
    nodes: Vec<Node>,
    max_height: usize,
    len: usize,
    rnd: R,
    cmp: C,
    links: Ghost<Seq<Seq<usize>>>,
}

/// The forward link of node `i` at level `l` within the node storage.
pub open spec fn fwd_of(nodes: Seq<Node>, i: usize, l: int) -> usize {
    nodes[i as int].forward@[l]
}

/// The keys along a chain of node indices.
pub open spec fn keys_of(nodes: Seq<Node>, ch: Seq<usize>) -> Seq<Seq<u8>> {
    ch.map_values(|i: usize| nodes[i as int].key())
}

/// The forward links at level `l` trace exactly the chain `ch`, starting
/// at the head (node 0) and ending with 0.
pub open spec fn chain_ok_in(nodes: Seq<Node>, ch: Seq<usize>, l: int) -> bool {
    &&& nodes[0].forward@[l] == (if ch.len() == 0 {
        0usize
    } else {
        ch[0]
    })
    &&& forall|j: int|
        0 <= j < ch.len() ==> #[trigger] fwd_of(nodes, ch[j], l) == (if j + 1 < ch.len() {
            ch[j + 1]
        } else {
            0usize
        })
}

/// Every chain entry is a real node (not the head) that participates in
/// level `l`.
pub open spec fn elems_ok_in(nodes: Seq<Node>, ch: Seq<usize>, l: int) -> bool {
    forall|j: int|
        0 <= j < ch.len() ==> 1 <= #[trigger] ch[j] < nodes.len() && nodes[ch[j] as int].height()
            > l
}

/// All the per-level facts: a well-linked, sorted, duplicate-free chain of
/// real nodes tall enough for the level.
pub open spec fn level_ok<C: BaseComparator>(
    cmp: C,
    nodes: Seq<Node>,
    ch: Seq<usize>,
    l: int,
) -> bool {
    &&& chain_ok_in(nodes, ch, l)
    &&& elems_ok_in(nodes, ch, l)
    &&& sorted_le(cmp, keys_of(nodes, ch))
    &&& ch.no_duplicates()
}

/// Each element of `upper` also stands somewhere in `lower`.
pub open spec fn sub_chain_in(lower: Seq<usize>, upper: Seq<usize>) -> bool {
    forall|j: int| 0 <= j < upper.len() ==> lower.contains(#[trigger] upper[j])
}

/// The position a new node spliced in after `x` takes in a chain: the
/// front for the head, else right after `x`.
pub open spec fn splice_pos(ch: Seq<usize>, x: usize) -> int {
    if x == 0 {
        0
    } else {
        ch.index_of(x) + 1
    }
}

/// What a sequence holds after an insertion: the old elements and the new
/// one, nothing else.
proof fn lemma_seq_insert_contains(s: Seq<usize>, q: int, v: usize)
    requires
        0 <= q <= s.len(),
    ensures
        forall|e: usize| #[trigger] s.insert(q, v).contains(e) <==> (s.contains(e) || e == v),
{
    s.insert_ensures(q, v);
    let t = s.insert(q, v);
    assert forall|e: usize| #[trigger] t.contains(e) implies (s.contains(e) || e == v) by {
        let i = choose|i: int| 0 <= i < t.len() && t[i] == e;
        if i < q {
            assert(s[i] == e);
        } else if i > q {
            assert(t[(i - 1) + 1] == s[i - 1]);
            assert(s[i - 1] == e);
        }
    }
    assert forall|e: usize| s.contains(e) || e == v implies #[trigger] t.contains(e) by {
        if e == v {
            assert(t[q] == e);
        } else {
            let i = choose|i: int| 0 <= i < s.len() && s[i] == e;
            if i < q {
                assert(t[i] == e);
            } else {
                assert(t[i + 1] == e);
            }
        }
    }
}

/// Inserting a fresh element keeps a sequence duplicate-free.
proof fn lemma_seq_insert_no_dup(s: Seq<usize>, q: int, v: usize)
    requires
        0 <= q <= s.len(),
        s.no_duplicates(),
        !s.contains(v),
    ensures
        s.insert(q, v).no_duplicates(),
{
    s.insert_ensures(q, v);
    let t = s.insert(q, v);
    assert forall|i: int, j: int| 0 <= i < t.len() && 0 <= j < t.len() && i != j implies t[i]
        != t[j] by {
        if t[i] == t[j] {
            let oi: int = if i < q {
                i
            } else if i == q {
                -1int
            } else {
                i - 1
            };
            let oj: int = if j < q {
                j
            } else if j == q {
                -1int
            } else {
                j - 1
            };
            if oi >= 0 {
                if oi < q {
                    assert(t[oi] == s[oi]);
                } else {
                    assert(t[oi + 1] == s[oi]);
                }
            }
            if oj >= 0 {
                if oj < q {
                    assert(t[oj] == s[oj]);
                } else {
                    assert(t[oj + 1] == s[oj]);
                }
            }
            if oi == -1 && oj >= 0 {
                assert(s.contains(s[oj]));
            } else if oj == -1 && oi >= 0 {
                assert(s.contains(s[oi]));
            }
        }
    }
}

/// A chain's per-level facts carry over to a larger node storage in which
/// the chain's nodes kept their keys, their heights, and their links at
/// this level.
proof fn lemma_level_preserved<C: BaseComparator>(
    cmp: C,
    base: Seq<Node>,
    fin: Seq<Node>,
    ch: Seq<usize>,
    l: int,
)
    requires
        level_ok(cmp, base, ch, l),
        base.len() <= fin.len(),
        forall|i: int|
            0 <= i < base.len() ==> (#[trigger] fin[i]).key() == base[i].key()
                && fin[i].forward@.len() == base[i].forward@.len(),
        forall|j: int| 0 <= j < ch.len() ==> fwd_of(fin, #[trigger] ch[j], l) == fwd_of(
            base,
            ch[j],
            l,
        ),
        fin[0].forward@[l] == base[0].forward@[l],
    ensures
        level_ok(cmp, fin, ch, l),
{
    assert(keys_of(fin, ch) =~= keys_of(base, ch));
}

/// A valid splice point pins down where the new key lands: `splice_pos`
/// is exactly the first position of the chain whose key is not strictly
/// below `key`.
#[verifier::rlimit(100)]
proof fn lemma_splice_pos_is_first_geq<C: BaseComparator>(
    cmp: C,
    nodes: Seq<Node>,
    ch: Seq<usize>,
    l: int,
    x: usize,
    key: Seq<u8>,
)
    requires
        level_ok(cmp, nodes, ch, l),
        x == 0 || (ch.contains(x) && cmp.cmp_spec(nodes[x as int].key(), key) == Ordering::Less),
        fwd_of(nodes, x, l) == 0 || cmp.cmp_spec(nodes[fwd_of(nodes, x, l) as int].key(), key)
            != Ordering::Less,
    ensures
        0 <= splice_pos(ch, x) <= ch.len(),
        splice_pos(ch, x) == first_geq_from(cmp, keys_of(nodes, ch), key),
{
    let keys = keys_of(nodes, ch);
    let y = fwd_of(nodes, x, l);
    if x == 0 {
        if ch.len() > 0 {
            assert(y == ch[0]);
            assert(keys[0] == nodes[ch[0] as int].key());
        }
        lemma_first_geq_unique(&cmp, keys, key, 0);
    } else {
        let qx = ch.index_of(x);
        assert(0 <= qx < ch.len() && ch[qx] == x);
        assert(fwd_of(nodes, ch[qx], l) == (if qx + 1 < ch.len() {
            ch[qx + 1]
        } else {
            0usize
        }));
        assert forall|j: int| 0 <= j < qx + 1 implies cmp.cmp_spec(keys[j], key)
            == Ordering::Less by {
            assert(keys[j] == nodes[ch[j] as int].key());
            assert(keys[qx] == nodes[x as int].key());
            lemma_sorted_le_pair(&cmp, keys, j, qx);
            if j < qx {
                lemma_le_lt_lt(&cmp, keys[j], keys[qx], key);
            }
        }
        if qx + 1 < ch.len() {
            assert(keys[qx + 1] == nodes[y as int].key());
        }
        lemma_first_geq_unique(&cmp, keys, key, qx + 1);
    }
}

/// Common premises of the two splice lemmas: the old chain is sound at
/// level `l`; `x` is a valid splice point for `key`; and the new storage
/// `fin` extends `base` with one node `idx` carrying `key`, whose link at
/// `l` holds the splice point's old successor, while the only old slot
/// changed at this level is the splice point's, now holding `idx`.
spec fn splice_pre<C: BaseComparator>(
    cmp: C,
    base: Seq<Node>,
    fin: Seq<Node>,
    ch: Seq<usize>,
    l: int,
    x: usize,
    idx: usize,
    key: Seq<u8>,
) -> bool {
    &&& level_ok(cmp, base, ch, l)
    &&& 0 <= l
    &&& 1 <= idx == base.len()
    &&& fin.len() == base.len() + 1
    &&& (x == 0 || (ch.contains(x) && cmp.cmp_spec(base[x as int].key(), key) == Ordering::Less))
    &&& (fwd_of(base, x, l) == 0 || cmp.cmp_spec(base[fwd_of(base, x, l) as int].key(), key)
        != Ordering::Less)
    &&& forall|i: int|
        0 <= i < base.len() ==> (#[trigger] fin[i]).key() == base[i].key()
            && fin[i].forward@.len() == base[i].forward@.len()
    &&& fin[idx as int].key() == key
    &&& fin[idx as int].height() > l
    &&& fwd_of(fin, idx, l) == fwd_of(base, x, l)
    &&& fwd_of(fin, x, l) == idx
    &&& l < base[0].forward@.len()
    &&& forall|i: usize|
        i < base.len() && i != x && l < base[i as int].forward@.len() ==> #[trigger] fwd_of(
            fin,
            i,
            l,
        ) == fwd_of(base, i, l)
}

/// Splicing one level, chain structure: the new chain is the old one with
/// `idx` inserted at `splice_pos`, well-linked, duplicate-free, and made
/// of valid nodes.
#[verifier::rlimit(100)]
proof fn lemma_splice_chain<C: BaseComparator>(
    cmp: C,
    base: Seq<Node>,
    fin: Seq<Node>,
    ch: Seq<usize>,
    l: int,
    x: usize,
    idx: usize,
    key: Seq<u8>,
)
    requires
        splice_pre(cmp, base, fin, ch, l, x, idx, key),
    ensures
        0 <= splice_pos(ch, x) <= ch.len(),
        chain_ok_in(fin, ch.insert(splice_pos(ch, x), idx), l),
        elems_ok_in(fin, ch.insert(splice_pos(ch, x), idx), l),
        ch.insert(splice_pos(ch, x), idx).no_duplicates(),
{
    let q = splice_pos(ch, x);
    let ghost qx: int = if x == 0 {
        -1int
    } else {
        ch.index_of(x)
    };
    if x != 0 {
        assert(0 <= qx < ch.len() && ch[qx] == x);
        assert(fwd_of(base, ch[qx], l) == (if qx + 1 < ch.len() {
            ch[qx + 1]
        } else {
            0usize
        }));
    }
    assert(q == qx + 1);
    let y = fwd_of(base, x, l);
    assert(y == (if q < ch.len() {
        ch[q]
    } else {
        0usize
    }));
    let nch = ch.insert(q, idx);
    ch.insert_ensures(q, idx);

    // index mapping between the old and the new chain
    assert(nch.len() == ch.len() + 1);
    assert(nch[q] == idx);
    assert forall|j: int| 0 <= j < q implies #[trigger] nch[j] == ch[j] by {}
    assert forall|j: int| q < j < nch.len() implies #[trigger] nch[j] == ch[j - 1] by {
        let i = j - 1;
        assert(nch[i + 1] == ch[i]);
    }

    // every chain element is a real old node, in particular distinct from idx
    assert(forall|j: int| 0 <= j < ch.len() ==> 1 <= #[trigger] ch[j] < idx);
    assert(!ch.contains(idx));
    lemma_seq_insert_no_dup(ch, q, idx);

    // elements are valid nodes of the new storage
    assert forall|j: int| 0 <= j < nch.len() implies 1 <= #[trigger] nch[j] < fin.len() && fin[nch[j] as int].height()
        > l by {
        if j != q {
            let e = nch[j];
            assert(1 <= e < base.len());
            assert(fin[e as int].forward@.len() == base[e as int].forward@.len());
        }
    }

    // the links trace the new chain
    assert forall|j: int| 0 <= j < nch.len() implies #[trigger] fwd_of(fin, nch[j], l) == (if j + 1
        < nch.len() {
        nch[j + 1]
    } else {
        0usize
    }) by {
        if j < q - 1 {
            assert(nch[j] == ch[j] && nch[j + 1] == ch[j + 1]);
            assert(ch[j] != x) by {
                if ch[j] == x {
                    assert(ch[j] == ch[qx]);
                }
            }
            assert(fwd_of(base, ch[j], l) == ch[j + 1]);
        } else if j == q - 1 {
            assert(nch[j] == ch[qx] && ch[qx] == x);
            assert(nch[j + 1] == idx);
        } else if j == q {
            assert(nch[j] == idx);
            if q < ch.len() {
                assert(nch[q + 1] == ch[q]);
            }
        } else {
            assert(nch[j] == ch[j - 1]);
            assert(ch[j - 1] != x) by {
                if ch[j - 1] == x {
                    assert(ch[j - 1] == ch[qx]);
                }
            }
            assert(fwd_of(base, ch[j - 1], l) == (if j < ch.len() {
                ch[j]
            } else {
                0usize
            }));
            if j < ch.len() {
                assert(nch[j + 1] == ch[j]);
            }
        }
    }
    assert(fin[0].forward@[l] == (if nch.len() == 0 {
        0usize
    } else {
        nch[0]
    })) by {
        if x == 0 {
            assert(fwd_of(fin, x, l) == idx && nch[0] == idx);
        } else {
            assert(fwd_of(fin, 0usize, l) == fwd_of(base, 0usize, l));
            assert(ch.len() > 0);
            assert(nch[0] == ch[0]);
        }
    }
}

/// Splicing one level, keys: the keys of the new chain are the old keys
/// with `key` inserted at `splice_pos`, still sorted.
#[verifier::rlimit(100)]
proof fn lemma_splice_keys<C: BaseComparator>(
    cmp: C,
    base: Seq<Node>,
    fin: Seq<Node>,
    ch: Seq<usize>,
    l: int,
    x: usize,
    idx: usize,
    key: Seq<u8>,
)
    requires
        splice_pre(cmp, base, fin, ch, l, x, idx, key),
    ensures
        0 <= splice_pos(ch, x) <= ch.len(),
        keys_of(fin, ch.insert(splice_pos(ch, x), idx)) == keys_of(base, ch).insert(
            splice_pos(ch, x),
            key,
        ),
        sorted_le(cmp, keys_of(fin, ch.insert(splice_pos(ch, x), idx))),
{
    let q = splice_pos(ch, x);
    let ghost qx: int = if x == 0 {
        -1int
    } else {
        ch.index_of(x)
    };
    if x != 0 {
        assert(0 <= qx < ch.len() && ch[qx] == x);
        assert(fwd_of(base, ch[qx], l) == (if qx + 1 < ch.len() {
            ch[qx + 1]
        } else {
            0usize
        }));
    }
    assert(q == qx + 1);
    let y = fwd_of(base, x, l);
    assert(y == (if q < ch.len() {
        ch[q]
    } else {
        0usize
    }));
    let nch = ch.insert(q, idx);
    ch.insert_ensures(q, idx);
    let keys = keys_of(base, ch);
    let nkeys = keys_of(fin, nch);

    assert(nch[q] == idx);
    assert forall|j: int| 0 <= j < q implies #[trigger] nch[j] == ch[j] by {}
    assert forall|j: int| q < j < nch.len() implies #[trigger] nch[j] == ch[j - 1] by {
        let i = j - 1;
        assert(nch[i + 1] == ch[i]);
    }
    assert(forall|j: int| 0 <= j < ch.len() ==> 1 <= #[trigger] ch[j] < idx);

    // the keys of the new chain are the old keys with `key` inserted
    let ikeys = keys.insert(q, key);
    keys.insert_ensures(q, key);
    assert(ikeys[q] == key);
    assert forall|j: int| 0 <= j < q implies #[trigger] ikeys[j] == keys[j] by {}
    assert forall|j: int| q < j < ikeys.len() implies #[trigger] ikeys[j] == keys[j - 1] by {
        let i = j - 1;
        assert(ikeys[i + 1] == keys[i]);
    }
    assert forall|j: int| 0 <= j < nkeys.len() implies #[trigger] nkeys[j] == ikeys[j] by {
        if j < q {
            assert(nch[j] == ch[j]);
            assert(nkeys[j] == fin[ch[j] as int].key());
        } else if j == q {
            assert(nch[j] == idx);
        } else {
            assert(nch[j] == ch[j - 1]);
            assert(nkeys[j] == fin[ch[j - 1] as int].key());
        }
    }
    assert(nkeys =~= ikeys);

    // sortedness of the new keys
    assert forall|j: int|
        0 <= j && j + 1 < nkeys.len() implies cmp.cmp_spec(#[trigger] nkeys[j], nkeys[j + 1])
        != Ordering::Greater by {
        if j + 1 < q {
            assert(nkeys[j] == keys[j] && nkeys[j + 1] == keys[j + 1]);
        } else if j + 1 == q {
            assert(nkeys[j] == keys[qx] && nkeys[q] == key);
            assert(keys[qx] == base[x as int].key());
        } else if j == q {
            assert(nkeys[j] == key);
            assert(nkeys[j + 1] == keys[q]);
            assert(q < ch.len() && y == ch[q]);
            assert(keys[q] == base[y as int].key());
            cmp.law_flip(base[y as int].key(), key);
        } else {
            assert(nkeys[j] == keys[j - 1] && nkeys[j + 1] == keys[j]);
        }
    }
}

/// Splicing one level: linking a fresh node `idx` in after splice point
/// `x` yields the old chain with `idx` inserted at `splice_pos`, sound
/// again at this level, and its keys are the old keys with `key` inserted.
proof fn lemma_splice_one<C: BaseComparator>(
    cmp: C,
    base: Seq<Node>,
    fin: Seq<Node>,
    ch: Seq<usize>,
    l: int,
    x: usize,
    idx: usize,
    key: Seq<u8>,
)
    requires
        splice_pre(cmp, base, fin, ch, l, x, idx, key),
    ensures
        0 <= splice_pos(ch, x) <= ch.len(),
        level_ok(cmp, fin, ch.insert(splice_pos(ch, x), idx), l),
        keys_of(fin, ch.insert(splice_pos(ch, x), idx)) == keys_of(base, ch).insert(
            splice_pos(ch, x),
            key,
        ),
{
    lemma_splice_chain(cmp, base, fin, ch, l, x, idx, key);
    lemma_splice_keys(cmp, base, fin, ch, l, x, idx, key);
}


/// Membership under the byte-lexicographic comparator is exact: a key is
/// found if and only if that very byte string is held.
pub proof fn lemma_membership_exact<R: RandomGenerator>(
    list: SkipList<R, DefaultComparator>,
    k: Seq<u8>,
)
    requires
        list.wf(),
    ensures
        list.has_key_equal(k) <==> list@.contains(k),
{
    if list.has_key_equal(k) {
        let i = choose|i: int|
            0 <= i < list@.len() && list.comparator().cmp_spec(list@[i], k) == Ordering::Equal;
        crate::cmp::lemma_lex_eq(list@[i], k);
        assert(list@[i] == k);
        assert(list@.contains(k));
    }
    if list@.contains(k) {
        list.lemma_inserted_is_found(k);
    }
}

impl Default for SkipList<Random, DefaultComparator> {
    /// The stock list: a fixed-seed random source and byte-lexicographic
    /// order.
    fn default() -> (s: Self)
        ensures
            s.wf(),
            s@ == Seq::<Seq<u8>>::empty(),
            s.max_height_spec() == 1,
    {
        SkipList::new(Random::new(0xdead_beef), DefaultComparator {  })
    }
}

impl<R: RandomGenerator, C: BaseComparator> View for SkipList<R, C> {
    type V = Seq<Seq<u8>>;

    /// The keys held, in level-0 (comparator) order.
    closed spec fn view(&self) -> Seq<Seq<u8>> {
        keys_of(self.nodes@, self.links@[0])
    }
}

impl<R: RandomGenerator, C: BaseComparator> SkipList<R, C> {
    /// The comparator that defines all ordering in this list.
    pub closed spec fn comparator(self) -> C {
        self.cmp
    }

    /// The current maximum active height.
    pub closed spec fn max_height_spec(self) -> int {
        self.max_height as int
    }

    /// The chain of node indices at level `l`.
    pub closed spec fn links_at(self, l: int) -> Seq<usize> {
        self.links@[l]
    }

    /// The node index standing at position `p` of the level-0 chain.
    pub open spec fn node_of(self, p: int) -> usize {
        self.links_at(0)[p]
    }

    /// The key of node `i`.
    pub open spec fn node_key(self, i: usize) -> Seq<u8> {
        self.nodes_seq()[i as int].key()
    }

    /// The keys along the chain at level `l`.
    pub open spec fn keys_at(self, l: int) -> Seq<Seq<u8>> {
        keys_of(self.nodes_seq(), self.links_at(l))
    }

    /// Structural well-formedness: see the module doc.
    pub closed spec fn wf(self) -> bool {
        &&& self.nodes@.len() >= 1
        &&& self.links@.len() == K_MAX_HEIGHT
        &&& self.nodes@[0].height() == K_MAX_HEIGHT
        &&& self.nodes@[0].key() == Seq::<u8>::empty()
        &&& 1 <= self.max_height <= K_MAX_HEIGHT
        &&& self.len == self.links@[0].len()
        &&& self.links@[0].len() == self.nodes@.len() - 1
        &&& forall|l: int|
            0 <= l < K_MAX_HEIGHT ==> level_ok(self.cmp, self.nodes@, #[trigger] self.links@[l], l)
        &&& forall|l: int|
            1 <= l < K_MAX_HEIGHT ==> sub_chain_in(self.links@[l - 1], #[trigger] self.links@[l])
        &&& forall|l: int|
            self.max_height <= l < K_MAX_HEIGHT ==> (#[trigger] self.links@[l]).len() == 0
    }

    /// The node storage, head sentinel included.
    pub closed spec fn nodes_seq(self) -> Seq<Node> {
        self.nodes@
    }

    /// The position where a node carrying `key` would stand: the first
    /// position whose key is not strictly below `key`.
    pub open spec fn first_geq(self, key: Seq<u8>) -> int {
        first_geq_from(self.comparator(), self@, key)
    }

    /// `x` is the node a new node carrying `key` would be spliced in
    /// after, at level `l`: either the head (0), or a chain node strictly
    /// below `key`; and the node after `x` at that level, if any, is not
    /// strictly below `key`.
    pub open spec fn splice_ok(self, l: int, x: usize, key: Seq<u8>) -> bool {
        let y = fwd_of(self.nodes_seq(), x, l);
        &&& (x == 0 || (self.links_at(l).contains(x) && self.comparator().cmp_spec(
            self.node_key(x),
            key,
        ) == Ordering::Less))
        &&& (y == 0 || self.comparator().cmp_spec(self.node_key(y), key) != Ordering::Less)
    }

    /// Some held key compares `Equal` to `key`.
    pub open spec fn has_key_equal(self, key: Seq<u8>) -> bool {
        exists|i: int|
            0 <= i < self@.len() && self.comparator().cmp_spec(self@[i], key) == Ordering::Equal
    }

    /// An empty list around the given random source and comparator.
    pub fn new(rnd: R, cmp: C) -> (s: Self)
        ensures
            s.wf(),
            s@ == Seq::<Seq<u8>>::empty(),
            s.comparator() == cmp,
            s.max_height_spec() == 1,
    {
        let mut nodes: Vec<Node> = Vec::new();
        nodes.push(Node::head());
        let s = SkipList {
            nodes,
            max_height: 1,
            len: 0,
            rnd,
            cmp,
            links: Ghost(Seq::new(K_MAX_HEIGHT as nat, |l: int| Seq::<usize>::empty())),
        };
        proof {
            assert(s@ =~= Seq::<Seq<u8>>::empty());
        }
        s
    }

    /// An empty list with the stock random source.
    pub fn new_by_cmp(cmp: C) -> (s: SkipList<Random, C>)
        ensures
            s.wf(),
            s@ == Seq::<Seq<u8>>::empty(),
            s.comparator() == cmp,
    {
        SkipList::new(Random::new(0xdead_beef), cmp)
    }

    /// Returns the number of elements in the skip list; duplicates are
    /// counted separately, so this equals the number of inserts made.
    pub fn len(&self) -> (r: usize)
        requires
            self.wf(),
        ensures
            r == self@.len(),
    {
        self.len
    }

    /// Returns `true` if the skip list is empty.
    pub fn is_empty(&self) -> (r: bool)
        requires
            self.wf(),
        ensures
            r == (self@.len() == 0),
    {
        self.len == 0
    }

    /// An estimate of the memory held: one full-width node record per
    /// entry plus one for the head sentinel. Non-decreasing over time, and
    /// never below the bytes the entries themselves take.
    pub fn memory_size(&self) -> (r: usize)
        requires
            self.wf(),
        ensures
            r as nat == (self@.len() + 1) * vstd::layout::size_of::<Node>() || (r == usize::MAX
                && (self@.len() + 1) * vstd::layout::size_of::<Node>() > usize::MAX),
    {
        let count = self.nodes.len();
        match count.checked_mul(core::mem::size_of::<Node>()) {
            Some(v) => v,
            None => usize::MAX,
        }
    }

    /// The current maximum active height, at most the structural ceiling.
    pub fn get_max_height(&self) -> (r: usize)
        requires
            self.wf(),
        ensures
            r == self.max_height_spec(),
            1 <= r <= K_MAX_HEIGHT,
    {
        self.max_height
    }

    /// Record a larger maximum active height. The recorded height only
    /// ever grows, and chains at or above it must be (and stay) empty.
    pub fn set_max_height(&mut self, h: usize)
        requires
            old(self).wf(),
            old(self).max_height_spec() <= h <= K_MAX_HEIGHT,
        ensures
            final(self).wf(),
            final(self)@ == old(self)@,
            final(self).comparator() == old(self).comparator(),
            final(self).max_height_spec() == h,
    {
        self.max_height = h;
    }

    /// Drop every entry and reset the head, leaving an empty list.
    pub fn clear(&mut self)
        requires
            old(self).wf(),
        ensures
            final(self).wf(),
            final(self)@ == Seq::<Seq<u8>>::empty(),
            final(self).comparator() == old(self).comparator(),
            final(self).max_height_spec() == 1,
    {
        self.nodes.truncate(1);
        self.nodes.set(0, Node::head());
        self.max_height = 1;
        self.len = 0;
        self.links = Ghost(Seq::new(K_MAX_HEIGHT as nat, |l: int| Seq::<usize>::empty()));
        proof {
            assert(self@ =~= Seq::<Seq<u8>>::empty());
        }
    }

    /// A splice point is a node the storage really holds, tall enough to
    /// carry a link at its level.
    proof fn lemma_splice_node_bounds(self, l: int, x: usize, key: Seq<u8>)
        requires
            self.wf(),
            0 <= l < K_MAX_HEIGHT,
            self.splice_ok(l, x, key),
        ensures
            x < self.nodes_seq().len(),
            l < self.nodes_seq()[x as int].height(),
    {
        if x != 0 {
            let ch = self.links_at(l);
            assert(level_ok(self.cmp, self.nodes@, self.links@[l], l));
            let j = choose|j: int| 0 <= j < ch.len() && ch[j] == x;
            assert(1 <= ch[j] < self.nodes@.len() && self.nodes@[ch[j] as int].height() > l);
        }
    }

    /// Committing an insert: given the state `pre` just before the new
    /// node was pushed, and the storage `fin` after pushing node `idx`
    /// (key `key`, height `height`, tower preloaded with the splice
    /// points' old successors) and publishing it into every splice
    /// point's link, produces the new per-level chains: the old ones with
    /// `idx` added to the lowest `height` levels, all sound, and at level
    /// 0 holding the old keys with `key` at its ordered position.
    #[verifier::rlimit(100)]
    proof fn lemma_insert_commit(
        pre: Self,
        fin: Seq<Node>,
        prev: Seq<usize>,
        idx: usize,
        key: Seq<u8>,
        height: int,
    ) -> (nlinks: Seq<Seq<usize>>)
        requires
            pre.wf(),
            idx == pre.nodes_seq().len(),
            1 <= height <= pre.max_height_spec(),
            prev.len() == K_MAX_HEIGHT,
            forall|l: int| 0 <= l < height ==> pre.splice_ok(l, #[trigger] prev[l], key),
            fin.len() == idx + 1,
            forall|i: int|
                0 <= i < idx ==> (#[trigger] fin[i]).key() == pre.nodes_seq()[i].key()
                    && fin[i].forward@.len() == pre.nodes_seq()[i].forward@.len(),
            fin[idx as int].key() == key,
            fin[idx as int].height() == height,
            forall|l: int|
                0 <= l < height ==> #[trigger] fwd_of(fin, idx, l) == fwd_of(
                    pre.nodes_seq(),
                    prev[l],
                    l,
                ),
            forall|l: int| 0 <= l < height ==> #[trigger] fwd_of(fin, prev[l], l) == idx,
            forall|i: usize, lv: int|
                i < idx && 0 <= lv < fin[i as int].forward@.len() && (lv >= height || prev[lv]
                    != i) ==> #[trigger] fwd_of(fin, i, lv) == fwd_of(pre.nodes_seq(), i, lv),
        ensures
            nlinks.len() == K_MAX_HEIGHT,
            forall|l: int|
                0 <= l < K_MAX_HEIGHT ==> level_ok(
                    pre.comparator(),
                    fin,
                    #[trigger] nlinks[l],
                    l,
                ),
            forall|l: int|
                1 <= l < K_MAX_HEIGHT ==> sub_chain_in(nlinks[l - 1], #[trigger] nlinks[l]),
            forall|l: int|
                pre.max_height_spec() <= l < K_MAX_HEIGHT ==> (#[trigger] nlinks[l]).len() == 0,
            nlinks[0].len() == pre.links_at(0).len() + 1,
            keys_of(fin, nlinks[0]) == pre@.insert(pre.first_geq(key), key),
    {
        let base = pre.nodes_seq();
        let cmp = pre.comparator();
        let mh = pre.max_height_spec();
        let out = Seq::new(
            K_MAX_HEIGHT as nat,
            |l: int|
                if 0 <= l < height {
                    pre.links_at(l).insert(splice_pos(pre.links_at(l), prev[l]), idx)
                } else {
                    pre.links_at(l)
                },
        );
        assert(base[0].forward@.len() == K_MAX_HEIGHT);

        // the spliced levels satisfy the splice lemmas' premises
        assert forall|l: int| 0 <= l < height implies splice_pre(
            cmp,
            base,
            fin,
            #[trigger] pre.links_at(l),
            l,
            prev[l],
            idx,
            key,
        ) by {
            assert(level_ok(pre.cmp, pre.nodes@, pre.links@[l], l));
            assert(pre.splice_ok(l, prev[l], key));
            let x = prev[l];
            assert(fwd_of(fin, prev[l], l) == idx);
            assert(fwd_of(fin, idx, l) == fwd_of(base, prev[l], l));
            assert forall|i: usize|
                i < base.len() && i != x && l < base[i as int].forward@.len() implies #[trigger] fwd_of(
                fin,
                i,
                l,
            ) == fwd_of(base, i, l) by {
                assert(fin[i as int].forward@.len() == base[i as int].forward@.len());
            }
        }
        assert forall|l: int| 0 <= l < height implies level_ok(cmp, fin, #[trigger] out[l], l)
            && keys_of(fin, out[l]) == keys_of(base, pre.links_at(l)).insert(
            splice_pos(pre.links_at(l), prev[l]),
            key,
        ) && 0 <= splice_pos(pre.links_at(l), prev[l]) <= pre.links_at(l).len() && out[l]
            == pre.links_at(l).insert(splice_pos(pre.links_at(l), prev[l]), idx) by {
            lemma_splice_one(cmp, base, fin, pre.links_at(l), l, prev[l], idx, key);
        }

        // the untouched levels carry over unchanged
        assert forall|l: int| height <= l < K_MAX_HEIGHT implies level_ok(
            cmp,
            fin,
            #[trigger] out[l],
            l,
        ) by {
            assert(level_ok(pre.cmp, pre.nodes@, pre.links@[l], l));
            let ch = pre.links_at(l);
            assert forall|j: int| 0 <= j < ch.len() implies fwd_of(fin, #[trigger] ch[j], l)
                == fwd_of(base, ch[j], l) by {
                assert(1 <= ch[j] < base.len() && base[ch[j] as int].height() > l);
                assert(fin[ch[j] as int].forward@.len() == base[ch[j] as int].forward@.len());
            }
            assert(fwd_of(fin, 0usize, l) == fwd_of(base, 0usize, l));
            lemma_level_preserved(cmp, base, fin, ch, l);
        }

        // what the spliced chains hold
        assert forall|l: int, e: usize| 0 <= l < height implies (#[trigger] out[l].contains(e)
            <==> (pre.links_at(l).contains(e) || e == idx)) by {
            lemma_seq_insert_contains(
                pre.links_at(l),
                splice_pos(pre.links_at(l), prev[l]),
                idx,
            );
        }

        // each level remains a sub-chain of the one below
        assert forall|l: int| 1 <= l < K_MAX_HEIGHT implies sub_chain_in(
            out[l - 1],
            #[trigger] out[l],
        ) by {
            assert(sub_chain_in(pre.links@[l - 1], pre.links@[l]));
            let up = out[l];
            let low = out[l - 1];
            assert forall|j: int| 0 <= j < up.len() implies low.contains(#[trigger] up[j]) by {
                let e = up[j];
                if l < height {
                    assert(up.contains(e));
                    if e == idx {
                        assert(low.contains(idx));
                    } else {
                        assert(pre.links_at(l).contains(e));
                        assert(pre.links_at(l - 1).contains(e));
                        assert(low.contains(e));
                    }
                } else {
                    assert(pre.links_at(l).contains(e)) by {
                        assert(pre.links_at(l)[j] == e);
                    }
                    assert(pre.links_at(l - 1).contains(e));
                    if l - 1 < height {
                        assert(low.contains(e));
                    }
                }
            }
        }

        // chains at and above the recorded maximum stay empty
        assert forall|l: int| mh <= l < K_MAX_HEIGHT implies (#[trigger] out[l]).len() == 0 by {
            assert((pre.links@[l]).len() == 0);
        }

        // at level 0 the new key stands at its ordered position
        assert(level_ok(pre.cmp, pre.nodes@, pre.links@[0], 0));
        lemma_splice_pos_is_first_geq(cmp, base, pre.links_at(0), 0, prev[0], key);
        pre.links_at(0).insert_ensures(splice_pos(pre.links_at(0), prev[0]), idx);
        assert(keys_of(base, pre.links_at(0)) == pre@);

        out
    }


    /// Draw a tower height: start at 1 and climb with probability 1/4
    /// per level, capped at the structural ceiling. Only the random
    /// source's state changes.
    fn random_height(&mut self) -> (h: usize)
        ensures
            1 <= h <= K_MAX_HEIGHT,
            final(self).nodes == old(self).nodes,
            final(self).max_height == old(self).max_height,
            final(self).len == old(self).len,
            final(self).cmp == old(self).cmp,
            final(self).links == old(self).links,
    {
        let mut height: usize = 1;
        loop
            invariant
                1 <= height <= K_MAX_HEIGHT,
                self.nodes == old(self).nodes,
                self.max_height == old(self).max_height,
                self.len == old(self).len,
                self.cmp == old(self).cmp,
                self.links == old(self).links,
            ensures
                1 <= height <= K_MAX_HEIGHT,
                self.nodes == old(self).nodes,
                self.max_height == old(self).max_height,
                self.len == old(self).len,
                self.cmp == old(self).cmp,
                self.links == old(self).links,
            decreases K_MAX_HEIGHT - height,
        {
            if height >= K_MAX_HEIGHT {
                break ;
            }
            let r = self.rnd.next();
            if r % 4 != 0 {
                break ;
            }
            height = height + 1;
        }
        height
    }

    /// Point node `node`'s link at `level` at `target`; nothing else
    /// changes.
    fn set_fwd(&mut self, node: usize, level: usize, target: usize)
        requires
            node < old(self).nodes@.len(),
            level < old(self).nodes@[node as int].forward@.len(),
        ensures
            final(self).nodes@.len() == old(self).nodes@.len(),
            final(self).nodes@[node as int].data == old(self).nodes@[node as int].data,
            final(self).nodes@[node as int].forward@ == old(self).nodes@[node as int]
                .forward@.update(level as int, target),
            forall|i: int|
                0 <= i < old(self).nodes@.len() && i != node ==> final(self).nodes@[i] == old(
                    self,
                ).nodes@[i],
            final(self).max_height == old(self).max_height,
            final(self).len == old(self).len,
            final(self).cmp == old(self).cmp,
            final(self).rnd == old(self).rnd,
            final(self).links == old(self).links,
    {
        let n = vstd::std_specs::vec::vec_index_mut(&mut self.nodes, node);
        n.set_next(level, target);
    }

    /// Insert `key` into the index. Insertion always succeeds; a key equal
    /// to one already held is kept as a separate entry, placed before the
    /// equal ones. The recorded maximum height never shrinks.
    #[verifier::rlimit(100)]
    pub fn insert(&mut self, key: Vec<u8>)
        requires
            old(self).wf(),
        ensures
            final(self).wf(),
            final(self)@ == old(self)@.insert(old(self).first_geq(key@), key@),
            final(self)@.len() == old(self)@.len() + 1,
            final(self).comparator() == old(self).comparator(),
            old(self).max_height_spec() <= final(self).max_height_spec() <= K_MAX_HEIGHT as int,
    {
        // collect the splice point at every level
        let mut prev: Vec<usize> = Vec::new();
        let mut i: usize = 0;
        while i < K_MAX_HEIGHT
            invariant
                i <= K_MAX_HEIGHT,
                prev@.len() == i,
                forall|j: int| 0 <= j < i ==> prev@[j] == 0usize,
            decreases K_MAX_HEIGHT - i,
        {
            prev.push(0);
            i = i + 1;
        }
        let _ = self.find(key.as_slice(), &mut prev);

        // draw a tower height, raising the recorded maximum if needed;
        // at the fresh levels the head itself is the splice point, which
        // is what `prev` already holds there
        let height = self.random_height();
        proof {
            assert forall|l: int| 0 <= l < old(self).max_height_spec() implies self.splice_ok(
                l,
                #[trigger] prev@[l],
                key@,
            ) by {
                assert(old(self).splice_ok(l, prev@[l], key@));
            }
        }
        if height > self.get_max_height() {
            proof {
                assert forall|l: int|
                    self.max_height_spec() <= l < height implies self.splice_ok(
                    l,
                    #[trigger] prev@[l],
                    key@,
                ) by {
                    assert((self.links@[l]).len() == 0);
                    assert(level_ok(self.cmp, self.nodes@, self.links@[l], l));
                    assert(prev@[l] == 0usize);
                }
            }
            self.max_height = height;
        }
        let ghost pre = *self;
        proof {
            assert(pre.wf());
            assert(pre@ == old(self)@);
            assert forall|l: int| 0 <= l < height implies pre.splice_ok(
                l,
                #[trigger] prev@[l],
                key@,
            ) by {}
            assert forall|l: int| 0 <= l < height implies prev@[l]
                < pre.nodes_seq().len() by {
                pre.lemma_splice_node_bounds(l, prev@[l], key@);
            }
        }

        // build the new node's tower first: each level starts out pointing
        // at the splice point's current successor, so the tower is fully
        // formed before the node is published anywhere
        let idx = self.nodes.len();
        let mut tower: Vec<usize> = Vec::new();
        let mut l: usize = 0;
        while l < height
            invariant
                *self == pre,
                pre.wf(),
                l <= height <= K_MAX_HEIGHT,
                prev@.len() == K_MAX_HEIGHT,
                forall|l2: int| 0 <= l2 < height ==> pre.splice_ok(l2, #[trigger] prev@[l2], key@),
                tower@.len() == l,
                forall|j: int|
                    0 <= j < l ==> #[trigger] tower@[j] == fwd_of(pre.nodes_seq(), prev@[j], j),
            decreases height - l,
        {
            let pr = prev[l];
            proof {
                pre.lemma_splice_node_bounds(l as int, pr, key@);
            }
            let t = self.nodes[pr].get_next(l);
            tower.push(t);
            l = l + 1;
        }
        let node = Node { data: bytes_from_vec(key), forward: tower };
        self.nodes.push(node);

        // publish: hook every splice point's link to the new node, level
        // by level
        let mut l: usize = 0;
        while l < height
            invariant
                pre.wf(),
                l <= height,
                1 <= height <= pre.max_height_spec(),
                idx == pre.nodes_seq().len(),
                prev@.len() == K_MAX_HEIGHT,
                forall|l2: int| 0 <= l2 < height ==> pre.splice_ok(l2, #[trigger] prev@[l2], key@),
                forall|l2: int| 0 <= l2 < height ==> #[trigger] prev@[l2] < idx,
                self.max_height == pre.max_height,
                self.len == pre.len,
                self.cmp == pre.cmp,
                self.links == pre.links,
                self.nodes@.len() == idx + 1,
                forall|i2: int|
                    0 <= i2 < idx ==> (#[trigger] self.nodes@[i2]).data == pre.nodes_seq()[i2].data
                        && self.nodes@[i2].forward@.len() == pre.nodes_seq()[i2].forward@.len(),
                self.nodes@[idx as int].key() == key@,
                self.nodes@[idx as int].height() == height,
                forall|lv: int|
                    0 <= lv < height ==> #[trigger] fwd_of(self.nodes@, idx, lv) == fwd_of(
                        pre.nodes_seq(),
                        prev@[lv],
                        lv,
                    ),
                forall|j: int| 0 <= j < l ==> #[trigger] fwd_of(self.nodes@, prev@[j], j) == idx,
                forall|i2: usize, lv: int|
                    i2 < idx && 0 <= lv < self.nodes@[i2 as int].forward@.len() && (lv >= l as int
                        || prev@[lv] != i2) ==> #[trigger] fwd_of(self.nodes@, i2, lv) == fwd_of(
                        pre.nodes_seq(),
                        i2,
                        lv,
                    ),
            decreases height - l,
        {
            let pr = prev[l];
            let ghost snap = *self;
            proof {
                pre.lemma_splice_node_bounds(l as int, pr, key@);
                assert(self.nodes@[pr as int].forward@.len() == pre.nodes_seq()[pr as int].forward@.len());
            }
            self.set_fwd(pr, l, idx);
            proof {
                assert(idx != pr);
                assert(self.nodes@[pr as int].forward@ == snap.nodes@[pr as int].forward@.update(
                    l as int,
                    idx,
                ));
                assert forall|lv: int| 0 <= lv < height implies #[trigger] fwd_of(
                    self.nodes@,
                    idx,
                    lv,
                ) == fwd_of(pre.nodes_seq(), prev@[lv], lv) by {
                    assert(fwd_of(snap.nodes@, idx, lv) == fwd_of(pre.nodes_seq(), prev@[lv], lv));
                    assert(self.nodes@[idx as int] == snap.nodes@[idx as int]);
                }
                assert forall|j: int| 0 <= j <= l implies #[trigger] fwd_of(
                    self.nodes@,
                    prev@[j],
                    j,
                ) == idx by {
                    let p2 = prev@[j];
                    if j != l as int {
                        assert(fwd_of(snap.nodes@, p2, j) == idx);
                        if p2 == pr {
                            assert(self.nodes@[pr as int].forward@[j]
                                == snap.nodes@[pr as int].forward@[j]);
                        } else {
                            assert(self.nodes@[p2 as int] == snap.nodes@[p2 as int]);
                        }
                    }
                }
                assert forall|i2: usize, lv: int|
                    i2 < idx && 0 <= lv < self.nodes@[i2 as int].forward@.len() && (lv > l as int
                        || prev@[lv] != i2) implies #[trigger] fwd_of(self.nodes@, i2, lv)
                    == fwd_of(pre.nodes_seq(), i2, lv) by {
                    if i2 == pr {
                        assert(lv != l as int);
                        assert(self.nodes@[pr as int].forward@[lv]
                            == snap.nodes@[pr as int].forward@[lv]);
                    } else {
                        assert(self.nodes@[i2 as int] == snap.nodes@[i2 as int]);
                    }
                    assert(fwd_of(snap.nodes@, i2, lv) == fwd_of(pre.nodes_seq(), i2, lv));
                }
            }
            l = l + 1;
        }

        // commit: record the new chains and count the entry
        proof {
            let nlinks = Self::lemma_insert_commit(
                pre,
                self.nodes@,
                prev@,
                idx,
                key@,
                height as int,
            );
            self.links@ = nlinks;
        }
        proof {
            assert(self.len < usize::MAX) by {
                assert(pre.len == pre.links_at(0).len());
            }
        }
        self.len = self.len + 1;
        proof {
            assert(self.wf()) by {
                assert(self.nodes@[0].data == pre.nodes_seq()[0].data);
                assert forall|l2: int| 0 <= l2 < K_MAX_HEIGHT implies level_ok(
                    self.cmp,
                    self.nodes@,
                    #[trigger] self.links@[l2],
                    l2,
                ) by {
                    assert(level_ok(pre.comparator(), self.nodes@, self.links@[l2], l2));
                }
            }
            assert(self@ == pre@.insert(pre.first_geq(key@), key@));
            assert(pre.first_geq(key@) == old(self).first_geq(key@));
        }
    }

    /// Whether the search key lies strictly after the given node, i.e. the
    /// descent must keep walking forward. Node 0 stands for "no successor".
    fn key_is_after_node(&self, key: &[u8], node: usize) -> (r: bool)
        requires
            self.wf(),
            node < self.nodes_seq().len(),
        ensures
            r == (node != 0 && self.comparator().cmp_spec(self.node_key(node), key@)
                == Ordering::Less),
    {
        if node == 0 {
            false
        } else {
            self.cmp.lt(bytes_as_slice(&self.nodes[node].data), key)
        }
    }

    /// True exactly when some held key compares `Equal` to `key`: a key
    /// is found if and only if it was inserted at least once (up to the
    /// comparator's notion of equality).
    #[verifier::rlimit(100)]
    pub fn contains(&self, key: &[u8]) -> (r: bool)
        requires
            self.wf(),
        ensures
            r == self.has_key_equal(key@),
    {
        let mut prev: Vec<usize> = Vec::new();
        let x = self.find(key, &mut prev);
        let ghost p = self.first_geq(key@);
        proof {
            assert(level_ok(self.cmp, self.nodes@, self.links@[0], 0));
            lemma_first_geq_classify(&self.cmp, self@, key@);
        }
        if x == 0 {
            proof {
                assert(p == self@.len());
                assert forall|i: int|
                    0 <= i < self@.len() implies self.comparator().cmp_spec(self@[i], key@)
                    != Ordering::Equal by {
                    assert(self.comparator().cmp_spec(self@[i], key@) == Ordering::Less);
                }
                assert(!self.has_key_equal(key@));
            }
            false
        } else {
            let r = self.cmp.eq(key, bytes_as_slice(&self.nodes[x].data));
            proof {
                assert(x == self.node_of(p) && p < self@.len());
                assert(self.node_key(x) == self@[p]);
                lemma_eq_sym(&self.cmp, key@, self@[p]);
                if r {
                    assert(self.cmp.cmp_spec(self@[p], key@) == Ordering::Equal);
                } else {
                    assert(self.cmp.cmp_spec(self@[p], key@) != Ordering::Equal);
                    assert(self.cmp.cmp_spec(self@[p], key@) != Ordering::Less);
                    assert forall|i: int|
                        0 <= i < self@.len() implies self.comparator().cmp_spec(self@[i], key@)
                        != Ordering::Equal by {
                        if i < p {
                            assert(self.cmp.cmp_spec(self@[i], key@) == Ordering::Less);
                        } else if i > p {
                            lemma_sorted_le_pair(&self.cmp, self@, p, i);
                            self.cmp.law_flip(key@, self@[p]);
                            lemma_lt_le_lt(&self.cmp, key@, self@[p], self@[i]);
                            self.cmp.law_flip(key@, self@[i]);
                        }
                    }
                }
            }
            r
        }
    }

    /// The node record standing at index `i`.
    pub(crate) fn node(&self, i: usize) -> (r: &Node)
        requires
            self.wf(),
            i < self.nodes_seq().len(),
        ensures
            r == self.nodes_seq()[i as int],
    {
        &self.nodes[i]
    }

    /// The node at position `p` of the level-0 chain is a real node; its
    /// chain position is recoverable, and its key is the view's.
    pub(crate) proof fn lemma_pos_of_node(self, p: int)
        requires
            self.wf(),
            0 <= p < self@.len(),
        ensures
            self.links_at(0).len() == self@.len(),
            self.node_of(p) != 0,
            self.node_of(p) < self.nodes_seq().len(),
            self.links_at(0).contains(self.node_of(p)),
            self.links_at(0).index_of(self.node_of(p)) == p,
            self.node_key(self.node_of(p)) == self@[p],
            self.nodes_seq()[self.node_of(p) as int].height() > 0,
    {
        assert(level_ok(self.cmp, self.nodes@, self.links@[0], 0));
        let ch = self.links_at(0);
        let x = self.node_of(p);
        assert(1 <= ch[p] < self.nodes@.len() && self.nodes@[ch[p] as int].height() > 0);
        assert(ch.contains(x)) by {
            assert(ch[p] == x);
        }
        let ix = ch.index_of(x);
        assert(0 <= ix < ch.len() && ch[ix] == x);
        assert(ix == p);
    }

    /// The head's level-0 link leads to the first node, if any.
    pub(crate) proof fn lemma_head_next(self)
        requires
            self.wf(),
        ensures
            self.links_at(0).len() == self@.len(),
            fwd_of(self.nodes_seq(), 0, 0) == (if self@.len() == 0 {
                0usize
            } else {
                self.node_of(0)
            }),
            self.nodes_seq()[0].height() == K_MAX_HEIGHT,
            self.nodes_seq().len() >= 1,
    {
        assert(level_ok(self.cmp, self.nodes@, self.links@[0], 0));
    }

    /// The level-0 link of the node at position `p` leads to position
    /// `p + 1`, or to 0 at the end.
    pub(crate) proof fn lemma_chain_next(self, p: int)
        requires
            self.wf(),
            0 <= p < self@.len(),
        ensures
            fwd_of(self.nodes_seq(), self.node_of(p), 0) == (if p + 1 < self@.len() {
                self.node_of(p + 1)
            } else {
                0usize
            }),
    {
        assert(level_ok(self.cmp, self.nodes@, self.links@[0], 0));
        let ch = self.links_at(0);
        assert(fwd_of(self.nodes@, ch[p], 0) == (if p + 1 < ch.len() {
            ch[p + 1]
        } else {
            0usize
        }));
    }

    /// Order invariant: the keys held, read in level-0 order, are always
    /// non-decreasing under the list's comparator.
    pub proof fn lemma_order_invariant(self)
        requires
            self.wf(),
        ensures
            sorted_le(self.comparator(), self@),
    {
        assert(level_ok(self.cmp, self.nodes@, self.links@[0], 0));
    }

    /// Membership, one direction: any key the view holds is found again,
    /// under every lawful comparator.
    pub proof fn lemma_inserted_is_found(self, k: Seq<u8>)
        requires
            self.wf(),
            self@.contains(k),
        ensures
            self.has_key_equal(k),
    {
        let i = choose|i: int| 0 <= i < self@.len() && self@[i] == k;
        lemma_cmp_refl(&self.comparator(), k);
        assert(self.comparator().cmp_spec(self@[i], k) == Ordering::Equal);
    }

    /// A member of the level-0 chain stands at a recoverable position,
    /// carrying the view's key there.
    pub(crate) proof fn lemma_chain_member(self, x: usize)
        requires
            self.wf(),
            self.links_at(0).contains(x),
        ensures
            0 <= self.links_at(0).index_of(x) < self@.len(),
            self.node_of(self.links_at(0).index_of(x)) == x,
            self.node_key(x) == self@[self.links_at(0).index_of(x)],
            x != 0,
            x < self.nodes_seq().len(),
            self.nodes_seq()[x as int].height() > 0,
    {
        assert(level_ok(self.cmp, self.nodes@, self.links@[0], 0));
        let ch = self.links_at(0);
        let p = ch.index_of(x);
        assert(0 <= p < ch.len() && ch[p] == x);
        assert(1 <= ch[p] < self.nodes@.len() && self.nodes@[ch[p] as int].height() > 0);
    }

    /// The index of the head sentinel's node record.
    pub fn get_head(&self) -> (r: &Node)
        requires
            self.wf(),
        ensures
            r == self.nodes_seq()[0],
            r.height() == K_MAX_HEIGHT,
    {
        &self.nodes[0]
    }

    /// The last node whose key is strictly below `key`: 0 (the head) if
    /// there is none, else the node just before where `key` would stand.
    #[verifier::rlimit(100)]
    pub fn find_less_than(&self, key: &[u8]) -> (r: usize)
        requires
            self.wf(),
        ensures
            self.first_geq(key@) == 0 ==> r == 0,
            self.first_geq(key@) > 0 ==> r == self.node_of(self.first_geq(key@) - 1),
    {
        let mut x: usize = 0;
        let mut level: usize = self.max_height - 1;
        let ghost mut ch: Seq<usize> = self.links@[level as int];
        let ghost mut cpos: int = -1int;
        loop
            invariant
                self.wf(),
                level < self.max_height,
                ch == self.links@[level as int],
                -1 <= cpos < ch.len(),
                cpos == -1 <==> x == 0,
                cpos >= 0 ==> x == ch[cpos],
                x != 0 ==> self.comparator().cmp_spec(self.node_key(x), key@) == Ordering::Less,
            decreases level, ch.len() - cpos,
        {
            proof {
                assert(level_ok(self.cmp, self.nodes@, self.links@[level as int], level as int));
                if x != 0 {
                    assert(1 <= x < self.nodes@.len() && self.nodes@[x as int].height()
                        > level as int);
                }
            }
            let next = self.nodes[x].get_next(level);
            proof {
                if cpos >= 0 {
                    assert(fwd_of(self.nodes@, ch[cpos], level as int) == (if cpos + 1 < ch.len() {
                        ch[cpos + 1]
                    } else {
                        0usize
                    }));
                }
                assert(next == (if cpos + 1 < ch.len() {
                    ch[cpos + 1]
                } else {
                    0usize
                }));
                if next != 0 {
                    assert(1 <= next < self.nodes@.len());
                }
            }
            let stop = if next == 0 {
                true
            } else {
                self.cmp.ge(bytes_as_slice(&self.nodes[next].data), key)
            };
            if stop {
                if level == 0 {
                    proof {
                        self.lemma_find_result(key@, cpos, next);
                    }
                    return x;
                }
                proof {
                    let lower = self.links@[level as int - 1];
                    assert(sub_chain_in(lower, ch));
                    if x != 0 {
                        assert(lower.contains(ch[cpos]));
                        cpos = lower.index_of(x);
                        assert(0 <= cpos < lower.len() && lower[cpos] == x);
                    } else {
                        cpos = -1int;
                    }
                    ch = lower;
                }
                level = level - 1;
            } else {
                x = next;
                proof {
                    cpos = cpos + 1;
                }
            }
        }
    }

    /// The last node of the list, or 0 (the head) if the list is empty.
    #[verifier::rlimit(100)]
    pub fn find_last(&self) -> (r: usize)
        requires
            self.wf(),
        ensures
            self@.len() == 0 ==> r == 0,
            self@.len() > 0 ==> r == self.node_of(self@.len() - 1),
    {
        let mut x: usize = 0;
        let mut level: usize = self.max_height - 1;
        let ghost mut ch: Seq<usize> = self.links@[level as int];
        let ghost mut cpos: int = -1int;
        loop
            invariant
                self.wf(),
                level < self.max_height,
                ch == self.links@[level as int],
                -1 <= cpos < ch.len(),
                cpos == -1 <==> x == 0,
                cpos >= 0 ==> x == ch[cpos],
            decreases level, ch.len() - cpos,
        {
            proof {
                assert(level_ok(self.cmp, self.nodes@, self.links@[level as int], level as int));
                if x != 0 {
                    assert(1 <= x < self.nodes@.len() && self.nodes@[x as int].height()
                        > level as int);
                }
            }
            let next = self.nodes[x].get_next(level);
            proof {
                if cpos >= 0 {
                    assert(fwd_of(self.nodes@, ch[cpos], level as int) == (if cpos + 1 < ch.len() {
                        ch[cpos + 1]
                    } else {
                        0usize
                    }));
                }
                assert(next == (if cpos + 1 < ch.len() {
                    ch[cpos + 1]
                } else {
                    0usize
                }));
            }
            if next != 0 {
                x = next;
                proof {
                    cpos = cpos + 1;
                }
            } else if level == 0 {
                proof {
                    assert(cpos + 1 == ch.len());
                    assert(self@.len() == ch.len());
                }
                return x;
            } else {
                proof {
                    let lower = self.links@[level as int - 1];
                    assert(sub_chain_in(lower, ch));
                    if x != 0 {
                        assert(lower.contains(ch[cpos]));
                        cpos = lower.index_of(x);
                        assert(0 <= cpos < lower.len() && lower[cpos] == x);
                    } else {
                        cpos = -1int;
                    }
                    ch = lower;
                }
                level = level - 1;
            }
        }
    }

    /// A walk that stopped at level 0 pins down `first_geq`: the stop
    /// position `cpos` is strictly below `key`, everything before it is
    /// too (by sortedness), and its successor `next` is not.
    proof fn lemma_find_result(self, key: Seq<u8>, cpos: int, next: usize)
        requires
            self.wf(),
            -1 <= cpos < self.links_at(0).len(),
            cpos >= 0 ==> self.comparator().cmp_spec(self.node_key(self.links_at(0)[cpos]), key)
                == Ordering::Less,
            next == (if cpos + 1 < self.links_at(0).len() {
                self.links_at(0)[cpos + 1]
            } else {
                0usize
            }),
            next != 0 ==> self.comparator().cmp_spec(self.node_key(next), key) != Ordering::Less,
        ensures
            self.first_geq(key) == cpos + 1,
    {
        let ch = self.links_at(0);
        let x: usize = if cpos >= 0 {
            ch[cpos]
        } else {
            0
        };
        assert(level_ok(self.cmp, self.nodes@, self.links@[0], 0));
        if cpos >= 0 {
            assert(ch.contains(x)) by {
                assert(ch[cpos] == x);
            }
            assert(1 <= x);
            assert(fwd_of(self.nodes@, ch[cpos], 0) == (if cpos + 1 < ch.len() {
                ch[cpos + 1]
            } else {
                0usize
            }));
        }
        lemma_splice_pos_is_first_geq(self.cmp, self.nodes@, ch, 0, x, key);
        if cpos >= 0 {
            let ix = ch.index_of(x);
            assert(0 <= ix < ch.len() && ch[ix] == x);
            assert(ix == cpos);
        }
    }

    /// The level-by-level descent: returns the first node whose key is not
    /// strictly below `key` (0 if every key is below it), and, when `prev`
    /// has the full height, records in `prev[l]` the splice point at every
    /// active level; entries at inactive levels are left as handed in.
    #[verifier::rlimit(100)]
    pub fn find(&self, key: &[u8], prev: &mut Vec<usize>) -> (r: usize)
        requires
            self.wf(),
            old(prev).len() == 0 || old(prev).len() == K_MAX_HEIGHT,
        ensures
            final(prev).len() == old(prev).len(),
            r == 0 <==> self.first_geq(key@) == self@.len(),
            self.first_geq(key@) < self@.len() ==> r == self.node_of(self.first_geq(key@)),
            old(prev).len() == 0 ==> final(prev)@ == old(prev)@,
            old(prev).len() == K_MAX_HEIGHT ==> forall|l: int|
                0 <= l < self.max_height_spec() ==> self.splice_ok(
                    l,
                    #[trigger] final(prev)@[l],
                    key@,
                ),
            old(prev).len() == K_MAX_HEIGHT ==> forall|l: int|
                self.max_height_spec() <= l < K_MAX_HEIGHT ==> final(prev)@[l] == old(prev)@[l],
    {
        let mut x: usize = 0;
        let mut level: usize = self.max_height - 1;
        let ghost mut ch: Seq<usize> = self.links@[level as int];
        let ghost mut cpos: int = -1int;
        loop
            invariant
                self.wf(),
                level < self.max_height,
                ch == self.links@[level as int],
                -1 <= cpos < ch.len(),
                cpos == -1 <==> x == 0,
                cpos >= 0 ==> x == ch[cpos],
                x != 0 ==> self.comparator().cmp_spec(self.node_key(x), key@) == Ordering::Less,
                prev@.len() == old(prev)@.len(),
                old(prev).len() == 0 || old(prev).len() == K_MAX_HEIGHT,
                old(prev).len() == 0 ==> prev@ == old(prev)@,
                old(prev).len() == K_MAX_HEIGHT ==> forall|l: int|
                    level < l < self.max_height_spec() ==> self.splice_ok(
                        l,
                        #[trigger] prev@[l],
                        key@,
                    ),
                old(prev).len() == K_MAX_HEIGHT ==> forall|l: int|
                    self.max_height_spec() <= l < K_MAX_HEIGHT ==> prev@[l] == old(prev)@[l],
            decreases level, ch.len() - cpos,
        {
            proof {
                assert(level_ok(self.cmp, self.nodes@, self.links@[level as int], level as int));
                if x != 0 {
                    assert(1 <= x < self.nodes@.len() && self.nodes@[x as int].height()
                        > level as int);
                }
            }
            let next = self.nodes[x].get_next(level);
            proof {
                if cpos >= 0 {
                    assert(fwd_of(self.nodes@, ch[cpos], level as int) == (if cpos + 1 < ch.len() {
                        ch[cpos + 1]
                    } else {
                        0usize
                    }));
                }
                assert(next == (if cpos + 1 < ch.len() {
                    ch[cpos + 1]
                } else {
                    0usize
                }));
                if next != 0 {
                    assert(1 <= next < self.nodes@.len());
                }
            }
            if self.key_is_after_node(key, next) {
                x = next;
                proof {
                    cpos = cpos + 1;
                }
            } else {
                if prev.len() != 0 {
                    prev.set(level, x);
                    proof {
                        assert(self.splice_ok(level as int, x, key@)) by {
                            if x != 0 {
                                assert(ch.contains(x)) by {
                                    assert(ch[cpos] == x);
                                }
                            }
                        }
                    }
                }
                if level == 0 {
                    proof {
                        self.lemma_find_result(key@, cpos, next);
                    }
                    return next;
                }
                proof {
                    let lower = self.links@[level as int - 1];
                    assert(sub_chain_in(lower, ch));
                    if x != 0 {
                        assert(lower.contains(ch[cpos]));
                        cpos = lower.index_of(x);
                        assert(0 <= cpos < lower.len() && lower[cpos] == x);
                    } else {
                        cpos = -1int;
                    }
                    ch = lower;
                }
                level = level - 1;
            }
        }
    }
}

} // verus!
