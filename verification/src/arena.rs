//! The region-based bump allocator: hands out byte regions from
//! fixed-size blocks, recycling nothing. A request that fits in the
//! current block advances a bump pointer; one that does not either gets a
//! dedicated block (large requests) or a fresh standard block, wasting
//! whatever was left. Blocks are only ever freed together, with the
//! arena.
//!
//! A region is addressed as (block, offset, length); once handed out it
//! is never moved or handed out again, which the arena's invariant and
//! the `allocate` contracts state over the list of regions issued so far.

use vstd::prelude::*;

verus! {

/// Size of a standard block.
pub const K_BLOCK_SIZE: usize = 4096;

/// The alignment `allocate_aligned` guarantees: the platform's natural
/// pointer alignment, taken as at least 8 bytes. Block bases are modeled
/// as aligned, so a region is aligned exactly when its offset is.
pub const K_ALIGN: usize = 8;

/// Bookkeeping bytes charged to the usage counter per block, standing for
/// one pointer of block-list overhead.
pub const K_BLOCK_OVERHEAD: usize = 8;

/// A byte region handed out by the arena: `len` bytes starting at
/// `offset` inside block `block`.
#[derive(Clone, Copy, PartialEq, Eq, Structural)]
pub struct Region {
    pub block: usize,
    pub offset: usize,
    pub len: usize,
}

/// Two regions share no byte.
pub open spec fn regions_disjoint(a: Region, b: Region) -> bool {
    a.block != b.block || a.offset + a.len <= b.offset || b.offset + b.len <= a.offset
}

/// The arena's working state: the blocks, the bump position, and the
/// counters.
pub struct ArenaInner {
    blocks: Vec<Vec<u8>>,
    current: usize,
    offset: usize,
    remaining: usize,
    usage: usize,
    issued: Ghost<nat>,
    regions: Ghost<Seq<Region>>,
}

impl ArenaInner {
    /// A region lies entirely within one existing block.
    pub open spec fn region_ok(self, r: Region) -> bool {
        &&& r.block < self.blocks_spec().len()
        &&& r.offset + r.len <= self.blocks_spec()[r.block as int].len()
    }

    pub closed spec fn blocks_spec(self) -> Seq<Seq<u8>> {
        self.blocks@.map_values(|b: Vec<u8>| b@)
    }

    pub closed spec fn usage_spec(self) -> nat {
        self.usage as nat
    }

    pub closed spec fn issued_spec(self) -> nat {
        self.issued@
    }

    pub closed spec fn remaining_spec(self) -> nat {
        self.remaining as nat
    }

    pub closed spec fn regions_spec(self) -> Seq<Region> {
        self.regions@
    }

    /// The padding that rounds the bump position up to the alignment
    /// boundary.
    pub closed spec fn align_slop(self) -> nat {
        if self.offset % K_ALIGN == 0 {
            0nat
        } else {
            (K_ALIGN - self.offset % K_ALIGN) as nat
        }
    }

    /// The arena invariant: the bump pointer sits at the end of what the
    /// current block has given out; the usage counter covers every byte
    /// issued and every byte still free in the current block; and the
    /// regions issued so far lie in blocks, pairwise disjoint, those of
    /// the current block all below the bump position.
    pub closed spec fn wf(self) -> bool {
        &&& (self.remaining > 0 ==> self.current < self.blocks@.len() && self.offset
            + self.remaining == self.blocks@[self.current as int]@.len())
        &&& self.offset + self.remaining <= usize::MAX
        &&& self.usage >= self.issued@ + self.remaining
        &&& (forall|i: int| 0 <= i < self.regions@.len() ==> self.region_ok(#[trigger] self.regions@[i]))
        &&& (forall|i: int, j: int|
            0 <= i < j < self.regions@.len() ==> regions_disjoint(
                #[trigger] self.regions@[i],
                #[trigger] self.regions@[j],
            ))
        &&& (self.remaining > 0 ==> forall|i: int|
            0 <= i < self.regions@.len() && (#[trigger] self.regions@[i]).block == self.current
                ==> self.regions@[i].offset + self.regions@[i].len <= self.offset)
    }

    fn new() -> (r: Self)
        ensures
            r.wf(),
            r.usage_spec() == 0,
            r.issued_spec() == 0,
            r.remaining_spec() == 0,
            r.regions_spec() == Seq::<Region>::empty(),
            r.blocks_spec().len() == 0,
    {
        let r = ArenaInner {
            blocks: Vec::new(),
            current: 0,
            offset: 0,
            remaining: 0,
            usage: 0,
            issued: Ghost(0),
            regions: Ghost(Seq::empty()),
        };
        proof {
            assert(r.blocks_spec() =~= Seq::<Seq<u8>>::empty());
        }
        r
    }

    fn remaining_bytes(&self) -> (n: usize)
        ensures
            n == self.remaining,
    {
        self.remaining
    }

    fn sub_remaining_bytes(&mut self, bytes: usize)
        requires
            bytes <= old(self).remaining,
        ensures
            *final(self) == (ArenaInner { remaining: (old(self).remaining - bytes) as usize, ..*old(self) }),
    {
        self.remaining = self.remaining - bytes;
    }

    /// The bump position: the next free byte of the current block.
    fn alloc_ptr(&self) -> (n: usize)
        ensures
            n == self.offset,
    {
        self.offset
    }

    fn add_alloc_ptr(&mut self, bytes: usize)
        requires
            old(self).offset + bytes <= usize::MAX,
        ensures
            *final(self) == (ArenaInner { offset: (old(self).offset + bytes) as usize, ..*old(self) }),
    {
        let p = self.alloc_ptr();
        self.offset = p + bytes;
    }

    fn memory_usage(&self) -> (n: usize)
        ensures
            n == self.usage,
    {
        self.usage
    }

    /// Append one zero-initialized block of exactly `bytes` bytes and
    /// charge it, plus overhead, to the usage counter. Returns the new
    /// block's index. Leaves the bump pointer alone.
    fn allocate_new_block(&mut self, bytes: usize) -> (b: usize)
        requires
            old(self).usage + bytes + K_BLOCK_OVERHEAD <= usize::MAX,
        ensures
            b == old(self).blocks_spec().len(),
            final(self).blocks_spec().len() == b + 1,
            final(self).blocks_spec()[b as int].len() == bytes,
            forall|i: int|
                0 <= i < b ==> final(self).blocks_spec()[i] == old(self).blocks_spec()[i],
            final(self).usage == old(self).usage + bytes + K_BLOCK_OVERHEAD,
            final(self).current == old(self).current,
            final(self).offset == old(self).offset,
            final(self).remaining == old(self).remaining,
            final(self).issued == old(self).issued,
            final(self).regions == old(self).regions,
    {
        let v: Vec<u8> = vec![0u8; bytes];
        let b = self.blocks.len();
        self.blocks.push(v);
        self.usage = self.memory_usage() + bytes + K_BLOCK_OVERHEAD;
        proof {
            assert(self.blocks_spec() =~= old(self).blocks_spec().push(
                self.blocks@[b as int]@,
            ));
        }
        b
    }

    /// The slow path: a large request gets a dedicated block sized to it;
    /// a small one gets a fresh standard block, abandoning whatever was
    /// left in the old one, and is served from its front.
    fn alloc_fallback(&mut self, bytes: usize) -> (r: Region)
        requires
            old(self).wf(),
            1 <= bytes,
            old(self).usage + bytes + K_BLOCK_SIZE + K_BLOCK_OVERHEAD <= usize::MAX,
        ensures
            final(self).wf(),
            r.len == bytes,
            r.offset == 0,
            final(self).region_ok(r),
            final(self).regions@ == old(self).regions@.push(r),
            old(self).blocks_spec().len() <= final(self).blocks_spec().len(),
            forall|i: int|
                0 <= i < old(self).blocks_spec().len() ==> final(self).blocks_spec()[i] == old(
                    self,
                ).blocks_spec()[i],
            old(self).usage <= final(self).usage,
            final(self).issued@ == old(self).issued@ + bytes,
            final(self).blocks_spec().len() == old(self).blocks_spec().len() + 1,
            r.block == old(self).blocks_spec().len(),
            // oversized: one dedicated block sized exactly to the request,
            // everything about the current block untouched
            bytes > K_BLOCK_SIZE / 4 ==> {
                &&& final(self).usage == old(self).usage + bytes + K_BLOCK_OVERHEAD
                &&& final(self).remaining == old(self).remaining
                &&& final(self).current == old(self).current
                &&& final(self).offset == old(self).offset
                &&& final(self).blocks_spec()[r.block as int].len() == bytes
            },
            // small: a fresh standard block becomes current and serves the
            // request from its front; the old block's leftovers are lost
            bytes <= K_BLOCK_SIZE / 4 ==> {
                &&& final(self).usage == old(self).usage + K_BLOCK_SIZE + K_BLOCK_OVERHEAD
                &&& final(self).remaining + bytes == K_BLOCK_SIZE
                &&& final(self).blocks_spec()[r.block as int].len() == K_BLOCK_SIZE
            },
    {
        let ghost pre = *self;
        if bytes > K_BLOCK_SIZE / 4 {
            // Oversized: a dedicated block, so the current block's free
            // space is not wasted on it.
            let b = self.allocate_new_block(bytes);
            let r = Region { block: b, offset: 0, len: bytes };
            proof {
                self.issued@ = self.issued@ + bytes as nat;
                self.regions@ = self.regions@.push(r);
                self.lemma_after_issue(pre, r);
                if self.remaining > 0 {
                    assert(pre.blocks_spec()[pre.current as int] == pre.blocks@[pre.current as int]@);
                    assert(self.blocks_spec()[self.current as int]
                        == self.blocks@[self.current as int]@);
                }
            }
            r
        } else {
            // Waste the remaining space in the current block and start a
            // fresh standard one.
            let b = self.allocate_new_block(K_BLOCK_SIZE);
            self.current = b;
            self.offset = 0;
            self.remaining = K_BLOCK_SIZE;
            let r = Region { block: b, offset: 0, len: bytes };
            self.add_alloc_ptr(bytes);
            self.sub_remaining_bytes(bytes);
            proof {
                self.issued@ = self.issued@ + bytes as nat;
                self.regions@ = self.regions@.push(r);
                self.lemma_after_issue(pre, r);
                assert(self.blocks_spec()[self.current as int]
                    == self.blocks@[self.current as int]@);
            }
            r
        }
    }

    /// Re-establishing the invariant after a region was issued: the state
    /// differs from `pre` by at most one appended block, a bump within
    /// the (possibly new) current block, and the one region `r` pushed.
    proof fn lemma_after_issue(self, pre: ArenaInner, r: Region)
        requires
            pre.wf(),
            self.regions@ == pre.regions@.push(r),
            self.region_ok(r),
            pre.blocks_spec().len() <= self.blocks_spec().len(),
            forall|i: int|
                0 <= i < pre.blocks_spec().len() ==> self.blocks_spec()[i]
                    == pre.blocks_spec()[i],
            // where the new region lies: either past every old block, or
            // in the old current block starting at the old bump position
            r.block >= pre.blocks@.len() || (pre.remaining > 0 && r.block == pre.current
                && r.offset >= pre.offset),
            // the current block either is fresh (past the old blocks) or
            // the old one with the bump advanced past the new region
            self.remaining > 0 ==> (self.current >= pre.blocks@.len() || (pre.remaining > 0
                && self.current == pre.current && self.offset >= pre.offset)),
            self.remaining > 0 && r.block == self.current ==> r.offset + r.len <= self.offset,
        ensures
            forall|i: int|
                0 <= i < self.regions@.len() ==> self.region_ok(#[trigger] self.regions@[i]),
            forall|i: int, j: int|
                0 <= i < j < self.regions@.len() ==> regions_disjoint(
                    #[trigger] self.regions@[i],
                    #[trigger] self.regions@[j],
                ),
            self.remaining > 0 ==> forall|i: int|
                0 <= i < self.regions@.len() && (#[trigger] self.regions@[i]).block
                    == self.current ==> self.regions@[i].offset + self.regions@[i].len
                    <= self.offset,
    {
        let n = pre.regions@.len() as int;
        assert forall|i: int| 0 <= i < self.regions@.len() implies self.region_ok(
            #[trigger] self.regions@[i],
        ) by {
            if i < n {
                assert(self.regions@[i] == pre.regions@[i]);
                assert(pre.region_ok(pre.regions@[i]));
            } else {
                assert(self.regions@[i] == r);
            }
        }
        assert forall|i: int, j: int| 0 <= i < j < self.regions@.len() implies regions_disjoint(
            #[trigger] self.regions@[i],
            #[trigger] self.regions@[j],
        ) by {
            if j < n {
                assert(regions_disjoint(pre.regions@[i], pre.regions@[j]));
            } else {
                let a = self.regions@[i];
                assert(a == pre.regions@[i]);
                assert(pre.region_ok(a));
                if a.block == r.block {
                    // then r sits in the old current block, above the old
                    // bump position, while a ends at or below it
                    assert(r.block < pre.blocks@.len());
                    assert(a.offset + a.len <= pre.offset);
                }
            }
        }
        if self.remaining > 0 {
            assert forall|i: int|
                0 <= i < self.regions@.len() && (#[trigger] self.regions@[i]).block
                    == self.current implies self.regions@[i].offset + self.regions@[i].len
                <= self.offset by {
                if i < n {
                    let a = pre.regions@[i];
                    assert(self.regions@[i] == a);
                    assert(pre.region_ok(a));
                    if self.current >= pre.blocks@.len() {
                        assert(a.block < pre.blocks@.len());
                    } else {
                        assert(a.offset + a.len <= pre.offset);
                    }
                }
            }
        }
    }
}

/// The arena interface: regions of exactly the requested size, a
/// monotonically non-decreasing usage estimate that always covers the
/// bytes handed out, and regions that stay valid forever.
pub trait Arena: Sized {
    spec fn wf(&self) -> bool;

    spec fn usage_spec(&self) -> nat;

    spec fn issued_spec(&self) -> nat;

    spec fn remaining_spec(&self) -> nat;

    spec fn region_valid(&self, r: Region) -> bool;

    spec fn regions_spec(&self) -> Seq<Region>;

    /// How many blocks the arena holds.
    spec fn block_count_spec(&self) -> int;

    /// The size of block `b`.
    spec fn block_len_spec(&self, b: int) -> int;

    /// The padding an aligned allocation would need to round the current
    /// bump position up to the alignment boundary.
    spec fn align_slop_spec(&self) -> nat;

    /// Allocate a region of exactly `bytes` bytes, uninitialized, valid
    /// for the arena's lifetime.
    fn allocate(&mut self, bytes: usize) -> (r: Region)
        requires
            old(self).wf(),
            1 <= bytes,
            old(self).usage_spec() + bytes + K_BLOCK_SIZE + K_BLOCK_OVERHEAD <= usize::MAX,
        ensures
            final(self).wf(),
            r.len == bytes,
            final(self).region_valid(r),
            final(self).regions_spec() == old(self).regions_spec().push(r),
            forall|r2: Region| old(self).region_valid(r2) ==> final(self).region_valid(r2),
            old(self).usage_spec() <= final(self).usage_spec(),
            final(self).issued_spec() == old(self).issued_spec() + bytes,
            final(self).issued_spec() <= final(self).usage_spec(),
            // fit path: served from the current block, no new block,
            // usage untouched
            bytes <= old(self).remaining_spec() ==> {
                &&& final(self).usage_spec() == old(self).usage_spec()
                &&& final(self).remaining_spec() + bytes == old(self).remaining_spec()
                &&& final(self).block_count_spec() == old(self).block_count_spec()
            },
            // oversized request: one dedicated block sized exactly to it,
            // the current block untouched
            bytes > old(self).remaining_spec() && bytes > K_BLOCK_SIZE / 4 ==> {
                &&& final(self).usage_spec() == old(self).usage_spec() + bytes + K_BLOCK_OVERHEAD
                &&& final(self).remaining_spec() == old(self).remaining_spec()
                &&& final(self).block_count_spec() == old(self).block_count_spec() + 1
                &&& r.block as int == old(self).block_count_spec()
                &&& final(self).block_len_spec(r.block as int) == bytes
                &&& r.offset == 0
            },
            // small request that does not fit: a fresh standard block
            // becomes current, the old block's leftovers are abandoned
            bytes > old(self).remaining_spec() && bytes <= K_BLOCK_SIZE / 4 ==> {
                &&& final(self).usage_spec() == old(self).usage_spec() + K_BLOCK_SIZE
                    + K_BLOCK_OVERHEAD
                &&& final(self).remaining_spec() + bytes == K_BLOCK_SIZE
                &&& final(self).block_count_spec() == old(self).block_count_spec() + 1
                &&& r.block as int == old(self).block_count_spec()
                &&& final(self).block_len_spec(r.block as int) == K_BLOCK_SIZE
                &&& r.offset == 0
            },
    ;

    /// Like `allocate`, additionally placing the region at an offset that
    /// is a multiple of the natural pointer alignment. The fit test
    /// charges the padding as well; the fallback paths serve from the
    /// front of a fresh, aligned block.
    fn allocate_aligned(&mut self, bytes: usize) -> (r: Region)
        requires
            old(self).wf(),
            1 <= bytes,
            old(self).usage_spec() + bytes + K_ALIGN + K_BLOCK_SIZE + K_BLOCK_OVERHEAD
                <= usize::MAX,
        ensures
            final(self).wf(),
            r.len == bytes,
            r.offset % K_ALIGN == 0,
            final(self).region_valid(r),
            final(self).regions_spec() == old(self).regions_spec().push(r),
            forall|r2: Region| old(self).region_valid(r2) ==> final(self).region_valid(r2),
            old(self).usage_spec() <= final(self).usage_spec(),
            final(self).issued_spec() == old(self).issued_spec() + bytes,
            final(self).issued_spec() <= final(self).usage_spec(),
            // the same three paths, with the alignment padding charged on
            // the fit test
            bytes + old(self).align_slop_spec() <= old(self).remaining_spec() ==> {
                &&& final(self).usage_spec() == old(self).usage_spec()
                &&& final(self).remaining_spec() + bytes + old(self).align_slop_spec() == old(
                    self,
                ).remaining_spec()
                &&& final(self).block_count_spec() == old(self).block_count_spec()
            },
            bytes + old(self).align_slop_spec() > old(self).remaining_spec() && bytes
                > K_BLOCK_SIZE / 4 ==> {
                &&& final(self).usage_spec() == old(self).usage_spec() + bytes + K_BLOCK_OVERHEAD
                &&& final(self).remaining_spec() == old(self).remaining_spec()
                &&& final(self).block_count_spec() == old(self).block_count_spec() + 1
                &&& r.block as int == old(self).block_count_spec()
                &&& final(self).block_len_spec(r.block as int) == bytes
                &&& r.offset == 0
            },
            bytes + old(self).align_slop_spec() > old(self).remaining_spec() && bytes
                <= K_BLOCK_SIZE / 4 ==> {
                &&& final(self).usage_spec() == old(self).usage_spec() + K_BLOCK_SIZE
                    + K_BLOCK_OVERHEAD
                &&& final(self).remaining_spec() + bytes == K_BLOCK_SIZE
                &&& final(self).block_count_spec() == old(self).block_count_spec() + 1
                &&& r.block as int == old(self).block_count_spec()
                &&& final(self).block_len_spec(r.block as int) == K_BLOCK_SIZE
                &&& r.offset == 0
            },
    ;

    /// An estimate of the total memory used by the arena, bookkeeping
    /// included.
    fn memory_usage(&self) -> (n: usize)
        requires
            self.wf(),
        ensures
            n == self.usage_spec(),
    ;

    /// The bytes still free in the current block.
    fn remain_bytes(&self) -> (n: usize)
        requires
            self.wf(),
        ensures
            n == self.remaining_spec(),
    ;
}

/// The arena.
pub struct ArenaImpl {
    inner: ArenaInner,
}

impl ArenaImpl {
    pub fn new() -> (r: Self)
        ensures
            r.wf(),
            r.usage_spec() == 0,
            r.issued_spec() == 0,
            r.remaining_spec() == 0,
            r.regions_spec() == Seq::<Region>::empty(),
    {
        ArenaImpl { inner: ArenaInner::new() }
    }

    /// The byte at `o` of block `b`.
    pub closed spec fn block_byte(self, b: int, o: int) -> u8 {
        self.inner.blocks_spec()[b][o]
    }

    /// How many blocks the arena holds.
    pub closed spec fn block_count(self) -> int {
        self.inner.blocks_spec().len() as int
    }

    /// The size of block `b`.
    pub closed spec fn block_len(self, b: int) -> int {
        self.inner.blocks_spec()[b].len() as int
    }

    /// What it means for a region to lie within the blocks.
    pub open spec fn region_in_blocks(self, r: Region) -> bool {
        r.block < self.block_count() && r.offset + r.len <= self.block_len(r.block as int)
    }

    /// No two regions the arena has handed out share a byte, and each
    /// lies within one block: memory is never reused or moved.
    pub proof fn lemma_regions_disjoint(self)
        requires
            self.wf(),
        ensures
            forall|i: int, j: int|
                0 <= i < j < self.regions_spec().len() ==> regions_disjoint(
                    #[trigger] self.regions_spec()[i],
                    #[trigger] self.regions_spec()[j],
                ),
            forall|i: int|
                0 <= i < self.regions_spec().len() ==> self.region_valid(
                    #[trigger] self.regions_spec()[i],
                ),
    {
    }

    /// Write one byte of a region; nothing else changes.
    pub fn region_write(&mut self, r: Region, i: usize, val: u8)
        requires
            old(self).wf(),
            old(self).region_valid(r),
            i < r.len,
        ensures
            final(self).wf(),
            final(self).usage_spec() == old(self).usage_spec(),
            final(self).issued_spec() == old(self).issued_spec(),
            final(self).remaining_spec() == old(self).remaining_spec(),
            final(self).regions_spec() == old(self).regions_spec(),
            forall|r2: Region| old(self).region_valid(r2) ==> final(self).region_valid(r2),
            final(self).block_count() == old(self).block_count(),
            forall|b2: int| 0 <= b2 < old(self).block_count() ==> final(self).block_len(b2) == old(
                self,
            ).block_len(b2),
            final(self).block_byte(r.block as int, r.offset + i) == val,
            forall|b2: int, o2: int|
                0 <= b2 < old(self).block_count() && 0 <= o2 < old(self).block_len(b2) && !(b2
                    == r.block && o2 == r.offset + i) ==> final(self).block_byte(b2, o2) == old(
                    self,
                ).block_byte(b2, o2),
    {
        let b = vstd::std_specs::vec::vec_index_mut(&mut self.inner.blocks, r.block);
        let blen = b.len();
        assert(r.offset + i < blen);
        b.set(r.offset + i, val);
        proof {
            assert(self.inner.blocks_spec() =~= old(self).inner.blocks_spec().update(
                r.block as int,
                old(self).inner.blocks_spec()[r.block as int].update((r.offset + i) as int, val),
            ));
            assert forall|b2: int, o2: int|
                0 <= b2 < old(self).block_count() && 0 <= o2 < old(self).block_len(b2) && !(b2
                    == r.block && o2 == r.offset + i) implies self.block_byte(b2, o2) == old(
                self,
            ).block_byte(b2, o2) by {
                if b2 != r.block {
                    assert(self.inner.blocks_spec()[b2] == old(self).inner.blocks_spec()[b2]);
                }
            }
        }
    }

    /// Read one byte of a region.
    pub fn region_read(&self, r: Region, i: usize) -> (v: u8)
        requires
            self.wf(),
            self.region_valid(r),
            i < r.len,
        ensures
            v == self.block_byte(r.block as int, r.offset + i),
    {
        let b = &self.inner.blocks[r.block];
        let blen = b.len();
        assert(r.offset + i < blen);
        b[r.offset + i]
    }
}

impl Default for ArenaImpl {
    fn default() -> (r: Self)
        ensures
            r.wf(),
            r.usage_spec() == 0,
            r.issued_spec() == 0,
    {
        ArenaImpl::new()
    }
}

impl Arena for ArenaImpl {
    closed spec fn wf(&self) -> bool {
        self.inner.wf()
    }

    closed spec fn usage_spec(&self) -> nat {
        self.inner.usage_spec()
    }

    closed spec fn issued_spec(&self) -> nat {
        self.inner.issued_spec()
    }

    closed spec fn remaining_spec(&self) -> nat {
        self.inner.remaining_spec()
    }

    closed spec fn region_valid(&self, r: Region) -> bool {
        self.inner.region_ok(r)
    }

    closed spec fn regions_spec(&self) -> Seq<Region> {
        self.inner.regions_spec()
    }

    open spec fn block_count_spec(&self) -> int {
        self.block_count()
    }

    open spec fn block_len_spec(&self, b: int) -> int {
        self.block_len(b)
    }

    closed spec fn align_slop_spec(&self) -> nat {
        self.inner.align_slop()
    }

    fn allocate(&mut self, bytes: usize) -> (r: Region) {
        let ghost pre = self.inner;
        if bytes <= self.inner.remaining_bytes() {
            let off = self.inner.alloc_ptr();
            let r = Region { block: self.inner.current, offset: off, len: bytes };
            self.inner.add_alloc_ptr(bytes);
            self.inner.sub_remaining_bytes(bytes);
            proof {
                self.inner.issued@ = self.inner.issued@ + bytes as nat;
                self.inner.regions@ = self.inner.regions@.push(r);
                self.inner.lemma_after_issue(pre, r);
            }
            r
        } else {
            self.inner.alloc_fallback(bytes)
        }
    }

    fn allocate_aligned(&mut self, bytes: usize) -> (r: Region) {
        let current_mod = self.inner.alloc_ptr() % K_ALIGN;
        let slop = if current_mod == 0 {
            0
        } else {
            K_ALIGN - current_mod
        };
        let needed = bytes + slop;
        let ghost pre = self.inner;
        if needed <= self.inner.remaining_bytes() {
            let off = self.inner.alloc_ptr() + slop;
            let r = Region { block: self.inner.current, offset: off, len: bytes };
            self.inner.add_alloc_ptr(needed);
            self.inner.sub_remaining_bytes(needed);
            proof {
                self.inner.issued@ = self.inner.issued@ + bytes as nat;
                self.inner.regions@ = self.inner.regions@.push(r);
                self.inner.lemma_after_issue(pre, r);
            }
            r
        } else {
            // the fallback serves from the front of a fresh block, which
            // is aligned
            self.inner.alloc_fallback(bytes)
        }
    }

    fn memory_usage(&self) -> (n: usize) {
        self.inner.memory_usage()
    }

    fn remain_bytes(&self) -> (n: usize) {
        self.inner.remaining_bytes()
    }
}

} // verus!

