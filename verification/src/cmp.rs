//! The pluggable three-way comparator over byte strings that defines all
//! ordering in the index, and its default byte-lexicographic instance.

use core::cmp::Ordering;
use vstd::prelude::*;

verus! {

/// A total preorder over byte strings, given as a three-way comparison.
///
/// `cmp_spec` is the mathematical comparison a contract can speak about;
/// `compare` is its executable form. The two law lemmas oblige every
/// implementor to a total order: `Less`/`Greater` duality, and transitivity
/// of "not greater". Reflexivity (`cmp_spec(a, a) == Equal`) follows from
/// duality alone.
pub trait BaseComparator: Sized {
    spec fn cmp_spec(&self, a: Seq<u8>, b: Seq<u8>) -> Ordering;

    /// `a` is below `b` exactly when `b` is above `a`.
    proof fn law_flip(&self, a: Seq<u8>, b: Seq<u8>)
        ensures
            (self.cmp_spec(a, b) == Ordering::Less) <==> (self.cmp_spec(b, a)
                == Ordering::Greater),
    ;

    /// "Not greater" is transitive.
    proof fn law_le_trans(&self, a: Seq<u8>, b: Seq<u8>, c: Seq<u8>)
        requires
            self.cmp_spec(a, b) != Ordering::Greater,
            self.cmp_spec(b, c) != Ordering::Greater,
        ensures
            self.cmp_spec(a, c) != Ordering::Greater,
    ;

    fn compare(&self, a: &[u8], b: &[u8]) -> (r: Ordering)
        ensures
            r == self.cmp_spec(a@, b@),
    ;

    /// Less than
    fn lt(&self, a: &[u8], b: &[u8]) -> (r: bool)
        ensures
            r == (self.cmp_spec(a@, b@) == Ordering::Less),
    {
        matches!(self.compare(a, b), Ordering::Less)
    }

    /// Less than or equal
    fn le(&self, a: &[u8], b: &[u8]) -> (r: bool)
        ensures
            r == (self.cmp_spec(a@, b@) != Ordering::Greater),
    {
        !matches!(self.compare(a, b), Ordering::Greater)
    }

    /// Greater than
    fn gt(&self, a: &[u8], b: &[u8]) -> (r: bool)
        ensures
            r == (self.cmp_spec(a@, b@) == Ordering::Greater),
    {
        matches!(self.compare(a, b), Ordering::Greater)
    }

    /// Greater than or equal
    fn ge(&self, a: &[u8], b: &[u8]) -> (r: bool)
        ensures
            r == (self.cmp_spec(a@, b@) != Ordering::Less),
    {
        !matches!(self.compare(a, b), Ordering::Less)
    }

    /// Equal
    fn eq(&self, a: &[u8], b: &[u8]) -> (r: bool)
        ensures
            r == (self.cmp_spec(a@, b@) == Ordering::Equal),
    {
        matches!(self.compare(a, b), Ordering::Equal)
    }

    /// Not equal
    fn ne(&self, a: &[u8], b: &[u8]) -> (r: bool)
        ensures
            r == (self.cmp_spec(a@, b@) != Ordering::Equal),
    {
        !matches!(self.compare(a, b), Ordering::Equal)
    }
}

/// Every lawful comparator is reflexive: a value compares `Equal` to itself.
pub proof fn lemma_cmp_refl<C: BaseComparator>(c: &C, a: Seq<u8>)
    ensures
        c.cmp_spec(a, a) == Ordering::Equal,
{
    c.law_flip(a, a);
}

/// Derived: `Equal` is symmetric for every lawful comparator.
pub proof fn lemma_eq_sym<C: BaseComparator>(c: &C, a: Seq<u8>, b: Seq<u8>)
    ensures
        (c.cmp_spec(a, b) == Ordering::Equal) <==> (c.cmp_spec(b, a) == Ordering::Equal),
{
    c.law_flip(a, b);
    c.law_flip(b, a);
}

/// Derived mixed transitivity: below-or-equal then strictly below is
/// strictly below.
pub proof fn lemma_le_lt_lt<C: BaseComparator>(c: &C, a: Seq<u8>, b: Seq<u8>, k: Seq<u8>)
    requires
        c.cmp_spec(a, b) != Ordering::Greater,
        c.cmp_spec(b, k) == Ordering::Less,
    ensures
        c.cmp_spec(a, k) == Ordering::Less,
{
    c.law_le_trans(a, b, k);
    if c.cmp_spec(a, k) == Ordering::Equal {
        lemma_eq_sym(c, a, k);
        c.law_le_trans(k, a, b);
        c.law_flip(b, k);
    }
}

/// Derived mixed transitivity: strictly below then below-or-equal is
/// strictly below.
pub proof fn lemma_lt_le_lt<C: BaseComparator>(c: &C, a: Seq<u8>, b: Seq<u8>, k: Seq<u8>)
    requires
        c.cmp_spec(a, b) == Ordering::Less,
        c.cmp_spec(b, k) != Ordering::Greater,
    ensures
        c.cmp_spec(a, k) == Ordering::Less,
{
    c.law_le_trans(a, b, k);
    if c.cmp_spec(a, k) == Ordering::Equal {
        lemma_eq_sym(c, a, k);
        c.law_le_trans(b, k, a);
        c.law_flip(a, b);
    }
}

/// Adjacent non-decreasing order of a key sequence under a comparator.
pub open spec fn sorted_le<C: BaseComparator>(c: C, keys: Seq<Seq<u8>>) -> bool {
    forall|j: int|
        0 <= j && j + 1 < keys.len() ==> c.cmp_spec(#[trigger] keys[j], keys[j + 1])
            != Ordering::Greater
}

/// In a sorted key sequence, every earlier key is below-or-equal to every
/// later one.
pub proof fn lemma_sorted_le_pair<C: BaseComparator>(c: &C, keys: Seq<Seq<u8>>, i: int, j: int)
    requires
        sorted_le(*c, keys),
        0 <= i <= j < keys.len(),
    ensures
        c.cmp_spec(keys[i], keys[j]) != Ordering::Greater,
    decreases j - i,
{
    if i == j {
        lemma_cmp_refl(c, keys[i]);
    } else {
        lemma_sorted_le_pair(c, keys, i, j - 1);
        c.law_le_trans(keys[i], keys[j - 1], keys[j]);
    }
}

/// The position of the first key not strictly below `key`, or the length
/// if every key is strictly below it.
pub open spec fn first_geq_from<C: BaseComparator>(c: C, keys: Seq<Seq<u8>>, key: Seq<u8>) -> int
    decreases keys.len(),
{
    if keys.len() == 0 {
        0
    } else if c.cmp_spec(keys[0], key) != Ordering::Less {
        0
    } else {
        1 + first_geq_from(c, keys.drop_first(), key)
    }
}

pub proof fn lemma_first_geq_basic<C: BaseComparator>(c: &C, keys: Seq<Seq<u8>>, key: Seq<u8>)
    ensures
        0 <= first_geq_from(*c, keys, key) <= keys.len(),
        forall|j: int|
            0 <= j < first_geq_from(*c, keys, key) ==> c.cmp_spec(keys[j], key) == Ordering::Less,
        first_geq_from(*c, keys, key) < keys.len() ==> c.cmp_spec(
            keys[first_geq_from(*c, keys, key)],
            key,
        ) != Ordering::Less,
    decreases keys.len(),
{
    if keys.len() != 0 && c.cmp_spec(keys[0], key) == Ordering::Less {
        lemma_first_geq_basic(c, keys.drop_first(), key);
        let fg = first_geq_from(*c, keys, key);
        assert forall|j: int| 0 <= j < fg implies c.cmp_spec(keys[j], key) == Ordering::Less by {
            if j > 0 {
                assert(keys.drop_first()[j - 1] == keys[j]);
            }
        }
        if fg < keys.len() {
            assert(keys.drop_first()[fg - 1] == keys[fg]);
        }
    }
}

/// A position below which everything is strictly below `key` and at which
/// (if in range) the key is not, is exactly `first_geq_from`.
pub proof fn lemma_first_geq_unique<C: BaseComparator>(
    c: &C,
    keys: Seq<Seq<u8>>,
    key: Seq<u8>,
    p: int,
)
    requires
        0 <= p <= keys.len(),
        forall|j: int| 0 <= j < p ==> c.cmp_spec(keys[j], key) == Ordering::Less,
        p < keys.len() ==> c.cmp_spec(keys[p], key) != Ordering::Less,
    ensures
        first_geq_from(*c, keys, key) == p,
    decreases keys.len(),
{
    if p == 0 {
    } else {
        assert(c.cmp_spec(keys[0], key) == Ordering::Less);
        assert(forall|j: int| 0 <= j < keys.drop_first().len() ==> keys.drop_first()[j] == keys[j
            + 1]);
        lemma_first_geq_unique(c, keys.drop_first(), key, p - 1);
    }
}

/// With a sorted key sequence, everything at or after `first_geq_from` is
/// not strictly below `key`.
pub proof fn lemma_first_geq_classify<C: BaseComparator>(c: &C, keys: Seq<Seq<u8>>, key: Seq<u8>)
    requires
        sorted_le(*c, keys),
    ensures
        0 <= first_geq_from(*c, keys, key) <= keys.len(),
        forall|j: int|
            0 <= j < first_geq_from(*c, keys, key) ==> c.cmp_spec(keys[j], key) == Ordering::Less,
        forall|j: int|
            first_geq_from(*c, keys, key) <= j < keys.len() ==> c.cmp_spec(keys[j], key)
                != Ordering::Less,
{
    lemma_first_geq_basic(c, keys, key);
    let fg = first_geq_from(*c, keys, key);
    assert forall|j: int| fg <= j < keys.len() implies c.cmp_spec(keys[j], key)
        != Ordering::Less by {
        lemma_sorted_le_pair(c, keys, fg, j);
        if c.cmp_spec(keys[j], key) == Ordering::Less {
            lemma_le_lt_lt(c, keys[fg], keys[j], key);
        }
    }
}

/// Byte-wise lexicographic comparison: the first differing byte decides;
/// a strict prefix is below its extension.
pub open spec fn lex_cmp(a: Seq<u8>, b: Seq<u8>) -> Ordering
    decreases a.len(),
{
    if a.len() == 0 && b.len() == 0 {
        Ordering::Equal
    } else if a.len() == 0 {
        Ordering::Less
    } else if b.len() == 0 {
        Ordering::Greater
    } else if a[0] < b[0] {
        Ordering::Less
    } else if a[0] > b[0] {
        Ordering::Greater
    } else {
        lex_cmp(a.drop_first(), b.drop_first())
    }
}

pub proof fn lemma_lex_flip(a: Seq<u8>, b: Seq<u8>)
    ensures
        (lex_cmp(a, b) == Ordering::Less) <==> (lex_cmp(b, a) == Ordering::Greater),
    decreases a.len(),
{
    if a.len() != 0 && b.len() != 0 && a[0] == b[0] {
        lemma_lex_flip(a.drop_first(), b.drop_first());
    }
}

pub proof fn lemma_lex_le_trans(a: Seq<u8>, b: Seq<u8>, c: Seq<u8>)
    requires
        lex_cmp(a, b) != Ordering::Greater,
        lex_cmp(b, c) != Ordering::Greater,
    ensures
        lex_cmp(a, c) != Ordering::Greater,
    decreases a.len(),
{
    if a.len() == 0 {
    } else {
        // a nonempty forces b nonempty, which in turn forces c nonempty
        assert(b.len() != 0);
        assert(c.len() != 0);
        if a[0] == c[0] {
            assert(a[0] == b[0] && b[0] == c[0]);
            lemma_lex_le_trans(a.drop_first(), b.drop_first(), c.drop_first());
        }
    }
}

/// Under the lexicographic order, `Equal` means the byte strings are equal.
pub proof fn lemma_lex_eq(a: Seq<u8>, b: Seq<u8>)
    ensures
        (lex_cmp(a, b) == Ordering::Equal) <==> (a == b),
    decreases a.len(),
{
    if a.len() == 0 && b.len() == 0 {
        assert(a =~= b);
    } else if a.len() != 0 && b.len() != 0 && a[0] == b[0] {
        lemma_lex_eq(a.drop_first(), b.drop_first());
        if lex_cmp(a, b) == Ordering::Equal {
            assert(a =~= b) by {
                assert(a.drop_first() == b.drop_first());
                assert(forall|i: int|
                    1 <= i < a.len() ==> a[i] == a.drop_first()[i - 1] && b[i] == b.drop_first()[i
                        - 1]);
            }
        }
        if a == b {
            assert(a.drop_first() =~= b.drop_first());
        }
    }
}

/// The byte-lexicographic comparator.
pub struct DefaultComparator {}

impl Default for DefaultComparator {
    fn default() -> (r: Self) {
        DefaultComparator {  }
    }
}

impl BaseComparator for DefaultComparator {
    open spec fn cmp_spec(&self, a: Seq<u8>, b: Seq<u8>) -> Ordering {
        lex_cmp(a, b)
    }

    proof fn law_flip(&self, a: Seq<u8>, b: Seq<u8>) {
        lemma_lex_flip(a, b);
    }

    proof fn law_le_trans(&self, a: Seq<u8>, b: Seq<u8>, c: Seq<u8>) {
        lemma_lex_le_trans(a, b, c);
    }

    fn compare(&self, a: &[u8], b: &[u8]) -> (r: Ordering)
        ensures
            r == lex_cmp(a@, b@),
    {
        let alen = a.len();
        let blen = b.len();
        let mut i: usize = 0;
        proof {
            assert(a@.skip(0) =~= a@);
            assert(b@.skip(0) =~= b@);
        }
        loop
            invariant
                i <= alen && i <= blen,
                alen == a@.len() && blen == b@.len(),
                lex_cmp(a@, b@) == lex_cmp(a@.skip(i as int), b@.skip(i as int)),
            decreases alen - i,
        {
            if i == alen && i == blen {
                return Ordering::Equal;
            }
            if i == alen {
                return Ordering::Less;
            }
            if i == blen {
                return Ordering::Greater;
            }
            let x = a[i];
            let y = b[i];
            proof {
                assert(a@.skip(i as int)[0] == a@[i as int]);
                assert(b@.skip(i as int)[0] == b@[i as int]);
            }
            if x < y {
                return Ordering::Less;
            }
            if x > y {
                return Ordering::Greater;
            }
            proof {
                assert(a@.skip(i as int).drop_first() =~= a@.skip(i as int + 1));
                assert(b@.skip(i as int).drop_first() =~= b@.skip(i as int + 1));
            }
            i = i + 1;
        }
    }
}

} // verus!
