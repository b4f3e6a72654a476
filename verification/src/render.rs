//! Rendering the index as text: the keys in order, each in the `Debug`
//! form byte slices print with, inside square brackets.

use crate::byte_str::{bytes_as_slice, debug_bytes, fmt_bytes};
use crate::cmp::BaseComparator;
use crate::random::RandomGenerator;
use crate::skiplist::SkipList;
use vstd::prelude::*;

verus! {

/// The rendering of a key sequence: each key in `Debug` form, each
/// followed by one space.
pub open spec fn render_keys(keys: Seq<Seq<u8>>) -> Seq<char>
    decreases keys.len(),
{
    if keys.len() == 0 {
        Seq::empty()
    } else {
        debug_bytes(keys[0]) + seq![' '] + render_keys(keys.drop_first())
    }
}

proof fn lemma_render_push(keys: Seq<Seq<u8>>, k: Seq<u8>)
    ensures
        render_keys(keys.push(k)) == render_keys(keys) + debug_bytes(k) + seq![' '],
    decreases keys.len(),
{
    let a = keys.push(k);
    if keys.len() == 0 {
        assert(a.drop_first() =~= Seq::<Seq<u8>>::empty());
        assert(a[0] == k);
        assert(render_keys(a) == debug_bytes(a[0]) + seq![' '] + render_keys(a.drop_first()));
        assert(render_keys(a.drop_first()) =~= Seq::<char>::empty());
        assert(render_keys(a) =~= render_keys(keys) + debug_bytes(k) + seq![' ']);
    } else {
        assert(a.drop_first() =~= keys.drop_first().push(k));
        lemma_render_push(keys.drop_first(), k);
        assert(a[0] == keys[0]);
        let h = debug_bytes(keys[0]) + seq![' '];
        assert(render_keys(a) == h + render_keys(a.drop_first()));
        assert(render_keys(a.drop_first()) == render_keys(keys.drop_first()) + debug_bytes(k)
            + seq![' ']);
        assert(render_keys(keys) == h + render_keys(keys.drop_first()));
        assert(h + (render_keys(keys.drop_first()) + debug_bytes(k) + seq![' ']) =~= (h
            + render_keys(keys.drop_first())) + debug_bytes(k) + seq![' ']);
    }
}

impl<R: RandomGenerator, C: BaseComparator> SkipList<R, C> {
    /// The whole list rendered in order: the keys in `Debug` form, each
    /// followed by one space, inside square brackets.
    pub fn to_string(&self) -> (r: String)
        requires
            self.wf(),
        ensures
            r@ == seq!['['] + render_keys(self@) + seq![']'],
    {
        let mut s = <String as vstd::string::StringExecFns>::from_str("[");
        proof {
            reveal_strlit("[");
            assert(s@ =~= seq!['[']);
            self.lemma_head_next();
            if self@.len() > 0 {
                self.lemma_pos_of_node(0);
            }
            assert(render_keys(self@.take(0)) =~= Seq::<char>::empty());
            assert(s@ =~= seq!['['] + render_keys(self@.take(0)));
        }
        let mut x = self.get_head().get_next(0);
        let ghost mut p: int = 0;
        while x != 0
            invariant
                self.wf(),
                0 <= p <= self@.len(),
                x == (if p < self@.len() {
                    self.node_of(p)
                } else {
                    0usize
                }),
                x == 0 <==> p == self@.len(),
                x < self.nodes_seq().len(),
                s@ == seq!['['] + render_keys(self@.take(p)),
            decreases self@.len() - p,
        {
            proof {
                self.lemma_pos_of_node(p);
                self.lemma_chain_next(p);
            }
            let part = fmt_bytes(bytes_as_slice(&self.node(x).data));
            <String as vstd::string::StringExecFns>::append(&mut s, part.as_str());
            <String as vstd::string::StringExecFns>::append(&mut s, " ");
            x = self.node(x).get_next(0);
            proof {
                reveal_strlit(" ");
                lemma_render_push(self@.take(p), self@[p]);
                assert(self@.take(p).push(self@[p]) =~= self@.take(p + 1));
                p = p + 1;
                assert(s@ =~= seq!['['] + render_keys(self@.take(p)));
                if p < self@.len() {
                    self.lemma_pos_of_node(p);
                }
            }
        }
        <String as vstd::string::StringExecFns>::append(&mut s, "]");
        proof {
            reveal_strlit("]");
            assert(self@.take(p) =~= self@);
            assert(s@ =~= seq!['['] + render_keys(self@) + seq![']']);
        }
        s
    }
}

} // verus!

