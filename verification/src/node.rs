//! Search-tree vertices: an encrypted state with its costs and identities,
//! and the oblivious Hamming-distance heuristic.

use vstd::prelude::*;

use crate::enc::{enc_add, enc_equals, enc_select, enc_spec, EncVal};
use crate::state::{copy_state, state_plains};

verus! {

/// Number of positions among the first `n` where the two plaintext vectors
/// disagree.
pub open spec fn hamming_to(a: Seq<i8>, b: Seq<i8>, n: int) -> int
    decreases n,
{
    if n <= 0 {
        0
    } else {
        hamming_to(a, b, n - 1) + (if a[n - 1] == b[n - 1] {
            0int
        } else {
            1int
        })
    }
}

/// The heuristic is non-negative and bounded above by the vector length.
pub proof fn lemma_hamming_bounds(a: Seq<i8>, b: Seq<i8>, n: int)
    requires
        n >= 0,
    ensures
        0 <= hamming_to(a, b, n) <= n,
    decreases n,
{
    if n > 0 {
        lemma_hamming_bounds(a, b, n - 1);
    }
}

/// Identity case: the heuristic of any state against itself is zero.
pub proof fn lemma_hamming_self(a: Seq<i8>, n: int)
    requires
        n >= 0,
    ensures
        hamming_to(a, a, n) == 0,
    decreases n,
{
    if n > 0 {
        lemma_hamming_self(a, n - 1);
    }
}

/// The heuristic vanishes exactly on equal prefixes, so a zero heuristic
/// certifies that the goal was reached.
pub proof fn lemma_hamming_zero_iff(a: Seq<i8>, b: Seq<i8>, n: int)
    requires
        n >= 0,
    ensures
        (hamming_to(a, b, n) == 0) <==> (forall|i: int| 0 <= i < n ==> a[i] == b[i]),
    decreases n,
{
    if n > 0 {
        lemma_hamming_zero_iff(a, b, n - 1);
        lemma_hamming_bounds(a, b, n - 1);
    }
}

/// One search-tree vertex.  Identities are public bookkeeping integers;
/// only the state and the cost values are encrypted.
pub struct Node {
    pub state: Vec<EncVal>,
    pub g: EncVal,
    pub h: EncVal,
    pub f: EncVal,
    pub current_idx: i32,
    pub parent_idx: i32,
    pub zero: EncVal,
    pub one: EncVal,
}

/// Two nodes with equal contents (clones are indistinguishable from their
/// originals at this level).
pub open spec fn same_node(a: Node, b: Node) -> bool {
    &&& a.state@ == b.state@
    &&& a.g == b.g
    &&& a.h == b.h
    &&& a.f == b.f
    &&& a.current_idx == b.current_idx
    &&& a.parent_idx == b.parent_idx
    &&& a.zero == b.zero
    &&& a.one == b.one
}

impl Clone for Node {
    fn clone(&self) -> (r: Self)
        ensures
            same_node(r, *self),
    {
        Node {
            state: copy_state(&self.state),
            g: self.g,
            h: self.h,
            f: self.f,
            current_idx: self.current_idx,
            parent_idx: self.parent_idx,
            zero: self.zero,
            one: self.one,
        }
    }
}

impl Node {
    /// The bookkeeping constants hold trivial encodings of 0 and 1, so that
    /// heuristic arithmetic composes with values under any key.
    pub open spec fn consts_ok(self) -> bool {
        self.zero == enc_spec(0, 0) && self.one == enc_spec(1, 0)
    }

    /// A fresh node; its heuristic and total priority are zero until
    /// evaluated.
    pub fn new(
        state: Vec<EncVal>,
        g: EncVal,
        current_idx: i32,
        parent_idx: i32,
        zero: EncVal,
        one: EncVal,
    ) -> (r: Node)
        ensures
            r.state@ == state@,
            r.g == g,
            r.h == zero,
            r.f == zero,
            r.current_idx == current_idx,
            r.parent_idx == parent_idx,
            r.zero == zero,
            r.one == one,
    {
        Node { state, g, h: zero, f: zero, current_idx, parent_idx, zero, one }
    }

    /// Oblivious heuristic evaluation against the goal state `t`: for each
    /// position the cost 0 or 1 is chosen by an oblivious select on an
    /// encrypted equality test, never by a plaintext branch, and the costs
    /// are summed into `h`; `f` becomes `g + h`.
    pub fn heuristic(&mut self, t: &Vec<EncVal>)
        requires
            old(self).state@.len() == t@.len(),
            t@.len() <= 127,
            old(self).consts_ok(),
        ensures
            final(self).h == (EncVal {
                plain: hamming_to(state_plains(old(self).state@), state_plains(t@), t@.len() as int) as i8,
                key_id: 0,
            }),
            final(self).f.plain == old(self).g.plain.wrapping_add(final(self).h.plain),
            final(self).f.key_id == old(self).g.key_id,
            final(self).state@ == old(self).state@,
            final(self).g == old(self).g,
            final(self).current_idx == old(self).current_idx,
            final(self).parent_idx == old(self).parent_idx,
            final(self).zero == old(self).zero,
            final(self).one == old(self).one,
    {
        let ghost a = state_plains(self.state@);
        let ghost b = state_plains(t@);
        let mut total_h = self.zero;
        let mut i: usize = 0;
        while i < t.len()
            invariant
                i <= t@.len(),
                t@.len() <= 127,
                self == old(self),
                self.state@.len() == t@.len(),
                self.consts_ok(),
                a == state_plains(self.state@),
                b == state_plains(t@),
                total_h.key_id == 0,
                total_h.plain == hamming_to(a, b, i as int),
                0 <= total_h.plain <= i,
            decreases t@.len() - i,
        {
            let is_correct = enc_equals(&self.state[i], &t[i]);
            let cost = enc_select(&is_correct, &self.zero, &self.one);
            proof {
                assert(a[i as int] == self.state@[i as int].plain);
                assert(b[i as int] == t@[i as int].plain);
            }
            total_h = enc_add(&total_h, &cost);
            i += 1;
        }
        self.h = total_h;
        self.f = enc_add(&self.g, &self.h);
    }

    /// Read-only view of the state.
    pub fn get_state(&self) -> (r: Vec<EncVal>)
        ensures
            r@ == self.state@,
    {
        copy_state(&self.state)
    }

    /// Read-only view of the total priority.
    pub fn get_f(&self) -> (r: EncVal)
        ensures
            r == self.f,
    {
        self.f
    }

    /// Read-only view of the heuristic estimate.
    pub fn get_h(&self) -> (r: EncVal)
        ensures
            r == self.h,
    {
        self.h
    }

    /// Re-parent the node; no other field changes.
    pub fn set_parent(&mut self, idx: i32)
        ensures
            final(self).parent_idx == idx,
            final(self).state@ == old(self).state@,
            final(self).g == old(self).g,
            final(self).h == old(self).h,
            final(self).f == old(self).f,
            final(self).current_idx == old(self).current_idx,
            final(self).zero == old(self).zero,
            final(self).one == old(self).one,
    {
        self.parent_idx = idx;
    }
}

} // verus!
