//! Successor generation (the gamma operator): all four move directions are
//! evaluated unconditionally through blind conditional swaps, so the work
//! performed never reveals which move was legal for the secret state.

use vstd::prelude::*;

use crate::enc::{enc_add, enc_equals, enc_select, encrypt_trivial, EncVal};
use crate::node::{hamming_to, Node};
use crate::state::{copy_state, state_plains};

verus! {

broadcast use vstd::seq_lib::group_to_multiset_ensures, vstd::multiset::group_multiset_axioms;

/// The grid offset of move direction `d`: up, down, left, right on a 3x3
/// grid stored row-major.
pub open spec fn offset_spec(d: int) -> int {
    if d == 0 {
        -3
    } else if d == 1 {
        3
    } else if d == 2 {
        -1
    } else {
        1
    }
}

/// Structural legality of a swap between cell `i` and cell `i + off`:
/// public index arithmetic only (grid bounds and the row-wrap guards for
/// the horizontal moves), never secret content.
pub open spec fn eligible(i: int, off: int) -> bool {
    &&& 0 <= i + off < 9
    &&& 0 <= i < 9
    &&& !(off == 1 && i % 3 == 2)
    &&& !(off == -1 && i % 3 == 0)
}

/// One blind conditional swap: gated on whether cell `i` of the original
/// state holds the blank, cells `i` and `i + off` of the working state are
/// exchanged; otherwise the step is a no-op by construction.
pub open spec fn blind_step(orig: Seq<i8>, cur: Seq<i8>, i: int, off: int) -> Seq<i8> {
    if eligible(i, off) && orig[i] == 0 {
        cur.update(i, cur[i + off]).update(i + off, cur[i])
    } else {
        cur
    }
}

/// The first `n` blind swap steps of one direction, applied in cell order.
pub open spec fn blind_pass(orig: Seq<i8>, cur: Seq<i8>, n: int, off: int) -> Seq<i8>
    decreases n,
{
    if n <= 0 {
        cur
    } else {
        blind_step(orig, blind_pass(orig, cur, n - 1, off), n - 1, off)
    }
}

/// The successor state that one direction produces from a parent state.
pub open spec fn child_spec(orig: Seq<i8>, off: int) -> Seq<i8> {
    blind_pass(orig, orig, 9, off)
}

/// A blind step leaves both the length and the multiset of tile labels
/// unchanged.
proof fn lemma_blind_step_multiset(orig: Seq<i8>, cur: Seq<i8>, i: int, off: int)
    requires
        cur.len() == 9,
    ensures
        blind_step(orig, cur, i, off).len() == 9,
        blind_step(orig, cur, i, off).to_multiset() == cur.to_multiset(),
{
    if eligible(i, off) && orig[i] == 0 {
        let t = i + off;
        let s1 = cur.update(i, cur[t]);
        let s2 = s1.update(t, cur[i]);
        assert(s1.to_multiset() == cur.to_multiset().insert(cur[t]).remove(cur[i]));
        assert(s1[t] == cur[t]);
        assert(s2.to_multiset() == s1.to_multiset().insert(cur[i]).remove(cur[t]));
        assert(cur.contains(cur[i]));
        assert(cur.contains(cur[t]));
        assert(s2.to_multiset() =~= cur.to_multiset());
    }
}

/// A whole pass preserves the multiset of tile labels: every child is a
/// permutation of its parent, even for no-op directions.
pub proof fn lemma_blind_pass_multiset(orig: Seq<i8>, cur: Seq<i8>, n: int, off: int)
    requires
        cur.len() == 9,
    ensures
        blind_pass(orig, cur, n, off).len() == 9,
        blind_pass(orig, cur, n, off).to_multiset() == cur.to_multiset(),
    decreases n,
{
    if n > 0 {
        lemma_blind_pass_multiset(orig, cur, n - 1, off);
        lemma_blind_step_multiset(orig, blind_pass(orig, cur, n - 1, off), n - 1, off);
    }
}

/// Exactly one cell of the plaintext state holds the blank.
pub open spec fn one_blank_at(s: Seq<i8>, b: int) -> bool {
    &&& 0 <= b < s.len()
    &&& s[b] == 0
    &&& (forall|i: int| 0 <= i < s.len() && i != b ==> s[i] != 0)
}

/// The exchange of two cells.
pub open spec fn swap_cells(s: Seq<i8>, i: int, j: int) -> Seq<i8> {
    s.update(i, s[j]).update(j, s[i])
}

/// On a state with a single blank, a whole pass reduces to one real swap
/// when the direction is structurally legal for the blank's cell, and to
/// the identity otherwise.
pub proof fn lemma_blind_pass_one_blank(s: Seq<i8>, b: int, off: int, n: int)
    requires
        s.len() == 9,
        one_blank_at(s, b),
        0 <= n <= 9,
    ensures
        blind_pass(s, s, n, off) == (if b < n && eligible(b, off) {
            swap_cells(s, b, b + off)
        } else {
            s
        }),
    decreases n,
{
    if n > 0 {
        lemma_blind_pass_one_blank(s, b, off, n - 1);
        let prev = blind_pass(s, s, n - 1, off);
        if n - 1 == b {
            if eligible(b, off) {
                assert(prev == s);
                assert(blind_step(s, prev, n - 1, off) == swap_cells(s, b, b + off));
            } else {
                assert(blind_step(s, prev, n - 1, off) == prev);
            }
        } else {
            assert(s[n - 1] != 0);
            assert(blind_step(s, prev, n - 1, off) == prev);
        }
    }
}

/// Boundary behaviour of the expander: from a state whose blank sits in a
/// corner cell, exactly two of the four directions produce genuinely new
/// successor states and the other two reproduce the parent unchanged.
pub proof fn lemma_corner_expansion(s: Seq<i8>, b: int)
    requires
        s.len() == 9,
        one_blank_at(s, b),
        b == 0 || b == 2 || b == 6 || b == 8,
    ensures
        b == 0 ==> child_spec(s, -3) == s && child_spec(s, -1) == s && child_spec(s, 3) != s
            && child_spec(s, 1) != s,
        b == 2 ==> child_spec(s, -3) == s && child_spec(s, 1) == s && child_spec(s, 3) != s
            && child_spec(s, -1) != s,
        b == 6 ==> child_spec(s, 3) == s && child_spec(s, -1) == s && child_spec(s, -3) != s
            && child_spec(s, 1) != s,
        b == 8 ==> child_spec(s, 3) == s && child_spec(s, 1) == s && child_spec(s, -3) != s
            && child_spec(s, -1) != s,
{
    lemma_blind_pass_one_blank(s, b, -3, 9);
    lemma_blind_pass_one_blank(s, b, 3, 9);
    lemma_blind_pass_one_blank(s, b, -1, 9);
    lemma_blind_pass_one_blank(s, b, 1, 9);
    assert forall|off: int|
        (off == -3 || off == 3 || off == -1 || off == 1) && eligible(b, off)
            implies swap_cells(s, b, b + off) != s by {
        assert(s[b + off] != 0);
        assert(swap_cells(s, b, b + off)[b] == s[b + off]);
        assert(swap_cells(s, b, b + off)[b] != s[b]);
    }
}

/// One state is a single (possibly no-op) expansion step away from
/// another: some direction's blind pass turns the first into the second.
pub open spec fn is_gamma_move(p: Seq<i8>, c: Seq<i8>) -> bool {
    exists|off: int|
        (off == -3 || off == 3 || off == -1 || off == 1) && c == #[trigger] child_spec(p, off)
}

/// The state holds exactly one blank, somewhere.
pub open spec fn has_single_blank(s: Seq<i8>) -> bool {
    exists|b: int| one_blank_at(s, b)
}

/// One state follows from another by a real, structurally legal blank
/// move: the blank is exchanged with an adjacent cell, with no row wrap
/// for the horizontal directions.
pub open spec fn is_real_move(p: Seq<i8>, c: Seq<i8>) -> bool {
    exists|b: int, off: int|
        #![trigger one_blank_at(p, b), eligible(b, off)]
        (off == -3 || off == 3 || off == -1 || off == 1) && one_blank_at(p, b) && eligible(b, off)
            && c == swap_cells(p, b, b + off)
}

/// A legal blank swap moves the single blank to the partner cell.
pub proof fn lemma_swap_keeps_blank(s: Seq<i8>, b: int, off: int)
    requires
        s.len() == 9,
        one_blank_at(s, b),
        eligible(b, off),
        off == -3 || off == 3 || off == -1 || off == 1,
    ensures
        one_blank_at(swap_cells(s, b, b + off), b + off),
{
    let c = swap_cells(s, b, b + off);
    assert(c[b + off] == s[b]);
    assert forall|i: int| 0 <= i < c.len() && i != b + off implies c[i] != 0 by {
        if i == b {
            assert(c[i] == s[b + off]);
        } else {
            assert(c[i] == s[i]);
        }
    }
}

/// From a single-blank state, an expansion step either reproduces the
/// state or performs one real blank move; either way exactly one blank
/// remains.
pub proof fn lemma_gamma_move_cases(p: Seq<i8>, c: Seq<i8>, b: int)
    requires
        p.len() == 9,
        one_blank_at(p, b),
        is_gamma_move(p, c),
    ensures
        c == p || is_real_move(p, c),
        has_single_blank(c),
        c.len() == 9,
{
    let off = choose|off: int|
        (off == -3 || off == 3 || off == -1 || off == 1) && c == #[trigger] child_spec(p, off);
    lemma_blind_pass_one_blank(p, b, off, 9);
    if eligible(b, off) {
        assert(c == swap_cells(p, b, b + off));
        lemma_swap_keeps_blank(p, b, off);
        assert(one_blank_at(p, b) && eligible(b, off));
        assert(is_real_move(p, c));
        assert(one_blank_at(c, b + off));
    } else {
        assert(c == p);
        assert(one_blank_at(c, b));
    }
}

/// Along any chain of expansion steps that begins at a single-blank
/// state, every state keeps exactly one blank.
pub proof fn lemma_move_chain_blank(states: Seq<Seq<i8>>, n: int)
    requires
        states.len() >= 1,
        0 <= n < states.len(),
        states[0].len() == 9,
        has_single_blank(states[0]),
        forall|m: int|
            0 <= m < states.len() - 1 ==> is_gamma_move(#[trigger] states[m], states[m + 1]),
    ensures
        has_single_blank(states[n]),
        states[n].len() == 9,
    decreases n,
{
    if n > 0 {
        lemma_move_chain_blank(states, n - 1);
        let b = choose|b: int| #[trigger] one_blank_at(states[n - 1], b);
        lemma_gamma_move_cases(states[n - 1], states[n], b);
    }
}

/// Everything the contract of the gamma operator promises of one child.
pub open spec fn child_ok(c: Node, parent: Node, desti: Seq<EncVal>, id: int, off: int) -> bool {
    &&& c.current_idx == id
    &&& c.parent_idx == parent.current_idx
    &&& c.state@.len() == 9
    &&& state_plains(c.state@) == child_spec(state_plains(parent.state@), off)
    &&& (forall|i: int| 0 <= i < 9 ==> parent.state@.contains(#[trigger] c.state@[i]))
    &&& c.g.plain == parent.g.plain.wrapping_add(1)
    &&& c.g.key_id == parent.g.key_id
    &&& c.h == (EncVal {
        plain: hamming_to(state_plains(c.state@), state_plains(desti), 9) as i8,
        key_id: 0,
    })
    &&& c.f.plain == c.g.plain.wrapping_add(c.h.plain)
    &&& c.f.key_id == c.g.key_id
    &&& c.consts_ok()
}

/// The gamma operator: produce exactly four candidate children of a parent
/// node, one per move direction, each with cost `g + 1`, a fresh sequential
/// identity, and an immediately evaluated heuristic.  Directions whose
/// blank-adjacency test fails everywhere reproduce the parent state
/// unchanged and are still emitted, since suppressing them would leak which
/// moves were legal.
pub fn gamma_operation(parent: &Node, next_idx_start: i32, desti: &Vec<EncVal>) -> (r: Vec<Node>)
    requires
        parent.state@.len() == 9,
        desti@.len() == 9,
        next_idx_start <= i32::MAX - 4,
    ensures
        r@.len() == 4,
        forall|d: int|
            0 <= d < 4 ==> child_ok(
                #[trigger] r@[d],
                *parent,
                desti@,
                next_idx_start + d,
                offset_spec(d),
            ),
        forall|d: int|
            0 <= d < 4 ==> state_plains(#[trigger] r@[d].state@).to_multiset() == state_plains(
                parent.state@,
            ).to_multiset(),
{
    let ghost orig = state_plains(parent.state@);
    let mut children: Vec<Node> = Vec::new();
    let mut current_idx_counter = next_idx_start;

    // compared against the blank (0); increment for g
    let zero_enc = encrypt_trivial(0);
    let one_cost = encrypt_trivial(1);

    let mut d: usize = 0;
    while d < 4
        invariant
            d <= 4,
            parent.state@.len() == 9,
            desti@.len() == 9,
            next_idx_start <= i32::MAX - 4,
            orig == state_plains(parent.state@),
            zero_enc == crate::enc::enc_spec(0, 0),
            one_cost == crate::enc::enc_spec(1, 0),
            current_idx_counter == next_idx_start + d,
            children@.len() == d,
            forall|e: int|
                0 <= e < d ==> child_ok(
                    #[trigger] children@[e],
                    *parent,
                    desti@,
                    next_idx_start + e,
                    offset_spec(e),
                ),
        decreases 4 - d,
    {
        let off: i32 = if d == 0 {
            -3
        } else if d == 1 {
            3
        } else if d == 2 {
            -1
        } else {
            1
        };
        let mut new_state = copy_state(&parent.state);

        let mut i: usize = 0;
        while i < 9
            invariant
                i <= 9,
                -3 <= off <= 3,
                off == offset_spec(d as int),
                d < 4,
                parent.state@.len() == 9,
                orig == state_plains(parent.state@),
                zero_enc == crate::enc::enc_spec(0, 0),
                new_state@.len() == 9,
                state_plains(new_state@) == blind_pass(orig, orig, i as int, off as int),
                forall|c: int| 0 <= c < 9 ==> parent.state@.contains(#[trigger] new_state@[c]),
            decreases 9 - i,
        {
            let ghost pre = new_state@;
            let target = i as i32 + off;
            if !(target < 0 || target >= 9) && !(off == 1 && i % 3 == 2) && !(off == -1 && i % 3
                == 0) {
                let t = target as usize;
                proof {
                    assert(eligible(i as int, off as int));
                }
                let is_zero = enc_equals(&parent.state[i], &zero_enc);
                let val_i = new_state[i];
                let val_target = new_state[t];
                new_state[i] = enc_select(&is_zero, &val_target, &val_i);
                new_state[t] = enc_select(&is_zero, &val_i, &val_target);
                proof {
                    assert(orig[i as int] == parent.state@[i as int].plain);
                    assert(is_zero.truth == (orig[i as int] == 0));
                    if orig[i as int] == 0 {
                        assert(new_state@ == pre.update(i as int, val_target).update(
                            t as int,
                            val_i,
                        ));
                        assert(state_plains(new_state@) =~= state_plains(pre).update(
                            i as int,
                            state_plains(pre)[t as int],
                        ).update(t as int, state_plains(pre)[i as int]));
                    } else {
                        assert(new_state@ == pre.update(i as int, val_i).update(
                            t as int,
                            val_target,
                        ));
                        assert(new_state@ =~= pre);
                    }
                    assert(state_plains(new_state@) == blind_step(
                        orig,
                        state_plains(pre),
                        i as int,
                        off as int,
                    ));
                }
            } else {
                proof {
                    assert(!eligible(i as int, off as int));
                }
            }
            i += 1;
        }

        let new_g = enc_add(&parent.g, &one_cost);
        let zero = encrypt_trivial(0);
        let one = encrypt_trivial(1);

        let mut child_node = Node::new(
            new_state,
            new_g,
            current_idx_counter,
            parent.current_idx,
            zero,
            one,
        );
        child_node.heuristic(desti);

        children.push(child_node);
        current_idx_counter += 1;
        d += 1;
    }
    proof {
        assert forall|e: int|
            0 <= e < 4 implies state_plains(#[trigger] children@[e].state@).to_multiset()
            == state_plains(parent.state@).to_multiset() by {
            lemma_blind_pass_multiset(orig, orig, 9, offset_spec(e));
        }
    }
    children
}

} // verus!
