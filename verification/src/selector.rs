//! Oblivious argmin over the open set: a straight-line scan with no early
//! exit and no branch on a comparison outcome, so the access pattern is
//! independent of which node holds the minimum priority.

use vstd::prelude::*;

use crate::enc::{enc_less_than, enc_select, enc_select_idx, encrypt_idx_trivial, EncIdx};
use crate::node::Node;

verus! {

/// Position `i` holds the scan's winner: no node has a strictly smaller
/// priority, and every earlier node has a strictly larger one (ties are
/// resolved in favour of the first-encountered node).
pub open spec fn is_first_min(s: Seq<Node>, i: int) -> bool {
    &&& 0 <= i < s.len()
    &&& (forall|j: int| 0 <= j < s.len() ==> s[i].f.plain <= #[trigger] s[j].f.plain)
    &&& (forall|j: int| 0 <= j < i ==> s[i].f.plain < #[trigger] s[j].f.plain)
}

/// Scan the open set and obliviously determine the encrypted identity of
/// the node with minimum total priority `f`.  At each step the smaller of
/// the running minimum and the candidate is chosen by an oblivious select;
/// a later candidate never displaces an equal earlier one.
pub fn compare_cost(node_set: &Vec<Node>) -> (r: EncIdx)
    requires
        node_set@.len() >= 1,
    ensures
        r.key_id == 0,
        exists|i: int| is_first_min(node_set@, i) && r.plain == #[trigger] node_set@[i].current_idx,
{
    let mut min_f = node_set[0].get_f();
    let mut min_idx = encrypt_idx_trivial(node_set[0].current_idx);
    let ghost mut w: int = 0;

    let mut k: usize = 1;
    while k < node_set.len()
        invariant
            1 <= k <= node_set@.len(),
            0 <= w < k,
            min_f == node_set@[w].f,
            min_idx.plain == node_set@[w].current_idx,
            min_idx.key_id == 0,
            forall|j: int| 0 <= j < k ==> node_set@[w].f.plain <= #[trigger] node_set@[j].f.plain,
            forall|j: int| 0 <= j < w ==> node_set@[w].f.plain < #[trigger] node_set@[j].f.plain,
        decreases node_set@.len() - k,
    {
        let candidate = node_set[k].get_f();
        let is_smaller = enc_less_than(&candidate, &min_f);
        min_f = enc_select(&is_smaller, &candidate, &min_f);
        let curr_idx_enc = encrypt_idx_trivial(node_set[k].current_idx);
        min_idx = enc_select_idx(&is_smaller, &curr_idx_enc, &min_idx);
        proof {
            if node_set@[k as int].f.plain < node_set@[w].f.plain {
                w = k as int;
            }
        }
        k += 1;
    }
    proof {
        assert(is_first_min(node_set@, w));
    }
    min_idx
}

} // verus!
