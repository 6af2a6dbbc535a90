//! The search controller: select, resolve, check duplicates and goal,
//! move to closed, expand, loop; then reconstruct the path along parent
//! links.

use vstd::prelude::*;

use crate::enc::{encrypt_trivial, EncVal};
use crate::errors::SearchError;
use crate::expander::{
    child_ok, child_spec, gamma_operation, has_single_blank, is_gamma_move, is_real_move,
    lemma_gamma_move_cases, lemma_move_chain_blank, offset_spec, one_blank_at,
};
use crate::list::{has_id, id_count, ids_of, lemma_has_id_count, List};
use crate::node::{
    hamming_to, lemma_hamming_bounds, lemma_hamming_self, lemma_hamming_zero_iff, same_node, Node,
};
use crate::oracle::ClientOracle;
use crate::selector::{compare_cost, is_first_min};
use crate::state::{state_plains, state_under};

verus! {

broadcast use vstd::seq_lib::group_to_multiset_ensures, vstd::multiset::group_multiset_axioms;

/// What the search maintains of every node it ever stores: a well-formed
/// encrypted state under the client key, an evaluated heuristic, and
/// parent links that point strictly backwards (the root has identity 1).
pub open spec fn inv_node(n: Node, splains: Seq<i8>, dplains: Seq<i8>, k: u64) -> bool {
    &&& n.state@.len() == 9
    &&& state_under(n.state@, k)
    &&& n.h == (EncVal {
        plain: hamming_to(state_plains(n.state@), dplains, 9) as i8,
        key_id: 0,
    })
    &&& n.current_idx >= 1
    &&& (n.current_idx == 1 ==> state_plains(n.state@) == splains && n.parent_idx == -1)
    &&& (n.current_idx != 1 ==> 1 <= n.parent_idx < n.current_idx)
}

/// A referenced identity can be looked up somewhere in the frontier.
pub open spec fn resolvable_in(open: Seq<Node>, close: Seq<Node>, id: i32) -> bool {
    has_id(open, id) || has_id(close, id)
}

/// A node with these contents is stored somewhere in the frontier.
pub open spec fn stored_in(open: Seq<Node>, close: Seq<Node>, n: Node) -> bool {
    (exists|i: int| 0 <= i < open.len() && same_node(n, #[trigger] open[i])) || (exists|i: int|
        0 <= i < close.len() && same_node(n, #[trigger] close[i]))
}

/// Some stored node names this identity as its parent: the node carrying
/// the identity has been expanded.
pub open spec fn has_child_in(open: Seq<Node>, close: Seq<Node>, id: i32) -> bool {
    (exists|i: int| 0 <= i < open.len() && #[trigger] open[i].parent_idx == id) || (exists|i: int|
        0 <= i < close.len() && #[trigger] close[i].parent_idx == id)
}

/// What holds of every expanded node: its state is not the goal (its
/// decrypted heuristic was non-zero when it was popped), its state sits in
/// the oracle's memoization, and it differs from its own parent's state
/// (it was no duplicate when it was expanded).  This is what rules a
/// stuttering path step out.
pub open spec fn expanded_inv(
    open: Seq<Node>,
    close: Seq<Node>,
    seen: Set<Seq<i8>>,
    dplains: Seq<i8>,
) -> bool {
    &&& (forall|n: Node|
        #[trigger] stored_in(open, close, n) && has_child_in(open, close, n.current_idx)
            ==> state_plains(n.state@) != dplains && seen.contains(state_plains(n.state@)))
    &&& (forall|n: Node, m: Node|
        #[trigger] stored_in(open, close, n) && #[trigger] stored_in(open, close, m)
            && has_child_in(open, close, n.current_idx) && m.current_idx == n.parent_idx
            ==> state_plains(n.state@) != state_plains(m.state@))
}

/// When one stored node names another as its parent, the child's state is
/// one expansion step away from the parent's state.
pub open spec fn parent_link_ok(n: Node, m: Node) -> bool {
    m.current_idx == n.parent_idx ==> is_gamma_move(
        state_plains(m.state@),
        state_plains(n.state@),
    )
}

/// The frontier-wide search invariant: parallel vectors agree, every node
/// is well-formed, identities are unique across both sets and never exceed
/// the total count (so fresh identities are really fresh), and every
/// parent link resolves.
pub open spec fn frontier_inv_seqs(
    open: Seq<Node>,
    close: Seq<Node>,
    splains: Seq<i8>,
    dplains: Seq<i8>,
    k: u64,
) -> bool {
    &&& (forall|i: int|
        0 <= i < open.len() ==> inv_node(#[trigger] open[i], splains, dplains, k))
    &&& (forall|i: int|
        0 <= i < close.len() ==> inv_node(#[trigger] close[i], splains, dplains, k))
    &&& (forall|id: i32| #[trigger] id_count(open, id) + id_count(close, id) <= 1)
    &&& (forall|i: int|
        0 <= i < open.len() ==> #[trigger] open[i].current_idx <= open.len() + close.len())
    &&& (forall|i: int|
        0 <= i < close.len() ==> #[trigger] close[i].current_idx <= open.len() + close.len())
    &&& (forall|i: int|
        0 <= i < open.len() && (#[trigger] open[i]).current_idx != 1 ==> resolvable_in(
            open,
            close,
            open[i].parent_idx,
        ))
    &&& (forall|i: int|
        0 <= i < close.len() && (#[trigger] close[i]).current_idx != 1 ==> resolvable_in(
            open,
            close,
            close[i].parent_idx,
        ))
    &&& (forall|n: Node, m: Node|
        #[trigger] stored_in(open, close, n) && #[trigger] stored_in(open, close, m)
            ==> parent_link_ok(n, m))
}

pub open spec fn frontier_inv(l: List, splains: Seq<i8>, dplains: Seq<i8>, k: u64) -> bool {
    &&& l.wf()
    &&& frontier_inv_seqs(l.open_nodes@, l.close_nodes@, splains, dplains, k)
}

/// Pointwise properties survive when one node sequence holds no more
/// copies of any node value than another.
proof fn lemma_counts_transfer(a: Seq<Node>, b: Seq<Node>, p: spec_fn(Node) -> bool)
    requires
        forall|n: Node| #[trigger] b.to_multiset().count(n) <= a.to_multiset().count(n),
        forall|i: int| 0 <= i < a.len() ==> p(#[trigger] a[i]),
    ensures
        forall|i: int| 0 <= i < b.len() ==> p(#[trigger] b[i]),
{
    assert forall|i: int| 0 <= i < b.len() implies p(#[trigger] b[i]) by {
        assert(b.contains(b[i]));
        assert(b.to_multiset().count(b[i]) > 0);
        assert(a.to_multiset().count(b[i]) > 0);
        assert(a.contains(b[i]));
        let j = choose|j: int| 0 <= j < a.len() && a[j] == b[i];
        assert(p(a[j]));
    }
}

/// An identity that resolves in a frontier still resolves in one whose
/// per-identity counts are no smaller.
proof fn lemma_resolvable_mono(
    a0: Seq<Node>,
    b0: Seq<Node>,
    a1: Seq<Node>,
    b1: Seq<Node>,
    id: i32,
)
    requires
        id_count(a1, id) + id_count(b1, id) >= id_count(a0, id) + id_count(b0, id),
        resolvable_in(a0, b0, id),
    ensures
        resolvable_in(a1, b1, id),
{
    lemma_has_id_count(a0, id);
    lemma_has_id_count(b0, id);
    lemma_has_id_count(a1, id);
    lemma_has_id_count(b1, id);
}

/// Walk the parent links from the terminal node back to the root,
/// decrypting the states in root-first order.  Under the frontier
/// invariants every link resolves, so this always yields the path.
fn reconstruct_path(
    list: &List,
    oracle: &ClientOracle,
    terminal: Node,
    Ghost(splains): Ghost<Seq<i8>>,
    Ghost(dplains): Ghost<Seq<i8>>,
) -> (r: Result<Vec<Vec<i8>>, SearchError>)
    requires
        splains.len() == 9,
        frontier_inv(*list, splains, dplains, oracle.key.id),
        expanded_inv(list.open_nodes@, list.close_nodes@, oracle.seen_set(), dplains),
        inv_node(terminal, splains, dplains, oracle.key.id),
        stored_in(list.open_nodes@, list.close_nodes@, terminal),
        state_plains(terminal.state@) == dplains,
    ensures
        r matches Ok(path) && {
            &&& path@.len() >= 1
            &&& path@[0]@ == splains
            &&& path@[path@.len() - 1]@ == dplains
            &&& (forall|i: int| 0 <= i < path@.len() ==> (#[trigger] path@[i]@).len() == 9)
            &&& (forall|i: int|
                0 <= i < path@.len() - 1 ==> is_gamma_move(#[trigger] path@[i]@, path@[i + 1]@))
            &&& (has_single_blank(splains) ==> (forall|i: int|
                0 <= i < path@.len() ==> has_single_blank(#[trigger] path@[i]@)) && (forall|i: int|
                0 <= i < path@.len() - 1 ==> is_real_move(#[trigger] path@[i]@, path@[i + 1]@)))
        },
{
    let ghost k = oracle.key.id;
    // path reconstruction: walk the parent links back to the root
    let mut enc_path: Vec<Node> = Vec::new();
    let mut walk = terminal;
    loop
        invariant
            k == oracle.key.id,
            splains.len() == 9,
            frontier_inv(*list, splains, dplains, k),
            expanded_inv(
                list.open_nodes@,
                list.close_nodes@,
                oracle.seen_set(),
                dplains,
            ),
            inv_node(walk, splains, dplains, k),
            stored_in(list.open_nodes@, list.close_nodes@, walk),
            forall|j: int|
                0 <= j < enc_path@.len() ==> stored_in(
                    list.open_nodes@,
                    list.close_nodes@,
                    #[trigger] enc_path@[j],
                ),
            forall|m: int|
                0 <= m < enc_path@.len() - 1 ==> (#[trigger] enc_path@[m]).parent_idx
                    == enc_path@[m + 1].current_idx,
            forall|m: int|
                0 <= m < enc_path@.len() - 1 ==> state_plains(
                    (#[trigger] enc_path@[m]).state@,
                ) != state_plains(enc_path@[m + 1].state@),
            enc_path@.len() > 0 ==> enc_path@.last().parent_idx == walk.current_idx,
            enc_path@.len() > 0 ==> state_plains(walk.state@) != state_plains(
                enc_path@.last().state@,
            ),
            walk.current_idx != 1 ==> resolvable_in(
                list.open_nodes@,
                list.close_nodes@,
                walk.parent_idx,
            ),
            enc_path@.len() == 0 ==> state_plains(walk.state@) == dplains,
            enc_path@.len() > 0 ==> state_plains(enc_path@[0].state@) == dplains,
            enc_path@.len() > 0 ==> is_gamma_move(
                state_plains(walk.state@),
                state_plains(enc_path@.last().state@),
            ),
            forall|m: int|
                0 <= m < enc_path@.len() - 1 ==> is_gamma_move(
                    state_plains(#[trigger] enc_path@[m + 1].state@),
                    state_plains(enc_path@[m].state@),
                ),
            forall|j: int|
                0 <= j < enc_path@.len() ==> (#[trigger] enc_path@[j]).state@.len() == 9
                    && state_under(enc_path@[j].state@, k),
        decreases walk.current_idx,
    {
        let ghost ep0 = enc_path@;
        enc_path.push(walk.clone());
        proof {
            assert(same_node(enc_path@.last(), walk));
            assert forall|m: int| 0 <= m < enc_path@.len() - 1 implies is_gamma_move(
                state_plains(#[trigger] enc_path@[m + 1].state@),
                state_plains(enc_path@[m].state@),
            ) && (#[trigger] enc_path@[m]).parent_idx == enc_path@[m + 1].current_idx
                && state_plains(enc_path@[m].state@) != state_plains(
                enc_path@[m + 1].state@,
            ) by {
                if m + 1 < ep0.len() {
                    assert(enc_path@[m] == ep0[m]);
                    assert(enc_path@[m + 1] == ep0[m + 1]);
                } else {
                    assert(enc_path@[m] == ep0[m]);
                    assert(ep0[m] == ep0.last());
                    assert(enc_path@[m + 1].state@ == walk.state@);
                    assert(enc_path@[m + 1].current_idx == walk.current_idx);
                }
            }
        }
        if walk.current_idx == 1 {
            // decrypt in reverse order: root first, goal last
            let total = enc_path.len();
            let ghost last_plains = state_plains(enc_path@[total - 1].state@);
            proof {
                assert(last_plains == splains);
            }
            let mut path: Vec<Vec<i8>> = Vec::new();
            let mut j: usize = 0;
            while j < total
                invariant
                    k == oracle.key.id,
                    j <= total,
                    total == enc_path@.len(),
                    total >= 1,
                    state_plains(enc_path@[total - 1].state@) == splains,
                    state_plains(enc_path@[0].state@) == dplains,
                    forall|m: int|
                        0 <= m < total - 1 ==> is_gamma_move(
                            state_plains(#[trigger] enc_path@[m + 1].state@),
                            state_plains(enc_path@[m].state@),
                        ),
                    forall|m: int|
                        0 <= m < total - 1 ==> state_plains(
                            (#[trigger] enc_path@[m]).state@,
                        ) != state_plains(enc_path@[m + 1].state@),
                    path@.len() == j,
                    forall|m: int|
                        0 <= m < j ==> #[trigger] path@[m]@ == state_plains(
                            enc_path@[total - 1 - m].state@,
                        ),
                    forall|m: int|
                        0 <= m < enc_path@.len() ==> (#[trigger] enc_path@[m]).state@.len()
                            == 9 && state_under(enc_path@[m].state@, k),
                decreases total - j,
            {
                let dec = match oracle.resolve_state(&enc_path[total - 1 - j].state) {
                    Ok(v) => v,
                    Err(_) => {
                        proof {
                            assert(false);
                        }
                        return Err(SearchError::SearchExhausted);
                    },
                };
                path.push(dec);
                j += 1;
            }
            proof {
                assert(path@[0]@ == state_plains(enc_path@[total - 1].state@));
                assert(path@[total - 1]@ == state_plains(enc_path@[0].state@));
                assert forall|i: int| 0 <= i < path@.len() implies (#[trigger] path@[i]@)
                    .len() == 9 by {
                    assert(path@[i]@ == state_plains(enc_path@[total - 1 - i].state@));
                }
                assert forall|i: int| 0 <= i < path@.len() - 1 implies is_gamma_move(
                    #[trigger] path@[i]@,
                    path@[i + 1]@,
                ) && path@[i]@ != path@[i + 1]@ by {
                    let m = total - 2 - i;
                    assert(path@[i]@ == state_plains(enc_path@[m + 1].state@));
                    assert(path@[i + 1]@ == state_plains(enc_path@[m].state@));
                    assert(is_gamma_move(
                        state_plains(enc_path@[m + 1].state@),
                        state_plains(enc_path@[m].state@),
                    ));
                    assert(state_plains(enc_path@[m].state@) != state_plains(
                        enc_path@[m + 1].state@,
                    ));
                }
                // a single-blank start keeps its single blank along
                // the path, and each step is a real blank move
                if has_single_blank(splains) {
                    let states = path@.map_values(|v: Vec<i8>| v@);
                    assert(states.len() == path@.len());
                    assert(forall|i: int|
                        0 <= i < states.len() ==> #[trigger] states[i] == path@[i]@);
                    assert(states[0] == splains);
                    assert forall|m: int|
                        0 <= m < states.len() - 1 implies is_gamma_move(
                        #[trigger] states[m],
                        states[m + 1],
                    ) by {
                        assert(states[m] == path@[m]@);
                        assert(states[m + 1] == path@[m + 1]@);
                    }
                    assert forall|i: int| 0 <= i < path@.len() implies has_single_blank(
                        #[trigger] path@[i]@,
                    ) by {
                        lemma_move_chain_blank(states, i);
                    }
                    assert forall|i: int|
                        0 <= i < path@.len() - 1 implies is_real_move(
                        #[trigger] path@[i]@,
                        path@[i + 1]@,
                    ) by {
                        lemma_move_chain_blank(states, i);
                        let b = choose|b: int| one_blank_at(path@[i]@, b);
                        lemma_gamma_move_cases(path@[i]@, path@[i + 1]@, b);
                    }
                }
            }
            return Ok(path);
        }
        let pid = walk.parent_idx;
        let next = match list.get_from_idx(pid) {
            Ok(n) => n,
            Err(_) => {
                proof {
                    assert(false);
                }
                return Err(SearchError::SearchExhausted);
            },
        };
        proof {
            if exists|i: int|
                0 <= i < list.open_nodes@.len() && same_node(
                    next,
                    #[trigger] list.open_nodes@[i],
                ) {
                let i = choose|i: int|
                    0 <= i < list.open_nodes@.len() && same_node(
                        next,
                        #[trigger] list.open_nodes@[i],
                    );
                assert(inv_node(list.open_nodes@[i], splains, dplains, k));
                assert(inv_node(next, splains, dplains, k));
            } else {
                let i = choose|i: int|
                    0 <= i < list.close_nodes@.len() && same_node(
                        next,
                        #[trigger] list.close_nodes@[i],
                    );
                assert(inv_node(list.close_nodes@[i], splains, dplains, k));
                assert(inv_node(next, splains, dplains, k));
            }
            assert(next.current_idx == pid < walk.current_idx);
            assert(stored_in(list.open_nodes@, list.close_nodes@, next));
            assert(parent_link_ok(walk, next));
            assert(is_gamma_move(state_plains(next.state@), state_plains(walk.state@)));
            assert(enc_path@.last().state@ == walk.state@);
            assert(enc_path@.last().parent_idx == next.current_idx);
            // the parent is an expanded node, so its state differs
            // from the walker's: the walker is the goal (and an
            // expanded state never is), or was itself expanded
            assert(has_child_in(list.open_nodes@, list.close_nodes@, next.current_idx))
                by {
                if exists|i: int|
                    0 <= i < list.open_nodes@.len() && same_node(
                        walk,
                        #[trigger] list.open_nodes@[i],
                    ) {
                    let i = choose|i: int|
                        0 <= i < list.open_nodes@.len() && same_node(
                            walk,
                            #[trigger] list.open_nodes@[i],
                        );
                    assert(list.open_nodes@[i].parent_idx == next.current_idx);
                } else {
                    let i = choose|i: int|
                        0 <= i < list.close_nodes@.len() && same_node(
                            walk,
                            #[trigger] list.close_nodes@[i],
                        );
                    assert(list.close_nodes@[i].parent_idx == next.current_idx);
                }
            }
            if enc_path@.len() == 1 {
                assert(state_plains(walk.state@) == dplains);
                assert(state_plains(next.state@) != dplains);
            } else {
                let prev = enc_path@[enc_path@.len() - 2];
                assert(stored_in(list.open_nodes@, list.close_nodes@, prev));
                assert(prev.parent_idx == walk.current_idx);
                assert(has_child_in(
                    list.open_nodes@,
                    list.close_nodes@,
                    walk.current_idx,
                )) by {
                    if exists|i: int|
                        0 <= i < list.open_nodes@.len() && same_node(
                            prev,
                            #[trigger] list.open_nodes@[i],
                        ) {
                        let i = choose|i: int|
                            0 <= i < list.open_nodes@.len() && same_node(
                                prev,
                                #[trigger] list.open_nodes@[i],
                            );
                        assert(list.open_nodes@[i].parent_idx == walk.current_idx);
                    } else {
                        let i = choose|i: int|
                            0 <= i < list.close_nodes@.len() && same_node(
                                prev,
                                #[trigger] list.close_nodes@[i],
                            );
                        assert(list.close_nodes@[i].parent_idx == walk.current_idx);
                    }
                }
                assert(state_plains(walk.state@) != state_plains(next.state@));
            }
        }
        walk = next;
    }
}

/// Re-establishes every frontier invariant after one node is moved from
/// the open to the closed set, on the frontier's contents alone.
#[verifier::rlimit(100)]
proof fn lemma_after_move(
    open0: Seq<Node>,
    close0: Seq<Node>,
    open1: Seq<Node>,
    close1: Seq<Node>,
    curr: Node,
    oi: int,
    seen0: Set<Seq<i8>>,
    seen1: Set<Seq<i8>>,
    splains: Seq<i8>,
    dplains: Seq<i8>,
    k: u64,
)
    requires
        frontier_inv_seqs(open0, close0, splains, dplains, k),
        expanded_inv(open0, close0, seen0, dplains),
        forall|t: Seq<i8>| seen0.contains(t) ==> #[trigger] seen1.contains(t),
        0 <= oi < open0.len(),
        same_node(curr, open0[oi]),
        open1.len() == open0.len() - 1,
        forall|n: Node| #[trigger] open1.to_multiset().count(n) <= open0.to_multiset().count(n),
        ids_of(open1).to_multiset() == ids_of(open0).to_multiset().remove(curr.current_idx),
        close1.len() == close0.len() + 1,
        close1.drop_last() == close0,
        same_node(close1.last(), curr),
        ids_of(close1) == ids_of(close0).push(curr.current_idx),
    ensures
        frontier_inv_seqs(open1, close1, splains, dplains, k),
        id_count(open1, curr.current_idx) == 0,
        id_count(close1, curr.current_idx) == 1,
        forall|x: Node| #[trigger] stored_in(open1, close1, x) ==> stored_in(open0, close0, x),
{
    let total0 = open0.len() + close0.len() as int;
    lemma_counts_transfer(open0, open1, |n: Node| inv_node(n, splains, dplains, k));
    lemma_counts_transfer(open0, open1, |n: Node| n.current_idx <= total0);
    lemma_counts_transfer(
        open0,
        open1,
        |n: Node| n.current_idx != 1 ==> resolvable_in(open0, close0, n.parent_idx),
    );
    assert(same_node(close1.last(), curr));
    assert(inv_node(close1.last(), splains, dplains, k));
    assert forall|i: int| 0 <= i < close1.len() implies inv_node(
        #[trigger] close1[i],
        splains,
        dplains,
        k,
    ) && close1[i].current_idx <= total0 && (close1[i].current_idx != 1
        ==> resolvable_in(open0, close0, close1[i].parent_idx)) by {
        if i < close1.len() - 1 {
            assert(close1[i] == close0[i]);
        } else {
            assert(curr.current_idx != 1 ==> resolvable_in(
                open0,
                close0,
                curr.parent_idx,
            ));
        }
    }
    // per-identity counts are preserved by the move
    assert forall|id: i32|
        #[trigger] id_count(open1, id) + id_count(close1, id) == id_count(open0, id)
            + id_count(close0, id) by {
        assert(ids_of(close1).to_multiset() =~= ids_of(close0).to_multiset().insert(
            curr.current_idx,
        ));
        assert(ids_of(open1).to_multiset() == ids_of(open0).to_multiset().remove(
            curr.current_idx,
        ));
        if id == curr.current_idx {
            lemma_has_id_count(open0, id);
            assert(has_id(open0, id));
        }
    }
    // every identity that resolved before still resolves
    assert forall|i: int|
        0 <= i < open1.len() && (#[trigger] open1[i]).current_idx != 1
            implies resolvable_in(open1, close1, open1[i].parent_idx) by {
        lemma_resolvable_mono(open0, close0, open1, close1, open1[i].parent_idx);
    }
    assert forall|i: int|
        0 <= i < close1.len() && (#[trigger] close1[i]).current_idx != 1
            implies resolvable_in(open1, close1, close1[i].parent_idx) by {
        lemma_resolvable_mono(open0, close0, open1, close1, close1[i].parent_idx);
    }
    assert(open1.len() + close1.len() == total0);
    // stored nodes after the move were stored before it
    assert forall|x: Node| #[trigger] stored_in(open1, close1, x) implies stored_in(
        open0,
        close0,
        x,
    ) by {
        if exists|i: int| 0 <= i < open1.len() && same_node(x, #[trigger] open1[i]) {
            let i = choose|i: int|
                0 <= i < open1.len() && same_node(x, #[trigger] open1[i]);
            assert(open1.contains(open1[i]));
            assert(open1.to_multiset().count(open1[i]) > 0);
            assert(open0.to_multiset().count(open1[i]) > 0);
            assert(open0.contains(open1[i]));
            let j = choose|j: int| 0 <= j < open0.len() && open0[j] == open1[i];
            assert(same_node(x, open0[j]));
        } else {
            let i = choose|i: int|
                0 <= i < close1.len() && same_node(x, #[trigger] close1[i]);
            if i < close1.len() - 1 {
                assert(close1[i] == close0[i]);
                assert(same_node(x, close0[i]));
            } else {
                assert(same_node(close1[i], curr));
                assert(same_node(curr, open0[oi]));
                assert(same_node(x, open0[oi]));
            }
        }
    }
    assert forall|n: Node, m: Node|
        #[trigger] stored_in(open1, close1, n) && #[trigger] stored_in(
        open1,
        close1,
        m,
    ) implies parent_link_ok(n, m) by {
        assert(stored_in(open0, close0, n));
        assert(stored_in(open0, close0, m));
    }
    // the moved identity now sits in the closed set alone
    lemma_has_id_count(open0, curr.current_idx);
    assert(id_count(open0, curr.current_idx) >= 1);
    assert(id_count(open0, curr.current_idx) + id_count(
        close0,
        curr.current_idx,
    ) <= 1);
    assert(ids_of(close1).to_multiset() =~= ids_of(close0).to_multiset().insert(
        curr.current_idx,
    ));
    assert(id_count(open1, curr.current_idx) == 0);
    assert(id_count(close1, curr.current_idx) == 1);
    assert(frontier_inv_seqs(open1, close1, splains, dplains, k));
}

/// Re-establishes the expansion bookkeeping after one node is moved from
/// the open to the closed set.
#[verifier::rlimit(100)]
proof fn lemma_after_move_expanded(
    open0: Seq<Node>,
    close0: Seq<Node>,
    open1: Seq<Node>,
    close1: Seq<Node>,
    curr: Node,
    oi: int,
    seen0: Set<Seq<i8>>,
    seen1: Set<Seq<i8>>,
    dplains: Seq<i8>,
)
    requires
        expanded_inv(open0, close0, seen0, dplains),
        forall|t: Seq<i8>| seen0.contains(t) ==> #[trigger] seen1.contains(t),
        0 <= oi < open0.len(),
        same_node(curr, open0[oi]),
        forall|n: Node| #[trigger] open1.to_multiset().count(n) <= open0.to_multiset().count(n),
        close1.len() == close0.len() + 1,
        close1.drop_last() == close0,
        same_node(close1.last(), curr),
        forall|x: Node| #[trigger] stored_in(open1, close1, x) ==> stored_in(open0, close0, x),
    ensures
        expanded_inv(open1, close1, seen1, dplains),
{
    // expansion markers carry back to before the move
    assert forall|id: i32|
        #[trigger] has_child_in(open1, close1, id) implies has_child_in(
        open0,
        close0,
        id,
    ) by {
        if exists|i: int|
            0 <= i < open1.len() && #[trigger] open1[i].parent_idx == id {
            let i = choose|i: int|
                0 <= i < open1.len() && #[trigger] open1[i].parent_idx == id;
            assert(open1.contains(open1[i]));
            assert(open1.to_multiset().count(open1[i]) > 0);
            assert(open0.to_multiset().count(open1[i]) > 0);
            assert(open0.contains(open1[i]));
            let w = choose|w: int| 0 <= w < open0.len() && open0[w] == open1[i];
            assert(open0[w].parent_idx == id);
        } else {
            let i = choose|i: int|
                0 <= i < close1.len() && #[trigger] close1[i].parent_idx == id;
            if i < close1.len() - 1 {
                assert(close0[i].parent_idx == id);
            } else {
                assert(same_node(close1[i], curr));
                assert(open0[oi].parent_idx == id);
            }
        }
    }
    assert forall|n: Node|
        #[trigger] stored_in(open1, close1, n) && has_child_in(
        open1,
        close1,
        n.current_idx,
    ) implies state_plains(n.state@) != dplains && seen1.contains(
        state_plains(n.state@),
    ) by {
        assert(stored_in(open0, close0, n));
        assert(seen0.contains(state_plains(n.state@)));
    }
    assert forall|n: Node, m: Node|
        #[trigger] stored_in(open1, close1, n) && #[trigger] stored_in(
        open1,
        close1,
        m,
    ) && has_child_in(open1, close1, n.current_idx) && m.current_idx == n.parent_idx
        implies state_plains(n.state@) != state_plains(m.state@) by {
        assert(stored_in(open0, close0, n));
        assert(stored_in(open0, close0, m));
    }
    assert(expanded_inv(open1, close1, seen1, dplains));
}

/// Run the whole search: starting from the encrypted start state, select
/// the open node with minimum priority, resolve its identity through the
/// oracle, detect duplicates and the goal on decrypted checkpoints, move
/// the node to the closed set, expand first-time visits, and loop; on the
/// goal, walk the parent links back to the root and return the decrypted
/// path.  The returned path always begins at the start state and ends at
/// the goal state; the search fails only by exhaustion (the open set ran
/// dry, or the public identity space was spent).
#[verifier::rlimit(100)]
pub fn run_search(
    enc_start: &Vec<EncVal>,
    enc_desti: &Vec<EncVal>,
    oracle: &mut ClientOracle,
) -> (r: Result<Vec<Vec<i8>>, SearchError>)
    requires
        enc_start@.len() == 9,
        enc_desti@.len() == 9,
        state_under(enc_start@, old(oracle).key.id),
    ensures
        final(oracle).key == old(oracle).key,
        match r {
            Ok(path) => {
                &&& path@.len() >= 1
                &&& path@[0]@ == state_plains(enc_start@)
                &&& path@[path@.len() - 1]@ == state_plains(enc_desti@)
                &&& (forall|i: int| 0 <= i < path@.len() ==> (#[trigger] path@[i]@).len() == 9)
                &&& (forall|i: int|
                    0 <= i < path@.len() - 1 ==> is_gamma_move(
                        #[trigger] path@[i]@,
                        path@[i + 1]@,
                    ))
                &&& (has_single_blank(state_plains(enc_start@)) ==> (forall|i: int|
                    0 <= i < path@.len() ==> has_single_blank(#[trigger] path@[i]@)) && (
                forall|i: int|
                    0 <= i < path@.len() - 1 ==> is_real_move(
                        #[trigger] path@[i]@,
                        path@[i + 1]@,
                    )))
            },
            Err(e) => e == SearchError::SearchExhausted,
        },
        state_plains(enc_start@) == state_plains(enc_desti@) ==> r is Ok,
{
    let ghost k = oracle.key.id;
    let ghost splains = state_plains(enc_start@);
    let ghost dplains = state_plains(enc_desti@);

    let enc_zero = encrypt_trivial(0);
    let enc_one = encrypt_trivial(1);

    let mut list = List::new();
    let mut root = Node::new(
        crate::state::copy_state(enc_start),
        enc_zero,
        1,
        -1,
        enc_zero,
        enc_one,
    );
    root.heuristic(enc_desti);
    list.push_open(&root);

    proof {
        assert forall|id: i32|
            #[trigger] id_count(list.open_nodes@, id) + id_count(list.close_nodes@, id)
                <= 1 by {
            let ids1 = ids_of(list.open_nodes@);
            let ids0 = ids_of(Seq::<Node>::empty());
            assert(forall|x: i32| !ids0.contains(x));
            assert(forall|x: i32| ids0.to_multiset().count(x) == 0);
            assert(ids1.to_multiset() =~= ids0.to_multiset().insert(1i32));
            assert(forall|x: i32| !ids_of(list.close_nodes@).contains(x));
        }
        assert forall|n: Node, m: Node|
            #[trigger] stored_in(list.open_nodes@, list.close_nodes@, n) && #[trigger] stored_in(
            list.open_nodes@,
            list.close_nodes@,
            m,
        ) implies parent_link_ok(n, m) by {
            assert(n.parent_idx == -1);
            assert(m.current_idx == 1);
        }
        assert(frontier_inv(list, splains, dplains, k));
        if splains == dplains {
            lemma_hamming_self(splains, 9);
        }
        // nothing has been expanded yet
        assert forall|n: Node|
            #[trigger] stored_in(list.open_nodes@, list.close_nodes@, n) && has_child_in(
            list.open_nodes@,
            list.close_nodes@,
            n.current_idx,
        ) implies false by {
            assert(n.current_idx == 1);
            if exists|i: int|
                0 <= i < list.open_nodes@.len() && #[trigger] list.open_nodes@[i].parent_idx
                    == n.current_idx {
                let i = choose|i: int|
                    0 <= i < list.open_nodes@.len() && #[trigger] list.open_nodes@[i].parent_idx
                        == n.current_idx;
                assert(list.open_nodes@[i].parent_idx == -1);
            }
        }
        assert(expanded_inv(list.open_nodes@, list.close_nodes@, oracle.seen_set(), dplains));
    }

    loop
        invariant
            oracle.key == old(oracle).key,
            k == oracle.key.id,
            enc_desti@.len() == 9,
            dplains == state_plains(enc_desti@),
            splains == state_plains(enc_start@),
            splains.len() == 9,
            dplains.len() == 9,
            frontier_inv(list, splains, dplains, k),
            expanded_inv(list.open_nodes@, list.close_nodes@, oracle.seen_set(), dplains),
            list.open_nodes@.len() + list.close_nodes@.len() <= i32::MAX,
            // a search whose start already equals the goal stops in its
            // first iteration, so the root alone is ever stored
            splains == dplains ==> list.close_nodes@.len() == 0 && list.open_nodes@.len() == 1
                && state_plains(list.open_nodes@[0].state@) == splains
                && list.open_nodes@[0].h.plain == 0,
        decreases 2 * ((i32::MAX as int) - list.open_nodes@.len() - list.close_nodes@.len())
            + list.open_nodes@.len(),
    {
        let ghost open0 = list.open_nodes@;
        let ghost close0 = list.close_nodes@;
        let ghost total0 = open0.len() + close0.len() as int;
        let ghost seen0 = oracle.seen_set();

        if list.get_open().len() == 0 {
            return Err(SearchError::SearchExhausted);
        }

        // SELECT: encrypted identity of the minimum-priority open node
        let enc_min_idx = compare_cost(list.get_open());
        let ghost wi = choose|i: int|
            is_first_min(open0, i) && enc_min_idx.plain == #[trigger] open0[i].current_idx;

        // RESOLVE: the client oracle decrypts the identity
        let min_idx = match oracle.resolve_identity(&enc_min_idx) {
            Ok(v) => v,
            Err(_) => {
                proof {
                    assert(false);
                }
                return Err(SearchError::SearchExhausted);
            },
        };

        let curr_node = match list.get_from_idx(min_idx) {
            Ok(n) => n,
            Err(_) => {
                proof {
                    assert(open0[wi].current_idx == min_idx);
                    assert(has_id(open0, min_idx));
                    assert(false);
                }
                return Err(SearchError::SearchExhausted);
            },
        };
        proof {
            // the node with this identity sits in the open set, uniquely
            assert(open0[wi].current_idx == min_idx);
            assert(has_id(open0, min_idx));
            lemma_has_id_count(open0, min_idx);
            if exists|i: int|
                0 <= i < close0.len() && same_node(curr_node, #[trigger] close0[i]) {
                let ci = choose|i: int|
                    0 <= i < close0.len() && same_node(curr_node, #[trigger] close0[i]);
                assert(close0[ci].current_idx == min_idx);
                assert(has_id(close0, min_idx));
                lemma_has_id_count(close0, min_idx);
                assert(id_count(open0, min_idx) + id_count(close0, min_idx) <= 1);
                assert(false);
            }
        }
        let ghost oi = choose|i: int|
            0 <= i < open0.len() && same_node(curr_node, #[trigger] open0[i]);
        proof {
            assert(inv_node(open0[oi], splains, dplains, k));
            assert(inv_node(curr_node, splains, dplains, k));
            assert(curr_node.current_idx <= total0);
        }

        // CHECK: decrypt the state for duplicate detection, and the
        // heuristic for the goal test
        let enc_state = curr_node.get_state();
        let dec_state = match oracle.resolve_state(&enc_state) {
            Ok(v) => v,
            Err(_) => {
                proof {
                    assert(false);
                }
                return Err(SearchError::SearchExhausted);
            },
        };
        let pass_sign = oracle.record_state(&dec_state);

        let enc_h = curr_node.get_h();
        let dec_h = match oracle.resolve_scalar(&enc_h) {
            Ok(v) => v,
            Err(_) => {
                proof {
                    assert(false);
                }
                return Err(SearchError::SearchExhausted);
            },
        };

        if dec_h == 0 {
            // goal reached: the zero heuristic certifies state == goal
            proof {
                lemma_hamming_bounds(state_plains(curr_node.state@), dplains, 9);
                lemma_hamming_zero_iff(state_plains(curr_node.state@), dplains, 9);
                assert(state_plains(curr_node.state@) =~= dplains);
                assert(stored_in(list.open_nodes@, list.close_nodes@, curr_node));
                // the memoization only grew this iteration
                assert forall|n: Node|
                    #[trigger] stored_in(list.open_nodes@, list.close_nodes@, n)
                        && has_child_in(
                        list.open_nodes@,
                        list.close_nodes@,
                        n.current_idx,
                    ) implies state_plains(n.state@) != dplains && oracle.seen_set().contains(
                    state_plains(n.state@),
                ) by {
                    assert(seen0.contains(state_plains(n.state@)));
                }
                assert(expanded_inv(
                    list.open_nodes@,
                    list.close_nodes@,
                    oracle.seen_set(),
                    dplains,
                ));
            }
            return reconstruct_path(&list, &*oracle, curr_node, Ghost(splains), Ghost(dplains));
        }

        // move the current node to the closed set
        list.mv_open_to_close(&curr_node);

        let ghost open1 = list.open_nodes@;
        let ghost close1 = list.close_nodes@;
        proof {
            lemma_after_move(
                open0,
                close0,
                open1,
                close1,
                curr_node,
                oi,
                seen0,
                oracle.seen_set(),
                splains,
                dplains,
                k,
            );
            lemma_after_move_expanded(
                open0,
                close0,
                open1,
                close1,
                curr_node,
                oi,
                seen0,
                oracle.seen_set(),
                dplains,
            );
            assert(frontier_inv(list, splains, dplains, k));
        }

        if !pass_sign {
            // first-time visit: expand with identities seeded from the
            // current frontier size
            let size = list.get_list_size();
            if size > i32::MAX - 5 {
                proof {
                    if splains == dplains {
                        assert(curr_node.h == open0[0].h);
                        assert(false);
                    }
                }
                return Err(SearchError::SearchExhausted);
            }
            let childnode_set = gamma_operation(&curr_node, size + 1, enc_desti);

            proof {
                // the expanded node is not the goal, is memoized, and is no
                // duplicate of its own parent
                lemma_hamming_bounds(state_plains(curr_node.state@), dplains, 9);
                lemma_hamming_zero_iff(state_plains(curr_node.state@), dplains, 9);
                if state_plains(curr_node.state@) == dplains {
                    assert(forall|i: int|
                        0 <= i < 9 ==> state_plains(curr_node.state@)[i] == dplains[i]);
                    assert(false);
                }
                assert(oracle.seen_set().contains(state_plains(curr_node.state@)));
                assert forall|m: Node|
                    #[trigger] stored_in(open1, close1, m) && m.current_idx
                        == curr_node.parent_idx implies state_plains(m.state@) != state_plains(
                    curr_node.state@,
                ) by {
                    if curr_node.current_idx != 1 {
                        assert(stored_in(open0, close0, m));
                        assert(open0[oi].parent_idx == m.current_idx);
                        assert(has_child_in(open0, close0, m.current_idx));
                        assert(stored_in(open0, close0, m) && has_child_in(
                            open0,
                            close0,
                            m.current_idx,
                        ));
                        assert(seen0.contains(state_plains(m.state@)));
                        assert(!seen0.contains(state_plains(curr_node.state@)));
                    } else {
                        assert(curr_node.parent_idx == -1);
                        if exists|i: int|
                            0 <= i < open1.len() && same_node(m, #[trigger] open1[i]) {
                            let i = choose|i: int|
                                0 <= i < open1.len() && same_node(m, #[trigger] open1[i]);
                            assert(inv_node(open1[i], splains, dplains, k));
                            assert(false);
                        } else {
                            let i = choose|i: int|
                                0 <= i < close1.len() && same_node(m, #[trigger] close1[i]);
                            assert(inv_node(close1[i], splains, dplains, k));
                            assert(false);
                        }
                    }
                }
            }

            let mut j: usize = 0;
            while j < 4
                invariant
                    oracle.key == old(oracle).key,
                    k == oracle.key.id,
                    enc_desti@.len() == 9,
                    dplains == state_plains(enc_desti@),
                    splains.len() == 9,
                    dplains.len() == 9,
                    j <= 4,
                    size == total0,
                    size <= i32::MAX - 5,
                    inv_node(curr_node, splains, dplains, k),
                    1 <= curr_node.current_idx <= size,
                    childnode_set@.len() == 4,
                    forall|d: int|
                        0 <= d < 4 ==> child_ok(
                            #[trigger] childnode_set@[d],
                            curr_node,
                            enc_desti@,
                            size + 1 + d,
                            offset_spec(d),
                        ),
                    frontier_inv(list, splains, dplains, k),
                    list.open_nodes@.len() + list.close_nodes@.len() == total0 + j,
                    list.close_nodes@ == close1,
                    has_id(close1, curr_node.current_idx),
                    id_count(list.open_nodes@, curr_node.current_idx) == 0,
                    id_count(close1, curr_node.current_idx) == 1,
                    close1.len() >= 1,
                    same_node(close1[close1.len() - 1], curr_node),
                    expanded_inv(list.open_nodes@, close1, oracle.seen_set(), dplains),
                    state_plains(curr_node.state@) != dplains,
                    oracle.seen_set().contains(state_plains(curr_node.state@)),
                    forall|m: Node|
                        #[trigger] stored_in(list.open_nodes@, close1, m) && m.current_idx
                            == curr_node.parent_idx ==> state_plains(m.state@) != state_plains(
                            curr_node.state@,
                        ),
                    forall|i: int|
                        0 <= i < list.open_nodes@.len()
                            ==> #[trigger] list.open_nodes@[i].current_idx <= total0 + j,
                decreases 4 - j,
            {
                let ghost opa = list.open_nodes@;
                let ghost child = childnode_set@[j as int];
                let ghost newid = size + 1 + j as int;
                proof {
                    // the child is a well-formed node with a fresh identity
                    assert(child_ok(child, curr_node, enc_desti@, newid, offset_spec(j as int)));
                    assert(state_under(child.state@, k)) by {
                        assert forall|c: int|
                            0 <= c < child.state@.len() implies crate::enc::under_key(
                            #[trigger] child.state@[c],
                            k,
                        ) by {
                            assert(curr_node.state@.contains(child.state@[c]));
                            let w = choose|w: int|
                                0 <= w < curr_node.state@.len() && curr_node.state@[w]
                                    == child.state@[c];
                            assert(crate::enc::under_key(curr_node.state@[w], k));
                        }
                    }
                    assert(inv_node(child, splains, dplains, k));
                }
                list.push_open(&childnode_set[j]);
                proof {
                    let opb = list.open_nodes@;
                    assert(opb.drop_last() == opa);
                    assert forall|i: int| 0 <= i < opb.len() implies inv_node(
                        #[trigger] opb[i],
                        splains,
                        dplains,
                        k,
                    ) && opb[i].current_idx <= total0 + j + 1 by {
                        if i < opb.len() - 1 {
                            assert(opb[i] == opa[i]);
                        } else {
                            assert(same_node(opb[i], child));
                        }
                    }
                    // the fresh identity was absent, so counts stay below two
                    assert forall|id: i32|
                        #[trigger] id_count(opb, id) + id_count(close1, id) <= 1 by {
                        assert(id_count(opa, id) + id_count(close1, id) <= 1);
                        assert(ids_of(opb).to_multiset() =~= ids_of(opa).to_multiset().insert(
                            child.current_idx,
                        ));
                        if id == child.current_idx {
                            lemma_has_id_count(opa, id);
                            lemma_has_id_count(close1, id);
                            if has_id(opa, id) {
                                let w = choose|w: int|
                                    0 <= w < opa.len() && #[trigger] opa[w].current_idx == id;
                                assert(opa[w].current_idx <= total0 + j);
                                assert(false);
                            }
                            if has_id(close1, id) {
                                let w = choose|w: int|
                                    0 <= w < close1.len() && #[trigger] close1[w].current_idx
                                        == id;
                                assert(close1[w].current_idx <= total0);
                                assert(false);
                            }
                        }
                    }
                    // resolvability is monotone under a push
                    assert forall|i: int|
                        0 <= i < opb.len() && (#[trigger] opb[i]).current_idx != 1
                            implies resolvable_in(opb, close1, opb[i].parent_idx) by {
                        if i < opb.len() - 1 {
                            assert(resolvable_in(opa, close1, opa[i].parent_idx));
                            if has_id(opa, opa[i].parent_idx) {
                                let pidx = opa[i].parent_idx;
                                let w = choose|w: int|
                                    0 <= w < opa.len() && #[trigger] opa[w].current_idx == pidx;
                                assert(opb[w].current_idx == opa[i].parent_idx);
                            }
                        } else {
                            assert(opb[i].parent_idx == curr_node.current_idx);
                            assert(has_id(close1, opb[i].parent_idx));
                        }
                    }
                    assert forall|i: int|
                        0 <= i < close1.len() && (#[trigger] close1[i]).current_idx != 1
                            implies resolvable_in(opb, close1, close1[i].parent_idx) by {
                        if has_id(opa, close1[i].parent_idx) {
                            let pidx = close1[i].parent_idx;
                            let w = choose|w: int|
                                0 <= w < opa.len() && #[trigger] opa[w].current_idx == pidx;
                            assert(opb[w].current_idx == close1[i].parent_idx);
                        }
                    }
                    // the fresh child never collides with the moved identity
                    assert(ids_of(opb).to_multiset() =~= ids_of(opa).to_multiset().insert(
                        child.current_idx,
                    ));
                    assert(id_count(opb, curr_node.current_idx) == 0);
                    // a node stored after the push was stored before, or is
                    // the pushed child
                    assert forall|x: Node| #[trigger] stored_in(opb, close1, x) implies stored_in(
                        opa,
                        close1,
                        x,
                    ) || same_node(x, child) by {
                        if exists|i: int| 0 <= i < opb.len() && same_node(x, #[trigger] opb[i]) {
                            let i = choose|i: int|
                                0 <= i < opb.len() && same_node(x, #[trigger] opb[i]);
                            if i < opb.len() - 1 {
                                assert(opb[i] == opa[i]);
                                assert(same_node(x, opa[i]));
                            } else {
                                assert(same_node(opb[i], child));
                            }
                        }
                    }
                    assert forall|n: Node, m: Node|
                        #[trigger] stored_in(opb, close1, n) && #[trigger] stored_in(
                        opb,
                        close1,
                        m,
                    ) implies parent_link_ok(n, m) by {
                        let stored_n = stored_in(opa, close1, n);
                        let stored_m = stored_in(opa, close1, m);
                        if stored_n && stored_m {
                            assert(parent_link_ok(n, m));
                        } else if !stored_n && stored_m {
                            // n is the pushed child
                            assert(same_node(n, child));
                            if m.current_idx == n.parent_idx {
                                // m carries the parent's identity, so it is
                                // the node just moved to the closed set
                                assert(m.current_idx == curr_node.current_idx);
                                if exists|i: int|
                                    0 <= i < opa.len() && same_node(m, #[trigger] opa[i]) {
                                    let i = choose|i: int|
                                        0 <= i < opa.len() && same_node(m, #[trigger] opa[i]);
                                    lemma_has_id_count(opa, m.current_idx);
                                    assert(false);
                                } else {
                                    let i = choose|i: int|
                                        0 <= i < close1.len() && same_node(
                                            m,
                                            #[trigger] close1[i],
                                        );
                                    if i < close1.len() - 1 {
                                        crate::list::lemma_id_count_two(
                                            close1,
                                            i,
                                            close1.len() - 1,
                                        );
                                        assert(false);
                                    }
                                    assert(same_node(close1[i], curr_node));
                                    assert(state_plains(m.state@) == state_plains(
                                        curr_node.state@,
                                    ));
                                    assert(state_plains(n.state@) == child_spec(
                                        state_plains(curr_node.state@),
                                        offset_spec(j as int),
                                    ));
                                    assert(is_gamma_move(
                                        state_plains(m.state@),
                                        state_plains(n.state@),
                                    ));
                                }
                            }
                        } else if stored_n && !stored_m {
                            // the fresh identity exceeds every stored
                            // parent reference
                            assert(same_node(m, child));
                            if m.current_idx == n.parent_idx {
                                if exists|i: int|
                                    0 <= i < opa.len() && same_node(n, #[trigger] opa[i]) {
                                    let i = choose|i: int|
                                        0 <= i < opa.len() && same_node(n, #[trigger] opa[i]);
                                    assert(inv_node(opa[i], splains, dplains, k));
                                    assert(opa[i].current_idx <= total0 + j);
                                    assert(false);
                                } else {
                                    let i = choose|i: int|
                                        0 <= i < close1.len() && same_node(
                                            n,
                                            #[trigger] close1[i],
                                        );
                                    assert(inv_node(close1[i], splains, dplains, k));
                                    assert(close1[i].current_idx <= total0 + j);
                                    assert(false);
                                }
                            }
                        } else {
                            assert(same_node(n, child));
                            assert(same_node(m, child));
                            assert(m.current_idx != n.parent_idx);
                        }
                    }
                    assert(frontier_inv(list, splains, dplains, k));
                    // expansion markers after the push: an old witness, or
                    // the pushed child naming the newly expanded node
                    assert forall|id: i32|
                        #[trigger] has_child_in(opb, close1, id) implies has_child_in(
                        opa,
                        close1,
                        id,
                    ) || id == curr_node.current_idx by {
                        if exists|i: int|
                            0 <= i < opb.len() && #[trigger] opb[i].parent_idx == id {
                            let i = choose|i: int|
                                0 <= i < opb.len() && #[trigger] opb[i].parent_idx == id;
                            if i < opb.len() - 1 {
                                assert(opa[i].parent_idx == id);
                            } else {
                                assert(same_node(opb[i], child));
                            }
                        }
                    }
                    assert forall|n: Node|
                        #[trigger] stored_in(opb, close1, n) && has_child_in(
                        opb,
                        close1,
                        n.current_idx,
                    ) implies state_plains(n.state@) != dplains && oracle.seen_set().contains(
                        state_plains(n.state@),
                    ) by {
                        if same_node(n, child) {
                            // the fresh identity has no children yet
                            assert(n.current_idx == size + 1 + j);
                            if has_child_in(opa, close1, n.current_idx) {
                                if exists|i: int|
                                    0 <= i < opa.len() && #[trigger] opa[i].parent_idx
                                        == n.current_idx {
                                    let i = choose|i: int|
                                        0 <= i < opa.len() && #[trigger] opa[i].parent_idx
                                            == n.current_idx;
                                    assert(inv_node(opa[i], splains, dplains, k));
                                    assert(opa[i].current_idx <= total0 + j);
                                    assert(false);
                                } else {
                                    let i = choose|i: int|
                                        0 <= i < close1.len() && #[trigger] close1[i].parent_idx
                                            == n.current_idx;
                                    assert(inv_node(close1[i], splains, dplains, k));
                                    assert(close1[i].current_idx <= total0);
                                    assert(false);
                                }
                            }
                            assert(false);
                        } else if n.current_idx == curr_node.current_idx {
                            // n carries the moved identity: it is the node
                            // just moved to the closed set
                            if exists|i: int|
                                0 <= i < opa.len() && same_node(n, #[trigger] opa[i]) {
                                let i = choose|i: int|
                                    0 <= i < opa.len() && same_node(n, #[trigger] opa[i]);
                                lemma_has_id_count(opa, n.current_idx);
                                assert(false);
                            } else {
                                let i = choose|i: int|
                                    0 <= i < close1.len() && same_node(n, #[trigger] close1[i]);
                                if i < close1.len() - 1 {
                                    crate::list::lemma_id_count_two(
                                        close1,
                                        i,
                                        close1.len() - 1,
                                    );
                                    assert(false);
                                }
                                assert(same_node(n, curr_node));
                            }
                        } else {
                            assert(stored_in(opa, close1, n));
                            assert(has_child_in(opa, close1, n.current_idx));
                        }
                    }
                    assert forall|n: Node, m: Node|
                        #[trigger] stored_in(opb, close1, n) && #[trigger] stored_in(
                        opb,
                        close1,
                        m,
                    ) && has_child_in(opb, close1, n.current_idx) && m.current_idx
                        == n.parent_idx implies state_plains(n.state@) != state_plains(
                        m.state@,
                    ) by {
                        assert(state_plains(n.state@) != dplains);  // from the clause above
                        if same_node(m, child) {
                            // nothing stored names the fresh identity as parent
                            assert(m.current_idx == size + 1 + j);
                            if stored_in(opa, close1, n) {
                                if exists|i: int|
                                    0 <= i < opa.len() && same_node(n, #[trigger] opa[i]) {
                                    let i = choose|i: int|
                                        0 <= i < opa.len() && same_node(n, #[trigger] opa[i]);
                                    assert(inv_node(opa[i], splains, dplains, k));
                                    assert(opa[i].current_idx <= total0 + j);
                                    assert(false);
                                } else {
                                    let i = choose|i: int|
                                        0 <= i < close1.len() && same_node(
                                            n,
                                            #[trigger] close1[i],
                                        );
                                    assert(inv_node(close1[i], splains, dplains, k));
                                    assert(close1[i].current_idx <= total0);
                                    assert(false);
                                }
                            } else {
                                assert(same_node(n, child));
                                assert(n.parent_idx == curr_node.current_idx <= size);
                                assert(false);
                            }
                        } else if n.current_idx == curr_node.current_idx && !stored_in(
                            opa,
                            close1,
                            n,
                        ) {
                            assert(same_node(n, child));
                            assert(false);
                        } else if n.current_idx == curr_node.current_idx {
                            // n is the newly expanded node; m is its parent
                            if exists|i: int|
                                0 <= i < opa.len() && same_node(n, #[trigger] opa[i]) {
                                let i = choose|i: int|
                                    0 <= i < opa.len() && same_node(n, #[trigger] opa[i]);
                                lemma_has_id_count(opa, n.current_idx);
                                assert(false);
                            } else {
                                let i = choose|i: int|
                                    0 <= i < close1.len() && same_node(n, #[trigger] close1[i]);
                                if i < close1.len() - 1 {
                                    crate::list::lemma_id_count_two(
                                        close1,
                                        i,
                                        close1.len() - 1,
                                    );
                                    assert(false);
                                }
                                assert(same_node(n, curr_node));
                            }
                            assert(stored_in(opa, close1, m));
                            assert(state_plains(m.state@) != state_plains(curr_node.state@));
                        } else {
                            assert(stored_in(opa, close1, n));
                            assert(stored_in(opa, close1, m));
                            assert(has_child_in(opa, close1, n.current_idx));
                        }
                    }
                    // the parent-difference fact survives the push
                    assert forall|m: Node|
                        #[trigger] stored_in(opb, close1, m) && m.current_idx
                            == curr_node.parent_idx implies state_plains(m.state@)
                        != state_plains(curr_node.state@) by {
                        if same_node(m, child) {
                            assert(curr_node.parent_idx < curr_node.current_idx <= size);
                            assert(false);
                        } else {
                            assert(stored_in(opa, close1, m));
                        }
                    }
                    assert(expanded_inv(opb, close1, oracle.seen_set(), dplains));
                }
                j += 1;
            }
        }
        proof {
            if splains == dplains {
                assert(curr_node.h == open0[0].h);
                assert(false);
            }
        }
    }
}

} // verus!
