//! Frontier bookkeeping: the open (pending) and closed (finalized) node
//! collections, indexed by public identities.

use vstd::prelude::*;

use crate::errors::SearchError;
use crate::node::{same_node, Node};

verus! {

broadcast use vstd::seq_lib::group_to_multiset_ensures, vstd::multiset::group_multiset_axioms;

/// The identities of a node sequence, in order.
pub open spec fn ids_of(s: Seq<Node>) -> Seq<i32> {
    s.map_values(|n: Node| n.current_idx)
}

/// Whether some node of the sequence carries the identity `id`.
pub open spec fn has_id(s: Seq<Node>, id: i32) -> bool {
    exists|i: int| 0 <= i < s.len() && #[trigger] s[i].current_idx == id
}

/// How many nodes of the sequence carry the identity `id`.
pub open spec fn id_count(s: Seq<Node>, id: i32) -> nat {
    ids_of(s).to_multiset().count(id)
}

/// An identity occurs in a sequence exactly when its count is positive.
pub proof fn lemma_has_id_count(s: Seq<Node>, id: i32)
    ensures
        has_id(s, id) <==> id_count(s, id) > 0,
{
    let ids = ids_of(s);
    if has_id(s, id) {
        let i = choose|i: int| 0 <= i < s.len() && #[trigger] s[i].current_idx == id;
        assert(ids[i] == id);
        assert(ids.contains(id));
    }
    if id_count(s, id) > 0 {
        assert(ids.contains(id));
        let i = choose|i: int| 0 <= i < ids.len() && ids[i] == id;
        assert(s[i].current_idx == id);
    }
}

/// Two distinct positions with the same identity force a count of at
/// least two.
pub proof fn lemma_id_count_two(s: Seq<Node>, i: int, j: int)
    requires
        0 <= i < j < s.len(),
        s[i].current_idx == s[j].current_idx,
    ensures
        id_count(s, s[i].current_idx) >= 2,
{
    let ids = ids_of(s);
    let id = s[i].current_idx;
    let rest = ids.remove(i);
    assert(rest.to_multiset() == ids.to_multiset().remove(ids[i]));
    assert(rest[j - 1] == ids[j]);
    assert(rest.contains(id));
    assert(rest.to_multiset().count(id) > 0);
}

/// The open/closed frontier.  The identity vectors run parallel to the
/// node vectors so that membership tests need no node traversal.
pub struct List {
    pub open_nodes: Vec<Node>,
    pub open_idx: Vec<i32>,
    pub close_nodes: Vec<Node>,
    pub close_idx: Vec<i32>,
}

/// First position holding `id`, if any.
fn find_pos(ids: &Vec<i32>, id: i32) -> (r: Option<usize>)
    ensures
        match r {
            Some(q) => q < ids@.len() && ids@[q as int] == id && (forall|j: int|
                0 <= j < q ==> ids@[j] != id),
            None => forall|j: int| 0 <= j < ids@.len() ==> ids@[j] != id,
        },
{
    let mut q: usize = 0;
    while q < ids.len()
        invariant
            q <= ids@.len(),
            forall|j: int| 0 <= j < q ==> ids@[j] != id,
        decreases ids@.len() - q,
    {
        if ids[q] == id {
            return Some(q);
        }
        q += 1;
    }
    None
}

impl List {
    /// The parallel vectors agree in length and in the identities they
    /// record.
    pub open spec fn wf(self) -> bool {
        &&& self.open_idx@.len() == self.open_nodes@.len()
        &&& self.close_idx@.len() == self.close_nodes@.len()
        &&& (forall|i: int|
            0 <= i < self.open_nodes@.len() ==> #[trigger] self.open_idx@[i]
                == self.open_nodes@[i].current_idx)
        &&& (forall|i: int|
            0 <= i < self.close_nodes@.len() ==> #[trigger] self.close_idx@[i]
                == self.close_nodes@[i].current_idx)
    }

    /// An empty frontier.
    pub fn new() -> (r: List)
        ensures
            r.wf(),
            r.open_nodes@.len() == 0,
            r.close_nodes@.len() == 0,
    {
        List {
            open_nodes: Vec::new(),
            open_idx: Vec::new(),
            close_nodes: Vec::new(),
            close_idx: Vec::new(),
        }
    }

    /// Append a node to the open set.
    pub fn push_open(&mut self, node: &Node)
        requires
            old(self).wf(),
        ensures
            final(self).wf(),
            final(self).open_nodes@.len() == old(self).open_nodes@.len() + 1,
            final(self).open_nodes@.drop_last() == old(self).open_nodes@,
            same_node(final(self).open_nodes@.last(), *node),
            ids_of(final(self).open_nodes@) == ids_of(old(self).open_nodes@).push(
                node.current_idx,
            ),
            final(self).close_nodes@ == old(self).close_nodes@,
            final(self).close_idx@ == old(self).close_idx@,
    {
        self.open_idx.push(node.current_idx);
        self.open_nodes.push(node.clone());
        proof {
            assert(self.open_nodes@.drop_last() =~= old(self).open_nodes@);
            assert(ids_of(self.open_nodes@) =~= ids_of(old(self).open_nodes@).push(
                node.current_idx,
            ));
        }
    }

    /// Append a node to the closed set.
    pub fn push_close(&mut self, node: &Node)
        requires
            old(self).wf(),
        ensures
            final(self).wf(),
            final(self).close_nodes@.len() == old(self).close_nodes@.len() + 1,
            final(self).close_nodes@.drop_last() == old(self).close_nodes@,
            same_node(final(self).close_nodes@.last(), *node),
            ids_of(final(self).close_nodes@) == ids_of(old(self).close_nodes@).push(
                node.current_idx,
            ),
            final(self).open_nodes@ == old(self).open_nodes@,
            final(self).open_idx@ == old(self).open_idx@,
    {
        self.close_idx.push(node.current_idx);
        self.close_nodes.push(node.clone());
        proof {
            assert(self.close_nodes@.drop_last() =~= old(self).close_nodes@);
            assert(ids_of(self.close_nodes@) =~= ids_of(old(self).close_nodes@).push(
                node.current_idx,
            ));
        }
    }

    /// Total count across open and closed, used only to allocate fresh
    /// public identities.
    pub fn get_list_size(&self) -> (r: i32)
        requires
            self.open_idx@.len() + self.close_idx@.len() <= i32::MAX,
        ensures
            r == self.open_idx@.len() + self.close_idx@.len(),
    {
        (self.open_idx.len() + self.close_idx.len()) as i32
    }

    /// Read-only view of the open set.
    pub fn get_open(&self) -> (r: &Vec<Node>)
        ensures
            r@ == self.open_nodes@,
    {
        &self.open_nodes
    }

    /// Copy of the closed set.
    pub fn get_close(&self) -> (r: Vec<Node>)
        ensures
            r@.len() == self.close_nodes@.len(),
            forall|i: int|
                0 <= i < r@.len() ==> same_node(#[trigger] r@[i], self.close_nodes@[i]),
    {
        let mut out: Vec<Node> = Vec::new();
        let mut i: usize = 0;
        while i < self.close_nodes.len()
            invariant
                i <= self.close_nodes@.len(),
                out@.len() == i,
                forall|j: int|
                    0 <= j < i ==> same_node(#[trigger] out@[j], self.close_nodes@[j]),
            decreases self.close_nodes@.len() - i,
        {
            out.push(self.close_nodes[i].clone());
            i += 1;
        }
        out
    }

    /// Look a node up by identity, searching open then closed.  A missing
    /// identity is a fatal internal-consistency violation.
    pub fn get_from_idx(&self, index: i32) -> (r: Result<Node, SearchError>)
        requires
            self.wf(),
        ensures
            match r {
                Ok(n) => n.current_idx == index && ((exists|i: int|
                    0 <= i < self.open_nodes@.len() && same_node(
                        n,
                        #[trigger] self.open_nodes@[i],
                    )) || (exists|i: int|
                    0 <= i < self.close_nodes@.len() && same_node(
                        n,
                        #[trigger] self.close_nodes@[i],
                    ))),
                Err(e) => e == SearchError::InternalConsistencyViolation(index) && !has_id(
                    self.open_nodes@,
                    index,
                ) && !has_id(self.close_nodes@, index),
            },
            (has_id(self.open_nodes@, index) || has_id(self.close_nodes@, index)) <==> r is Ok,
            // the open set is searched first
            has_id(self.open_nodes@, index) ==> (r matches Ok(n) && exists|i: int|
                0 <= i < self.open_nodes@.len() && same_node(n, #[trigger] self.open_nodes@[i])),
    {
        match find_pos(&self.open_idx, index) {
            Some(q) => {
                let n = self.open_nodes[q].clone();
                return Ok(n);
            },
            None => {},
        }
        match find_pos(&self.close_idx, index) {
            Some(q) => {
                proof {
                    if has_id(self.open_nodes@, index) {
                        let i = choose|i: int|
                            0 <= i < self.open_nodes@.len()
                                && #[trigger] self.open_nodes@[i].current_idx == index;
                        assert(self.open_idx@[i] == index);
                        assert(false);
                    }
                }
                let n = self.close_nodes[q].clone();
                return Ok(n);
            },
            None => {},
        }
        proof {
            if has_id(self.open_nodes@, index) {
                let i = choose|i: int|
                    0 <= i < self.open_nodes@.len() && #[trigger] self.open_nodes@[i].current_idx
                        == index;
                assert(self.open_idx@[i] == index);
                assert(false);
            }
            if has_id(self.close_nodes@, index) {
                let i = choose|i: int|
                    0 <= i < self.close_nodes@.len()
                        && #[trigger] self.close_nodes@[i].current_idx == index;
                assert(self.close_idx@[i] == index);
                assert(false);
            }
        }
        Err(SearchError::InternalConsistencyViolation(index))
    }

    /// Move a node from the open to the closed set.  Order inside the open
    /// set carries no meaning, so the removal may swap in the last entry.
    pub fn mv_open_to_close(&mut self, node: &Node)
        requires
            old(self).wf(),
            exists|p: int|
                0 <= p < old(self).open_nodes@.len() && same_node(
                    #[trigger] old(self).open_nodes@[p],
                    *node,
                ),
            id_count(old(self).open_nodes@, node.current_idx) <= 1,
        ensures
            final(self).wf(),
            final(self).open_nodes@.len() == old(self).open_nodes@.len() - 1,
            forall|n: Node|
                final(self).open_nodes@.to_multiset().count(n) <= old(
                    self,
                ).open_nodes@.to_multiset().count(n),
            ids_of(final(self).open_nodes@).to_multiset() == ids_of(
                old(self).open_nodes@,
            ).to_multiset().remove(node.current_idx),
            final(self).close_nodes@.len() == old(self).close_nodes@.len() + 1,
            final(self).close_nodes@.drop_last() == old(self).close_nodes@,
            same_node(final(self).close_nodes@.last(), *node),
            ids_of(final(self).close_nodes@) == ids_of(old(self).close_nodes@).push(
                node.current_idx,
            ),
    {
        let ghost open0 = self.open_nodes@;
        let ghost ids0 = ids_of(open0);
        match find_pos(&self.open_idx, node.current_idx) {
            None => {
                proof {
                    let p = choose|p: int|
                        0 <= p < open0.len() && same_node(#[trigger] open0[p], *node);
                    assert(self.open_idx@[p] == node.current_idx);
                    assert(false);
                }
            },
            Some(q) => {
                let _removed = self.open_nodes.swap_remove(q);
                let _rid = self.open_idx.swap_remove(q);
                proof {
                    let qi = q as int;
                    let last = open0.last();
                    let s1 = open0.update(qi, last);
                    assert(self.open_nodes@ == s1.drop_last());
                    assert(s1.to_multiset() == open0.to_multiset().insert(last).remove(
                        open0[qi],
                    ));
                    assert(s1.drop_last() =~= s1.remove(s1.len() - 1));
                    assert(s1[s1.len() - 1] == last);
                    assert(s1.remove(s1.len() - 1).to_multiset() == s1.to_multiset().remove(
                        last,
                    ));
                    assert(open0.contains(open0[qi]));
                    assert(open0.to_multiset().count(open0[qi]) > 0);
                    assert forall|n: Node|
                        self.open_nodes@.to_multiset().count(n) <= open0.to_multiset().count(
                            n,
                        ) by {
                        assert(self.open_nodes@.to_multiset().count(n) == open0.to_multiset()
                            .insert(last).remove(open0[qi]).remove(last).count(n));
                    }
                    // the same algebra on the identity sequence
                    let ids1 = ids_of(s1);
                    assert(ids_of(self.open_nodes@) =~= ids1.drop_last());
                    assert(ids1 =~= ids0.update(qi, ids0.last()));
                    assert(ids1.to_multiset() == ids0.to_multiset().insert(ids0.last()).remove(
                        ids0[qi],
                    ));
                    assert(ids1.drop_last() =~= ids1.remove(ids1.len() - 1));
                    assert(ids1[ids1.len() - 1] == ids0.last());
                    assert(ids1.remove(ids1.len() - 1).to_multiset() == ids1.to_multiset()
                        .remove(ids0.last()));
                    assert(ids0.contains(ids0[qi]));
                    assert(ids0[qi] == node.current_idx);
                    assert(ids_of(self.open_nodes@).to_multiset() =~= ids0.to_multiset().remove(
                        node.current_idx,
                    ));
                    // parallel index vector stays in step
                    assert forall|i: int|
                        0 <= i < self.open_nodes@.len() implies #[trigger] self.open_idx@[i]
                        == self.open_nodes@[i].current_idx by {
                        assert(self.open_idx@ =~= ids_of(open0).update(
                            qi,
                            ids_of(open0).last(),
                        ).drop_last());
                    }
                }
                self.push_close(node);
            },
        }
    }
}

} // verus!
