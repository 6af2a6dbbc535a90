//! The client oracle: the key-holding party consulted at well-defined
//! checkpoints to resolve values the control flow needs in plaintext, and
//! owner of the plaintext closed-state memoization used for duplicate
//! detection.

use vstd::prelude::*;

use crate::enc::{decrypt, decrypt_idx, idx_under_key, under_key, ClientKey, EncIdx, EncVal};
use crate::errors::SearchError;
use crate::state::{dec_vec, state_plains, state_under};

verus! {

/// Compare two plaintext vectors for equality.
fn vecs_equal(a: &Vec<i8>, b: &Vec<i8>) -> (r: bool)
    ensures
        r == (a@ == b@),
{
    if a.len() != b.len() {
        return false;
    }
    let mut i: usize = 0;
    while i < a.len()
        invariant
            i <= a@.len(),
            a@.len() == b@.len(),
            forall|j: int| 0 <= j < i ==> a@[j] == b@[j],
        decreases a@.len() - i,
    {
        if a[i] != b[i] {
            return false;
        }
        i += 1;
    }
    proof {
        assert(a@ =~= b@);
    }
    true
}

/// Duplicate a plaintext vector.
fn copy_plain(s: &Vec<i8>) -> (r: Vec<i8>)
    ensures
        r@ == s@,
{
    let mut r: Vec<i8> = Vec::new();
    let mut i: usize = 0;
    while i < s.len()
        invariant
            i <= s@.len(),
            r@ == s@.subrange(0, i as int),
        decreases s@.len() - i,
    {
        r.push(s[i]);
        proof {
            assert(r@ =~= s@.subrange(0, i + 1));
        }
        i += 1;
    }
    proof {
        assert(r@ =~= s@);
    }
    r
}

/// The key holder.  The memoization is owned by the oracle (scoped to one
/// search run), not ambient global state.
pub struct ClientOracle {
    pub key: ClientKey,
    pub seen: Vec<Vec<i8>>,
}

impl ClientOracle {
    /// The set of plaintext states recorded so far.
    pub open spec fn seen_set(self) -> Set<Seq<i8>> {
        Set::new(
            |t: Seq<i8>|
                exists|i: int| 0 <= i < self.seen@.len() && #[trigger] self.seen@[i]@ == t,
        )
    }

    /// An oracle with an empty memoization.
    pub fn new(key: ClientKey) -> (r: ClientOracle)
        ensures
            r.key == key,
            r.seen_set() == Set::<Seq<i8>>::empty(),
    {
        let r = ClientOracle { key, seen: Vec::new() };
        proof {
            assert(r.seen_set() =~= Set::<Seq<i8>>::empty());
        }
        r
    }

    /// Decrypt an encrypted node identity.
    pub fn resolve_identity(&self, e: &EncIdx) -> (r: Result<i32, SearchError>)
        ensures
            idx_under_key(*e, self.key.id) ==> r == Ok::<i32, SearchError>(e.plain),
            !idx_under_key(*e, self.key.id) ==> r == Err::<i32, SearchError>(
                SearchError::DecryptionFailure,
            ),
    {
        decrypt_idx(e, &self.key)
    }

    /// Decrypt a scalar (used for the goal check on the heuristic).
    pub fn resolve_scalar(&self, v: &EncVal) -> (r: Result<i8, SearchError>)
        ensures
            under_key(*v, self.key.id) ==> r == Ok::<i8, SearchError>(v.plain),
            !under_key(*v, self.key.id) ==> r == Err::<i8, SearchError>(
                SearchError::DecryptionFailure,
            ),
    {
        decrypt(v, &self.key)
    }

    /// Decrypt a whole state vector (used for duplicate detection and for
    /// the final path output).
    pub fn resolve_state(&self, s: &Vec<EncVal>) -> (r: Result<Vec<i8>, SearchError>)
        ensures
            state_under(s@, self.key.id) ==> (r matches Ok(v) && v@ == state_plains(s@)),
            !state_under(s@, self.key.id) ==> r == Err::<Vec<i8>, SearchError>(
                SearchError::DecryptionFailure,
            ),
    {
        dec_vec(s, &self.key)
    }

    /// Record a decrypted state in the closed-state memoization and report
    /// whether it had been seen before: true exactly when the state was
    /// already present.
    pub fn record_state(&mut self, s: &Vec<i8>) -> (dup: bool)
        ensures
            dup == old(self).seen_set().contains(s@),
            final(self).seen_set() == old(self).seen_set().insert(s@),
            final(self).key == old(self).key,
    {
        let mut i: usize = 0;
        while i < self.seen.len()
            invariant
                i <= self.seen@.len(),
                forall|j: int| 0 <= j < i ==> #[trigger] self.seen@[j]@ != s@,
                *self == *old(self),
            decreases self.seen@.len() - i,
        {
            if vecs_equal(&self.seen[i], s) {
                proof {
                    assert(old(self).seen_set().contains(s@));
                    assert(self.seen_set().insert(s@) =~= self.seen_set());
                }
                return true;
            }
            i += 1;
        }
        proof {
            assert(!old(self).seen_set().contains(s@));
        }
        let copy = copy_plain(s);
        self.seen.push(copy);
        proof {
            assert forall|t: Seq<i8>|
                self.seen_set().contains(t) == old(self).seen_set().insert(s@).contains(t) by {
                if self.seen_set().contains(t) {
                    let i = choose|i: int|
                        0 <= i < self.seen@.len() && #[trigger] self.seen@[i]@ == t;
                    if i < old(self).seen@.len() {
                        assert(old(self).seen@[i]@ == t);
                    }
                }
                if old(self).seen_set().contains(t) {
                    let i = choose|i: int|
                        0 <= i < old(self).seen@.len() && #[trigger] old(self).seen@[i]@ == t;
                    assert(self.seen@[i]@ == t);
                }
                if t == s@ {
                    assert(self.seen@[self.seen@.len() - 1]@ == t);
                }
            }
            assert(self.seen_set() =~= old(self).seen_set().insert(s@));
        }
        false
    }
}

/// Duplicate detection is idempotent: a state absent from the closed-state
/// set is never flagged when first recorded, and recording it again after
/// that always flags it.  This is the law that `record_state`'s contract
/// composes to over two calls.
pub proof fn lemma_duplicate_detection(seen: Set<Seq<i8>>, s: Seq<i8>)
    requires
        !seen.contains(s),
    ensures
        !seen.contains(s),
        seen.insert(s).contains(s),
{
}

} // verus!
