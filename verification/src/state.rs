//! State vectors: ordered sequences of encrypted tile labels.

use vstd::prelude::*;

use crate::enc::{enc_spec, encrypt, decrypt, under_key, ClientKey, EncVal};
use crate::errors::SearchError;

verus! {

/// The plaintexts that a state vector encrypts, position by position.
pub open spec fn state_plains(s: Seq<EncVal>) -> Seq<i8> {
    s.map_values(|v: EncVal| v.plain)
}

/// Every cell of the state decrypts under the key with identifier `k`.
pub open spec fn state_under(s: Seq<EncVal>, k: u64) -> bool {
    forall|i: int| 0 <= i < s.len() ==> #[trigger] under_key(s[i], k)
}

/// What encrypting a plaintext vector cell by cell denotes.
pub open spec fn state_enc_spec(xs: Seq<i8>, k: u64) -> Seq<EncVal> {
    xs.map_values(|x: i8| enc_spec(x, k))
}

/// What decrypting a state vector under key identifier `k` yields: its
/// plaintexts when every cell is under that key, nothing otherwise.
pub open spec fn state_dec_spec(s: Seq<EncVal>, k: u64) -> Option<Seq<i8>> {
    if state_under(s, k) {
        Some(state_plains(s))
    } else {
        None
    }
}

/// Encrypt a plaintext vector cell by cell.
pub fn enc_vec(x: &Vec<i8>, key: &ClientKey) -> (r: Vec<EncVal>)
    ensures
        r@ == state_enc_spec(x@, key.id),
        r@.len() == x@.len(),
        state_plains(r@) == x@,
        state_under(r@, key.id),
{
    let mut r: Vec<EncVal> = Vec::new();
    let mut i: usize = 0;
    while i < x.len()
        invariant
            i <= x@.len(),
            r@.len() == i,
            forall|j: int| 0 <= j < i ==> r@[j] == enc_spec(x@[j], key.id),
        decreases x@.len() - i,
    {
        r.push(encrypt(x[i], key));
        i += 1;
    }
    proof {
        assert(r@ =~= state_enc_spec(x@, key.id));
        assert(state_plains(r@) =~= x@);
    }
    r
}

/// Decrypt a state vector cell by cell; fails exactly when some cell is
/// not under the oracle's key.
pub fn dec_vec(enc_x: &Vec<EncVal>, key: &ClientKey) -> (r: Result<Vec<i8>, SearchError>)
    ensures
        state_under(enc_x@, key.id) ==> (r matches Ok(v) && v@ == state_plains(enc_x@)),
        !state_under(enc_x@, key.id) ==> r == Err::<Vec<i8>, SearchError>(
            SearchError::DecryptionFailure,
        ),
{
    let mut out: Vec<i8> = Vec::new();
    let mut i: usize = 0;
    while i < enc_x.len()
        invariant
            i <= enc_x@.len(),
            out@.len() == i,
            forall|j: int| 0 <= j < i ==> #[trigger] under_key(enc_x@[j], key.id),
            forall|j: int| 0 <= j < i ==> out@[j] == enc_x@[j].plain,
        decreases enc_x@.len() - i,
    {
        match decrypt(&enc_x[i], key) {
            Ok(p) => {
                out.push(p);
            },
            Err(e) => {
                proof {
                    assert(!under_key(enc_x@[i as int], key.id));
                }
                return Err(e);
            },
        }
        i += 1;
    }
    proof {
        assert(out@ =~= state_plains(enc_x@));
    }
    Ok(out)
}

/// A verified duplicate of a state vector (cells are plain-old-data in the
/// model, so the copy equals the original).
pub fn copy_state(s: &Vec<EncVal>) -> (r: Vec<EncVal>)
    ensures
        r@ == s@,
{
    let mut r: Vec<EncVal> = Vec::new();
    let mut i: usize = 0;
    while i < s.len()
        invariant
            i <= s@.len(),
            r@ == s@.subrange(0, i as int),
        decreases s@.len() - i,
    {
        r.push(s[i]);
        proof {
            assert(r@ =~= s@.subrange(0, i + 1));
        }
        i += 1;
    }
    proof {
        assert(r@ =~= s@);
    }
    r
}

/// Round trip: decrypting a cell-by-cell encryption under the same key
/// recovers the whole plaintext vector, for every vector and every key.
pub proof fn lemma_state_round_trip(xs: Seq<i8>, k: u64)
    ensures
        state_dec_spec(state_enc_spec(xs, k), k) == Some(xs),
{
    assert(state_under(state_enc_spec(xs, k), k));
    assert(state_plains(state_enc_spec(xs, k)) =~= xs);
}

} // verus!
