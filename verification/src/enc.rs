//! The encrypted-value capability that the search core computes with.
//!
//! The engine that produces real ciphertexts is an external collaborator:
//! the core only relies on the interface modelled here.  A ciphertext is
//! modelled as its plaintext together with the identifier of the key it was
//! produced under; a trivial encoding of a public constant carries the key
//! identifier 0 and decrypts under any key.  Every operation is total,
//! branch-free in the secret data, and has an exact contract, so the search
//! logic built on top is verified for every plaintext.

use vstd::prelude::*;

use crate::errors::SearchError;

verus! {

/// The secret key held by the client party.  Real keys have identifier 1 or
/// more; identifier 0 is reserved for trivial encodings of public constants.
#[derive(Clone, Copy, PartialEq, Eq, Structural)]
pub struct ClientKey {
    pub id: u64,
}

/// An encrypted small integer (a tile label or a cost).
#[derive(Clone, Copy, PartialEq, Eq, Structural)]
pub struct EncVal {
    pub plain: i8,
    pub key_id: u64,
}

/// An encrypted boolean, as produced by the comparison operations.
#[derive(Clone, Copy, PartialEq, Eq, Structural)]
pub struct EncBool {
    pub truth: bool,
    pub key_id: u64,
}

/// An encrypted node identity (identities are wider than tile labels).
#[derive(Clone, Copy, PartialEq, Eq, Structural)]
pub struct EncIdx {
    pub plain: i32,
    pub key_id: u64,
}

/// The key identifier attached to the result of a binary operation: a
/// trivial operand inherits the other operand's key.
pub open spec fn join_key(a: u64, b: u64) -> u64 {
    if a == 0 {
        b
    } else {
        a
    }
}

/// Whether a value decrypts under the key with identifier `k`: it must be
/// under that key, or a trivial encoding.
pub open spec fn under_key(v: EncVal, k: u64) -> bool {
    v.key_id == 0 || v.key_id == k
}

pub open spec fn idx_under_key(v: EncIdx, k: u64) -> bool {
    v.key_id == 0 || v.key_id == k
}

/// The value that encrypting `x` under the key `k` denotes.
pub open spec fn enc_spec(x: i8, k: u64) -> EncVal {
    EncVal { plain: x, key_id: k }
}

/// What decryption under key identifier `k` yields: the plaintext when the
/// value is under that key, nothing otherwise.
pub open spec fn dec_spec(v: EncVal, k: u64) -> Option<i8> {
    if under_key(v, k) {
        Some(v.plain)
    } else {
        None
    }
}

impl ClientKey {
    /// Key generation.  Identifier 0 is reserved for trivial encodings.
    pub fn new(id: u64) -> (r: ClientKey)
        requires
            id >= 1,
        ensures
            r.id == id,
    {
        ClientKey { id }
    }
}

/// Encrypt a plaintext under the client key.
pub fn encrypt(x: i8, key: &ClientKey) -> (r: EncVal)
    ensures
        r == enc_spec(x, key.id),
{
    EncVal { plain: x, key_id: key.id }
}

/// Encode a publicly known constant (a zero, a move cost) so that it
/// composes with values under any key.
pub fn encrypt_trivial(x: i8) -> (r: EncVal)
    ensures
        r == enc_spec(x, 0),
{
    EncVal { plain: x, key_id: 0 }
}

/// Decrypt under the client key; fails exactly on a key mismatch.
pub fn decrypt(v: &EncVal, key: &ClientKey) -> (r: Result<i8, SearchError>)
    ensures
        under_key(*v, key.id) ==> r == Ok::<i8, SearchError>(v.plain),
        !under_key(*v, key.id) ==> r == Err::<i8, SearchError>(SearchError::DecryptionFailure),
{
    if v.key_id == 0 || v.key_id == key.id {
        Ok(v.plain)
    } else {
        Err(SearchError::DecryptionFailure)
    }
}

/// Homomorphic addition.  Ciphertext arithmetic is modular, so the sum
/// wraps like the underlying 8-bit representation.
pub fn enc_add(a: &EncVal, b: &EncVal) -> (r: EncVal)
    ensures
        r.plain == a.plain.wrapping_add(b.plain),
        r.key_id == join_key(a.key_id, b.key_id),
{
    EncVal {
        plain: a.plain.wrapping_add(b.plain),
        key_id: if a.key_id == 0 {
            b.key_id
        } else {
            a.key_id
        },
    }
}

/// Homomorphic equality test.
pub fn enc_equals(a: &EncVal, b: &EncVal) -> (r: EncBool)
    ensures
        r.truth == (a.plain == b.plain),
        r.key_id == join_key(a.key_id, b.key_id),
{
    EncBool {
        truth: a.plain == b.plain,
        key_id: if a.key_id == 0 {
            b.key_id
        } else {
            a.key_id
        },
    }
}

/// Homomorphic strict comparison.
pub fn enc_less_than(a: &EncVal, b: &EncVal) -> (r: EncBool)
    ensures
        r.truth == (a.plain < b.plain),
        r.key_id == join_key(a.key_id, b.key_id),
{
    EncBool {
        truth: a.plain < b.plain,
        key_id: if a.key_id == 0 {
            b.key_id
        } else {
            a.key_id
        },
    }
}

/// Oblivious ternary: yields the second argument when the condition holds,
/// the third otherwise, without revealing which.
pub fn enc_select(c: &EncBool, t: &EncVal, e: &EncVal) -> (r: EncVal)
    ensures
        r == (if c.truth {
            *t
        } else {
            *e
        }),
{
    if c.truth {
        *t
    } else {
        *e
    }
}

/// Trivial encoding of a public node identity.
pub fn encrypt_idx_trivial(x: i32) -> (r: EncIdx)
    ensures
        r == (EncIdx { plain: x, key_id: 0 }),
{
    EncIdx { plain: x, key_id: 0 }
}

/// Oblivious ternary over encrypted identities.
pub fn enc_select_idx(c: &EncBool, t: &EncIdx, e: &EncIdx) -> (r: EncIdx)
    ensures
        r == (if c.truth {
            *t
        } else {
            *e
        }),
{
    if c.truth {
        *t
    } else {
        *e
    }
}

/// Decrypt an encrypted identity; fails exactly on a key mismatch.
pub fn decrypt_idx(v: &EncIdx, key: &ClientKey) -> (r: Result<i32, SearchError>)
    ensures
        idx_under_key(*v, key.id) ==> r == Ok::<i32, SearchError>(v.plain),
        !idx_under_key(*v, key.id) ==> r == Err::<i32, SearchError>(
            SearchError::DecryptionFailure,
        ),
{
    if v.key_id == 0 || v.key_id == key.id {
        Ok(v.plain)
    } else {
        Err(SearchError::DecryptionFailure)
    }
}

/// Round trip: decrypting an encryption under the same key recovers the
/// plaintext, for every representable integer and every key.
pub proof fn lemma_encrypt_decrypt_round_trip(x: i8, k: u64)
    ensures
        dec_spec(enc_spec(x, k), k) == Some(x),
{
}

} // verus!
