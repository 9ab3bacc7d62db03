use vstd::prelude::*;

use crate::types::ScriptHash;

verus! {

/// The 32-byte SHA-256 digest of a byte sequence.  Stated only through the
/// trusted wrapper below; a function of the input bytes alone.
pub uninterp spec fn sha256_of(data: Seq<u8>) -> Seq<u8>;

/// The 32-byte double-SHA256 digest (SHA-256 applied twice) of a byte
/// sequence.  Stated only through the trusted wrapper below; a function of
/// the input bytes alone.
pub uninterp spec fn sha256d_of(data: Seq<u8>) -> Seq<u8>;

/// Relies on bitcoin::hashes::sha256::Hash::hash, which returns the 32-byte
/// SHA-256 digest of the input bytes and depends on them alone.
#[verifier::external_body]
pub fn sha256(data: &Vec<u8>) -> (r: [u8; 32])
    ensures
        r@ == sha256_of(data@),
{
    <bitcoin::hashes::sha256::Hash as bitcoin::hashes::Hash>::to_byte_array(
        <bitcoin::hashes::sha256::Hash as bitcoin::hashes::Hash>::hash(data.as_slice()),
    )
}

/// Relies on bitcoin::hashes::sha256d::Hash::hash, which returns the 32-byte
/// double-SHA256 digest of the input bytes and depends on them alone.
#[verifier::external_body]
pub fn sha256d(data: &Vec<u8>) -> (r: [u8; 32])
    ensures
        r@ == sha256d_of(data@),
{
    <bitcoin::hashes::sha256d::Hash as bitcoin::hashes::Hash>::to_byte_array(
        <bitcoin::hashes::sha256d::Hash as bitcoin::hashes::Hash>::hash(data.as_slice()),
    )
}

/// A byte sequence in reverse order.
pub open spec fn rev_bytes(s: Seq<u8>) -> Seq<u8> {
    Seq::new(s.len(), |i: int| s[s.len() - 1 - i])
}

/// The script hash of an output script: its double-SHA256 digest with the
/// byte order reversed (the standard little-endian interpretation).
pub open spec fn script_hash_of(script: Seq<u8>) -> Seq<u8> {
    rev_bytes(sha256d_of(script))
}

/// Reverses a 32-byte value.
pub fn reverse32(a: &[u8; 32]) -> (r: [u8; 32])
    ensures
        r@ == rev_bytes(a@),
{
    let mut out: [u8; 32] = [0u8; 32];
    let mut i: usize = 0;
    while i < 32
        invariant
            i <= 32,
            out@.len() == 32,
            forall|j: int| 0 <= j < i ==> out@[j] == a@[31 - j],
        decreases 32 - i,
    {
        out[i] = a[31 - i];
        i += 1;
    }
    proof {
        assert(out@ =~= rev_bytes(a@));
    }
    out
}

/// Computes the script hash of an output script.
pub fn script_hash(script: &Vec<u8>) -> (r: ScriptHash)
    ensures
        r.bytes@ == script_hash_of(script@),
{
    let digest = sha256d(script);
    proof {
        assert(digest@.len() == 32);
    }
    let bytes = reverse32(&digest);
    ScriptHash { bytes }
}

/// Law: the script hash is a pure function of the script bytes, so it is
/// stable across restarts — equal scripts always yield equal script hashes.
pub proof fn lemma_script_hash_stable(s1: Seq<u8>, s2: Seq<u8>)
    requires
        s1 == s2,
    ensures
        script_hash_of(s1) == script_hash_of(s2),
{
}

} // verus!
