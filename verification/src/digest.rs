//! BLAKE3 entry points. Each function here makes one call into the `blake3`
//! crate; its contract names the 32-byte result as a function of the call's
//! arguments and says nothing more about it.

use vstd::prelude::*;

verus! {

/// Result of `blake3::hash` on `input`.
pub uninterp spec fn blake3_hash(input: Seq<u8>) -> Seq<u8>;

/// Result of `blake3::keyed_hash` with `key` on `input`.
pub uninterp spec fn blake3_keyed_hash(key: Seq<u8>, input: Seq<u8>) -> Seq<u8>;

/// Result of `blake3::derive_key` for `context` and `material`.
pub uninterp spec fn blake3_derive_key(context: Seq<char>, material: Seq<u8>) -> Seq<u8>;

/// Calls `blake3::hash` (the default 32-byte BLAKE3 hash) and returns its
/// bytes. Claimed: the result is `blake3_hash` of the input bytes, a
/// function of those bytes alone.
#[verifier::external_body]
pub(crate) fn hash32(input: &[u8]) -> (r: [u8; 32])
    ensures
        r@ == blake3_hash(input@),
{
    *blake3::hash(input).as_bytes()
}

/// Calls `blake3::keyed_hash` and returns its bytes. Claimed: the result is
/// `blake3_keyed_hash` of the key and input bytes, a function of them alone.
#[verifier::external_body]
pub(crate) fn keyed_hash32(key: &[u8; 32], input: &[u8]) -> (r: [u8; 32])
    ensures
        r@ == blake3_keyed_hash(key@, input@),
{
    *blake3::keyed_hash(key, input).as_bytes()
}

/// Calls `blake3::derive_key`. Claimed: the result is `blake3_derive_key` of
/// the context string and the key material, a function of them alone.
#[verifier::external_body]
pub(crate) fn derive_key32(context: &str, material: &[u8]) -> (r: [u8; 32])
    ensures
        r@ == blake3_derive_key(context@, material@),
{
    blake3::derive_key(context, material)
}

} // verus!
