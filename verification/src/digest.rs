//! The SHA-256 digest that event identifiers are made with.

use vstd::prelude::*;

verus! {

/// The SHA-256 digest of `data`.
pub uninterp spec fn sha256(data: Seq<u8>) -> Seq<u8>;

/// SHA-256 is defined for messages shorter than 2^64 bits, that is 2^61 bytes.
pub const SHA256_INPUT_LIMIT: u64 = 0x2000_0000_0000_0000;

/// Calls `Hash::hash` of `bitcoin_hashes` for its `sha256::Hash`, by the path
/// under which `nostr_sdk` hands that crate on, and takes the 32 bytes out of
/// the result.
///
/// Trusted: the bytes returned are the SHA-256 digest of `data`. Inputs of
/// 2^61 bytes or more are left out, since the padding step multiplies the
/// length by 8 in a `u64`.
#[verifier::external_body]
pub(crate) fn sha256_digest(data: &[u8]) -> (digest: [u8; 32])
    requires
        data@.len() < SHA256_INPUT_LIMIT,
    ensures
        digest@ == sha256(data@),
{
    let hash = <nostr_sdk::hashes::sha256::Hash as nostr_sdk::hashes::Hash>::hash(data);
    <nostr_sdk::hashes::sha256::Hash as nostr_sdk::hashes::Hash>::to_byte_array(hash)
}

} // verus!
