//! The digest that identifies a call and seeds an account's identity.
//!
//! Nothing in this file is proved: the digest is computed by the hashing
//! that `polkadot_sdk_frame` brings along, and what it returns is only given
//! a name here.

use vstd::prelude::*;

verus! {

/// The digest of an encoded call: the sole identity of a pending call.
pub type CallHash = [u8; 32];

/// The Blake2b digest of 256 bits that `sp_io::hashing::blake2_256` computes
/// of `data`.
pub uninterp spec fn blake2_256_digest(data: Seq<u8>) -> Seq<u8>;

/// `sp_io::hashing::blake2_256`, as `polkadot_sdk_frame` hands it on: the 32
/// bytes of the Blake2b-256 digest of `data`. The digest depends on the
/// bytes of `data` alone.
#[verifier::external_body]
pub(crate) fn blake2_256(data: &[u8]) -> (digest: [u8; 32])
    ensures
        digest@ == blake2_256_digest(data@),
{
    polkadot_sdk_frame::deps::sp_io::hashing::blake2_256(data)
}

} // verus!
