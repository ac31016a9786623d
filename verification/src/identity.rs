//! The identity of a multi-signatory account, derived from its signatories
//! and its threshold.
//!
//! Whoever knows the signatories and the threshold can compute the identity,
//! with no registration beforehand: it is the digest of a seed that holds a
//! tag reserved for this purpose, the signatories and the threshold.

use vstd::prelude::*;
use vstd::bytes::{
    lemma_auto_spec_u16_to_from_le_bytes, lemma_auto_spec_u32_to_from_le_bytes,
    lemma_auto_spec_u64_to_from_le_bytes, spec_u16_from_le_bytes, spec_u16_to_le_bytes,
    spec_u32_to_le_bytes, spec_u64_from_le_bytes, spec_u64_to_le_bytes, u64_from_le_bytes,
};
use vstd::slice::slice_subrange;
use crate::canonical::AccountId;
use crate::hashing::{blake2_256, blake2_256_digest};
use crate::pallet::Pallet;

verus! {

/// The tag that opens every seed: the bytes of `modlpy/utilisuba`. It keeps
/// these identities apart from others made with the same digest.
pub const DOMAIN_TAG: [u8; 16] = [
    109, 111, 100, 108, 112, 121, 47, 117, 116, 105, 108, 105, 115, 117, 98, 97,
];

/// The compact SCALE encoding of a length: one, two or four bytes whose two
/// lowest bits tell the width, or a byte `3` and four bytes more.
pub open spec fn scale_compact_len(n: nat) -> Seq<u8>
    recommends
        n <= u32::MAX,
{
    if n < 64 {
        seq![(n * 4) as u8]
    } else if n < 16384 {
        spec_u16_to_le_bytes((n * 4 + 1) as u16)
    } else if n < 1073741824 {
        spec_u32_to_le_bytes((n * 4 + 2) as u32)
    } else {
        seq![3u8] + spec_u32_to_le_bytes(n as u32)
    }
}

/// The identities of `who` one after another, eight little-endian bytes each.
pub open spec fn scale_items(who: Seq<AccountId>) -> Seq<u8>
    decreases who.len(),
{
    if who.len() == 0 {
        Seq::empty()
    } else {
        scale_items(who.drop_last()) + spec_u64_to_le_bytes(who.last())
    }
}

/// The seed of an account's identity: the tag, the number of signatories,
/// the signatories, the threshold.
pub open spec fn account_seed(tag: Seq<u8>, who: Seq<AccountId>, threshold: u16) -> Seq<u8> {
    tag + scale_compact_len(who.len()) + scale_items(who) + spec_u16_to_le_bytes(threshold)
}

/// The identity that a digest stands for: its first eight bytes, read as a
/// little-endian number. Every digest stands for one.
pub open spec fn identity_of_digest(digest: Seq<u8>) -> AccountId {
    spec_u64_from_le_bytes(digest.subrange(0, 8))
}

/// The identity of the account that `who` control with `threshold`.
pub open spec fn derived_account_id(who: Seq<AccountId>, threshold: u16) -> AccountId {
    identity_of_digest(blake2_256_digest(account_seed(DOMAIN_TAG@, who, threshold)))
}

/// Each identity takes eight bytes.
pub proof fn lemma_scale_items_len(who: Seq<AccountId>)
    ensures
        scale_items(who).len() == 8 * who.len(),
    decreases who.len(),
{
    lemma_auto_spec_u64_to_from_le_bytes();
    if who.len() > 0 {
        lemma_scale_items_len(who.drop_last());
    }
}

/// Sequences of identities of one length that are written alike are equal.
pub proof fn lemma_scale_items_injective(a: Seq<AccountId>, b: Seq<AccountId>)
    requires
        a.len() == b.len(),
        scale_items(a) == scale_items(b),
    ensures
        a == b,
    decreases a.len(),
{
    lemma_auto_spec_u64_to_from_le_bytes();
    if a.len() == 0 {
        assert(a =~= b);
    } else {
        let a0 = a.drop_last();
        let b0 = b.drop_last();
        lemma_scale_items_len(a0);
        lemma_scale_items_len(b0);
        let cut = (8 * a0.len()) as int;
        let whole = scale_items(a);
        assert(whole.subrange(0, cut) =~= scale_items(a0));
        assert(whole.subrange(0, cut) =~= scale_items(b0));
        assert(whole.subrange(cut, whole.len() as int) =~= spec_u64_to_le_bytes(a.last()));
        assert(whole.subrange(cut, whole.len() as int) =~= spec_u64_to_le_bytes(b.last()));
        assert(a.last() == b.last()) by {
            assert(spec_u64_from_le_bytes(spec_u64_to_le_bytes(a.last())) == a.last());
            assert(spec_u64_from_le_bytes(spec_u64_to_le_bytes(b.last())) == b.last());
        }
        lemma_scale_items_injective(a0, b0);
        assert(a =~= a0.push(a.last()));
        assert(b =~= b0.push(b.last()));
    }
}

/// A length is written in one to five bytes.
pub proof fn lemma_compact_len_width(n: nat)
    ensures
        1 <= scale_compact_len(n).len() <= 5,
{
    lemma_auto_spec_u16_to_from_le_bytes();
    lemma_auto_spec_u32_to_from_le_bytes();
}

/// The seed tells the signatories and the threshold: two seeds under one
/// tag are equal only if both are. So two accounts get one identity only
/// where the digest, or the eight bytes kept of it, coincide for two
/// different seeds.
pub proof fn lemma_seed_injective(
    tag: Seq<u8>,
    who1: Seq<AccountId>,
    threshold1: u16,
    who2: Seq<AccountId>,
    threshold2: u16,
)
    requires
        account_seed(tag, who1, threshold1) == account_seed(tag, who2, threshold2),
    ensures
        who1 == who2,
        threshold1 == threshold2,
{
    lemma_auto_spec_u16_to_from_le_bytes();
    lemma_compact_len_width(who1.len());
    lemma_compact_len_width(who2.len());
    lemma_scale_items_len(who1);
    lemma_scale_items_len(who2);
    let seed = account_seed(tag, who1, threshold1);
    let c1 = scale_compact_len(who1.len());
    let c2 = scale_compact_len(who2.len());
    assert(seed.len() == tag.len() + c1.len() + 8 * who1.len() + 2);
    assert(seed.len() == tag.len() + c2.len() + 8 * who2.len() + 2);
    assert(who1.len() == who2.len());
    let from = (tag.len() + c1.len()) as int;
    let to: int = from + 8 * who1.len();
    assert(seed.subrange(from, to) =~= scale_items(who1));
    assert(seed.subrange(from, to) =~= scale_items(who2));
    lemma_scale_items_injective(who1, who2);
    assert(seed.subrange(to, to + 2) =~= spec_u16_to_le_bytes(threshold1));
    assert(seed.subrange(to, to + 2) =~= spec_u16_to_le_bytes(threshold2));
    assert(spec_u16_from_le_bytes(spec_u16_to_le_bytes(threshold1)) == threshold1);
    assert(spec_u16_from_le_bytes(spec_u16_to_le_bytes(threshold2)) == threshold2);
}

/// `Encode::encode` of the codec that `polkadot_sdk_frame` brings along
/// (`parity_scale_codec`), on the tuple of a tag, a slice of identities and
/// a threshold. SCALE writes a tuple as its parts one after
/// another: the 16 bytes of the tag as they are; the slice as the compact
/// encoding of its length followed by each item in 8 little-endian bytes;
/// the threshold in 2 little-endian bytes. The call panics on a slice of
/// more than `u32::MAX` items, which the precondition leaves out.
#[verifier::external_body]
fn scale_encode_seed(tag: &[u8; 16], who: &[AccountId], threshold: u16) -> (bytes: Vec<u8>)
    requires
        who@.len() <= u32::MAX,
    ensures
        bytes@ == account_seed(tag@, who@, threshold),
{
    polkadot_sdk_frame::deps::codec::Encode::encode(&(tag, who, threshold))
}

/// The identity that the 32 bytes of a digest stand for.
pub fn identity_from_entropy(entropy: &[u8; 32]) -> (id: AccountId)
    ensures
        id == identity_of_digest(entropy@),
{
    u64_from_le_bytes(slice_subrange(entropy.as_slice(), 0, 8))
}

impl Pallet {
    /// Derive a multi-account ID from the sorted list of accounts and the
    /// threshold that are required.
    ///
    /// `who` must be canonical for the identity to be the account's: another
    /// order of the same signatories gives another seed, and nothing here
    /// detects it.
    pub fn multi_account_id(who: &[AccountId], threshold: u16) -> (id: AccountId)
        requires
            who@.len() <= u32::MAX,
        ensures
            id == derived_account_id(who@, threshold),
    {
        let seed = scale_encode_seed(&DOMAIN_TAG, who, threshold);
        let entropy = blake2_256(seed.as_slice());
        identity_from_entropy(&entropy)
    }
}

} // verus!
