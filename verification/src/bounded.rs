//! The bounded vector that `polkadot_sdk_frame` offers in its prelude, as far
//! as this library uses it.
//!
//! Nothing in this file is proved: each contract restates what the source of
//! `bounded_collections`, where the vector is defined, shows of the function
//! that the body calls.

use vstd::prelude::*;

verus! {

/// The most signatories that one account can have, and the most approvals
/// that one pending call can collect.
pub const MAX_SIGNATORIES: u32 = 100;

/// `BoundedVec` of `bounded_collections`, a vector with a bound on its
/// length. Nothing of what it holds is visible but through the functions
/// below.
#[verifier::external_type_specification]
#[verifier::external_body]
#[verifier::reject_recursive_types(T)]
#[verifier::reject_recursive_types(S)]
pub struct ExBoundedVec<T, S>(polkadot_sdk_frame::prelude::BoundedVec<T, S>);

/// `ConstU32` of `bounded_collections`, a number that stands in a type: here
/// the bound of a bounded vector.
#[verifier::external_type_specification]
#[verifier::external_body]
pub struct ExConstU32<const N: u32>(polkadot_sdk_frame::prelude::ConstU32<N>);

/// A vector of identities that cannot grow beyond `MAX_SIGNATORIES` items.
pub type BoundedIds = polkadot_sdk_frame::prelude::BoundedVec<
    u64,
    polkadot_sdk_frame::prelude::ConstU32<MAX_SIGNATORIES>,
>;

/// The items that a bounded vector holds, in order.
pub uninterp spec fn bounded_items(
    b: polkadot_sdk_frame::prelude::BoundedVec<
        u64,
        polkadot_sdk_frame::prelude::ConstU32<MAX_SIGNATORIES>,
    >,
) -> Seq<u64>;

/// `BoundedVec::try_from(Vec<T>)`: a vector of at most as many items as the
/// bound allows is taken over as it is; a longer one is handed back unchanged.
#[verifier::external_body]
pub(crate) fn bounded_from_vec(items: Vec<u64>) -> (r: Result<BoundedIds, Vec<u64>>)
    ensures
        match r {
            Ok(b) => items@.len() <= MAX_SIGNATORIES && bounded_items(b) == items@,
            Err(back) => items@.len() > MAX_SIGNATORIES && back@ == items@,
        },
{
    polkadot_sdk_frame::prelude::BoundedVec::try_from(items)
}

/// `BoundedVec::as_slice` (through `Deref` to `Vec`): the items, borrowed.
#[verifier::external_body]
pub(crate) fn bounded_as_slice(b: &BoundedIds) -> (s: &[u64])
    ensures
        s@ == bounded_items(*b),
{
    b.as_slice()
}

/// `BoundedVec::into_inner`: the items, as the vector that held them.
#[verifier::external_body]
pub(crate) fn bounded_into_inner(b: BoundedIds) -> (v: Vec<u64>)
    ensures
        v@ == bounded_items(b),
{
    b.into_inner()
}

} // verus!
