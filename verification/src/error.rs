//! The failures that the operations of a multi-signatory account report.

use vstd::prelude::*;

verus! {

/// Why an operation was rejected. Every rejection leaves the state untouched.
#[derive(Clone, Copy, Debug, PartialEq, Eq, Structural)]
pub enum Error {
    /// Threshold must be 2 or greater.
    MinimumThreshold,
    /// Call doesn't need any (more) approvals.
    NoApprovalsNeeded,
    /// There are too few signatories in the list.
    TooFewSignatories,
    /// There are too many signatories in the list.
    TooManySignatories,
    /// The signatories were provided out of order; they should be ordered.
    SignatoriesOutOfOrder,
    /// The sender was contained in the other signatories; it shouldn't be.
    SenderInSignatories,
    /// Multisig operation not found when attempting to cancel.
    NotFound,
    /// Signer is not part of the approved signatories.
    SignerIsNotApproved,
}

} // verus!
