//! The rules of a multi-signatory account, from plain values to a decision.
//!
//! A host that keeps the tables itself reads what a rule asks for, calls the
//! rule and writes what it decides. The ledger of this library does the same
//! with its own tables.

use vstd::prelude::*;
use crate::canonical::{canonical_set, lemma_canonical_set, AccountId};
use crate::error::Error;
use crate::signatory_set::SignatorySet;

verus! {

/// What an accepted approval leads to.
pub enum SpecDecision {
    /// The call stays pending, with these approvers from now on.
    Pending { approvers: Seq<AccountId> },
    /// The quorum is complete: the call is to be dispatched, marked as
    /// authorized, and its approvals dropped.
    Authorized,
    /// The call has been authorized before: nothing is to be done.
    AlreadyAuthorized,
}

/// What an accepted approval leads to.
#[derive(Debug, PartialEq, Eq)]
pub enum Decision {
    /// The call stays pending, with these approvers from now on.
    Pending { approvers: SignatorySet },
    /// The quorum is complete: the call is to be dispatched, marked as
    /// authorized, and its approvals dropped.
    Authorized,
    /// The call has been authorized before: nothing is to be done.
    AlreadyAuthorized,
}

impl View for Decision {
    type V = SpecDecision;

    open spec fn view(&self) -> SpecDecision {
        match self {
            Decision::Pending { approvers } => SpecDecision::Pending { approvers: approvers@ },
            Decision::Authorized => SpecDecision::Authorized,
            Decision::AlreadyAuthorized => SpecDecision::AlreadyAuthorized,
        }
    }
}

/// Whether registering succeeds, and with which signatories.
///
/// The threshold is looked at first: it must be 2 at least. Then `who` and
/// `others` must make a canonical set within the bound. At last the set
/// must hold as many signatories as the threshold asks for, or no call
/// could ever reach its quorum.
pub open spec fn registration(who: AccountId, others: Seq<AccountId>, threshold: u16) -> Result<
    Seq<AccountId>,
    Error,
> {
    if threshold < 2 {
        Err(Error::MinimumThreshold)
    } else {
        match canonical_set(others, who) {
            Ok(signatories) => if signatories.len() < threshold {
                Err(Error::TooFewSignatories)
            } else {
                Ok(signatories)
            },
            Err(e) => Err(e),
        }
    }
}

/// What becomes of an approval by `who`, given the account's signatories and
/// threshold, the call's approvers so far and whether it has been authorized
/// before.
///
/// A stranger to the account is rejected first. Then `who` must be able to
/// join the approvers, which fails where `who` is one of them or there is
/// no room: who repeats an approval is told so, whatever has become of the
/// call. A call that has been authorized before is then left alone.
/// Otherwise the quorum is complete when the approvers, `who` included, are
/// as many as the threshold.
pub open spec fn approval(
    signatories: Seq<AccountId>,
    threshold: u16,
    approvers: Seq<AccountId>,
    executed: bool,
    who: AccountId,
) -> Result<SpecDecision, Error> {
    if !signatories.contains(who) {
        Err(Error::SignerIsNotApproved)
    } else {
        match canonical_set(approvers, who) {
            Ok(joined) => if executed {
                Ok(SpecDecision::AlreadyAuthorized)
            } else if joined.len() >= threshold {
                Ok(SpecDecision::Authorized)
            } else {
                Ok(SpecDecision::Pending { approvers: joined })
            },
            Err(e) => Err(e),
        }
    }
}

/// Decides a registration: the signatories to record, or why not.
pub fn check_registration(who: AccountId, others: Vec<AccountId>, threshold: u16) -> (r: Result<
    SignatorySet,
    Error,
>)
    ensures
        r matches Ok(set) ==> registration(who, others@, threshold) == Ok::<Seq<AccountId>, Error>(
            set@,
        ) && 2 <= threshold <= set@.len() && set@.contains(who),
        r matches Err(e) ==> registration(who, others@, threshold) == Err::<Seq<AccountId>, Error>(
            e,
        ),
{
    if threshold < 2 {
        return Err(Error::MinimumThreshold);
    }
    match SignatorySet::canonicalize(who, others) {
        Ok(signatories) => {
            proof {
                lemma_canonical_set(others@, who);
            }
            if signatories.len() < threshold as usize {
                Err(Error::TooFewSignatories)
            } else {
                Ok(signatories)
            }
        },
        Err(e) => Err(e),
    }
}

/// Decides an approval: what to do with the call, or why the approval is
/// rejected.
pub fn check_approval(
    signatories: &SignatorySet,
    threshold: u16,
    approvers: &SignatorySet,
    executed: bool,
    who: AccountId,
) -> (r: Result<Decision, Error>)
    ensures
        r matches Ok(decision) ==> approval(signatories@, threshold, approvers@, executed, who)
            == Ok::<SpecDecision, Error>(decision@),
        r matches Err(e) ==> approval(signatories@, threshold, approvers@, executed, who) == Err::<
            SpecDecision,
            Error,
        >(e),
{
    if !signatories.contains(who) {
        return Err(Error::SignerIsNotApproved);
    }
    match approvers.with_member(who) {
        Ok(joined) => {
            if executed {
                Ok(Decision::AlreadyAuthorized)
            } else if joined.len() >= threshold as usize {
                Ok(Decision::Authorized)
            } else {
                Ok(Decision::Pending { approvers: joined })
            }
        },
        Err(e) => Err(e),
    }
}

} // verus!
