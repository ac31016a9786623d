//! What the ledger asks its host to make known.

use vstd::prelude::*;
use crate::canonical::AccountId;

verus! {

/// A notification that an operation hands back for the host to emit.
#[derive(Clone, Debug, PartialEq, Eq)]
pub enum Event {
    /// An account was registered under `id` with these signatories, in
    /// canonical order, and this threshold.
    Account { id: AccountId, signatories: Vec<AccountId>, threshold: u16 },
}

} // verus!
