//! The ledger as a mathematical value, and what each operation makes of it.
//!
//! Three tables: the registered accounts, the approvals that pending calls
//! have collected, and the calls that have been authorized. The operations
//! of the ledger are stated here as functions from one such value to the
//! next; the executable ledger is proved to follow them.

use vstd::prelude::*;
use crate::bounded::MAX_SIGNATORIES;
use crate::canonical::{strictly_ascending, AccountId};
use crate::error::Error;
use crate::rules::{approval, registration, SpecDecision};

verus! {

/// What is kept of a registered account.
pub struct Record {
    /// Who may act for the account, in canonical order.
    pub signatories: Seq<AccountId>,
    /// How many of them must approve a call.
    pub threshold: u16,
}

/// The three tables of the ledger.
pub struct State {
    /// The registered accounts, by their identity.
    pub accounts: Map<AccountId, Record>,
    /// Who has approved which pending call of which account, in canonical
    /// order; a call without approvals has no entry.
    pub approvals: Map<(AccountId, Seq<u8>), Seq<AccountId>>,
    /// The digests of the calls that have been authorized, whatever the
    /// account.
    pub executed: Set<Seq<u8>>,
}

impl State {
    /// The ledger before anything is registered.
    pub open spec fn empty() -> State {
        State { accounts: Map::empty(), approvals: Map::empty(), executed: Set::empty() }
    }

    /// What every ledger keeps to. The signatories of an account are
    /// canonical and within the bound, and its threshold is at least 2 and at
    /// most their number. The approvals of a pending call are canonical and
    /// not empty, and there is room for one more: a call with as many
    /// approvals as any threshold can ask for does not stay pending.
    pub open spec fn well_formed(self) -> bool {
        &&& forall|id: AccountId| #[trigger]
            self.accounts.contains_key(id) ==> {
                &&& strictly_ascending(self.accounts[id].signatories)
                &&& self.accounts[id].signatories.len() <= MAX_SIGNATORIES
                &&& 2 <= self.accounts[id].threshold <= self.accounts[id].signatories.len()
            }
        &&& forall|key: (AccountId, Seq<u8>)| #[trigger]
            self.approvals.contains_key(key) ==> {
                &&& strictly_ascending(self.approvals[key])
                &&& 1 <= self.approvals[key].len() < MAX_SIGNATORIES
            }
    }

    /// The signatories of `id`; none, if `id` is not registered.
    pub open spec fn signatories_of(self, id: AccountId) -> Seq<AccountId> {
        if self.accounts.contains_key(id) {
            self.accounts[id].signatories
        } else {
            Seq::empty()
        }
    }

    /// The threshold of `id`; 0, which no count of approvals is compared
    /// with, if `id` is not registered.
    pub open spec fn threshold_of(self, id: AccountId) -> u16 {
        if self.accounts.contains_key(id) {
            self.accounts[id].threshold
        } else {
            0
        }
    }

    /// Whether `who` may act for `id`.
    pub open spec fn is_signatory(self, id: AccountId, who: AccountId) -> bool {
        self.signatories_of(id).contains(who)
    }

    /// Who has approved the pending call `hash` of `id`.
    pub open spec fn approvals_of(self, id: AccountId, hash: Seq<u8>) -> Seq<AccountId> {
        if self.approvals.contains_key((id, hash)) {
            self.approvals[(id, hash)]
        } else {
            Seq::empty()
        }
    }

    /// The ledger after `who` has asked to register `id`: the record of `id`
    /// is the new one, whatever it was before.
    pub open spec fn register(
        self,
        who: AccountId,
        id: AccountId,
        others: Seq<AccountId>,
        threshold: u16,
    ) -> State {
        match registration(who, others, threshold) {
            Ok(signatories) => State {
                accounts: self.accounts.insert(id, Record { signatories, threshold }),
                ..self
            },
            Err(_) => self,
        }
    }

    /// Whether everyone who has approved a pending call of `id` is a
    /// signatory of `id`.
    pub open spec fn approvers_are_signatories(self, id: AccountId) -> bool {
        forall|hash: Seq<u8>, who: AccountId| #[trigger]
            self.approvals_of(id, hash).contains(who) ==> self.is_signatory(id, who)
    }

    /// What is decided of an approval by `who` of the call `hash` of `id`.
    pub open spec fn decision(self, who: AccountId, id: AccountId, hash: Seq<u8>) -> Result<
        SpecDecision,
        Error,
    > {
        approval(
            self.signatories_of(id),
            self.threshold_of(id),
            self.approvals_of(id, hash),
            self.executed.contains(hash),
            who,
        )
    }

    /// What `who` is told on proposing or approving the call `hash` of
    /// `id`: whether the approval completes the quorum, which is the order
    /// to dispatch the call, or why it is rejected.
    pub open spec fn approval(self, who: AccountId, id: AccountId, hash: Seq<u8>) -> Result<
        bool,
        Error,
    > {
        match self.decision(who, id, hash) {
            Ok(SpecDecision::Authorized) => Ok(true),
            Ok(_) => Ok(false),
            Err(e) => Err(e),
        }
    }

    /// The ledger after `who` has proposed or approved the call `hash` of
    /// `id`. A call is proposed by its first approval.
    ///
    /// Unchanged where the approval is rejected or the call has been
    /// authorized before. With the quorum complete the call is authorized
    /// and its approvals are dropped; short of it `who` is added to them.
    pub open spec fn approve(self, who: AccountId, id: AccountId, hash: Seq<u8>) -> State {
        match self.decision(who, id, hash) {
            Ok(SpecDecision::Authorized) => State {
                approvals: self.approvals.remove((id, hash)),
                executed: self.executed.insert(hash),
                ..self
            },
            Ok(SpecDecision::Pending { approvers }) => State {
                approvals: self.approvals.insert((id, hash), approvers),
                ..self
            },
            Ok(SpecDecision::AlreadyAuthorized) => self,
            Err(_) => self,
        }
    }
}

} // verus!
