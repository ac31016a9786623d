//! The ledger of multi-signatory accounts: who controls which account, who
//! has approved which call, and which calls have been authorized.
//!
//! The ledger holds its own tables and does nothing outside them. What the
//! host has to do after an operation (emit an event, dispatch a call) is
//! told in the operation's result.

use vstd::prelude::*;
use vstd::std_specs::cmp::PartialEqSpecImpl;
use crate::assoc::{
    assoc_map, lemma_assoc_at, lemma_assoc_equal, lemma_assoc_keys, lemma_assoc_push,
    lemma_assoc_remove, lemma_assoc_update,
};
use crate::bounded::MAX_SIGNATORIES;
use crate::canonical::{lemma_canonical_set, strictly_ascending, AccountId};
use crate::error::Error;
use crate::event::Event;
use crate::hashing::{blake2_256, blake2_256_digest, CallHash};
use crate::rules::{check_approval, check_registration, registration, Decision, SpecDecision};
use crate::signatory_set::SignatorySet;
use crate::state::{Record, State};

verus! {

/// One registered account.
#[derive(Debug)]
struct AccountEntry {
    id: AccountId,
    signatories: SignatorySet,
    threshold: u16,
}

/// The approvals of one pending call of one account.
#[derive(Debug)]
struct PendingCall {
    id: AccountId,
    hash: CallHash,
    approvals: SignatorySet,
}

/// The registry of accounts together with the ledger of approvals.
///
/// Each table is a list of entries under distinct keys; `view` gives the
/// tables as maps. Two ledgers are `==` when their tables are the same
/// maps, in whatever order the entries came.
#[derive(Debug)]
pub struct Pallet {
    accounts: Vec<AccountEntry>,
    calls: Vec<PendingCall>,
    executed: Vec<CallHash>,
}

spec fn account_ids(entries: Seq<AccountEntry>) -> Seq<AccountId> {
    Seq::new(entries.len(), |i: int| entries[i].id)
}

spec fn account_records(entries: Seq<AccountEntry>) -> Seq<Record> {
    Seq::new(
        entries.len(),
        |i: int| Record { signatories: entries[i].signatories@, threshold: entries[i].threshold },
    )
}

spec fn call_keys(calls: Seq<PendingCall>) -> Seq<(AccountId, Seq<u8>)> {
    Seq::new(calls.len(), |i: int| (calls[i].id, calls[i].hash@))
}

spec fn call_approvals(calls: Seq<PendingCall>) -> Seq<Seq<AccountId>> {
    Seq::new(calls.len(), |i: int| calls[i].approvals@)
}

spec fn digests(hashes: Seq<CallHash>) -> Seq<Seq<u8>> {
    Seq::new(hashes.len(), |i: int| hashes[i]@)
}

spec fn account_entry_ok(entry: AccountEntry) -> bool {
    entry.signatories.is_canonical() && 2 <= entry.threshold <= entry.signatories@.len()
}

spec fn pending_call_ok(call: PendingCall) -> bool {
    call.approvals.is_canonical() && 1 <= call.approvals@.len() < MAX_SIGNATORIES
}

/// Whether two digests are the same, byte by byte.
fn same_hash(a: &CallHash, b: &CallHash) -> (same: bool)
    ensures
        same == (a@ == b@),
{
    let mut i: usize = 0;
    while i < 32
        invariant
            0 <= i <= 32,
            forall|k: int| 0 <= k < i ==> a@[k] == b@[k],
        decreases 32 - i,
    {
        if a[i] != b[i] {
            return false;
        }
        i += 1;
    }
    assert(a@ =~= b@);
    true
}

/// The place of the account `id` in `accounts`.
fn find_account(accounts: &Vec<AccountEntry>, id: AccountId) -> (found: Option<usize>)
    ensures
        found matches Some(i) ==> i < accounts.len() && accounts[i as int].id == id,
        found is None ==> !account_ids(accounts@).contains(id),
{
    let mut i: usize = 0;
    while i < accounts.len()
        invariant
            0 <= i <= accounts.len(),
            forall|k: int| 0 <= k < i ==> accounts[k].id != id,
        decreases accounts.len() - i,
    {
        if accounts[i].id == id {
            return Some(i);
        }
        i += 1;
    }
    None
}

/// The place of the call `hash` of the account `id` in `calls`.
fn find_call(calls: &Vec<PendingCall>, id: AccountId, hash: &CallHash) -> (found: Option<usize>)
    ensures
        found matches Some(i) ==> i < calls.len() && calls[i as int].id == id
            && calls[i as int].hash@ == hash@,
        found is None ==> !call_keys(calls@).contains((id, hash@)),
{
    let mut i: usize = 0;
    while i < calls.len()
        invariant
            0 <= i <= calls.len(),
            forall|k: int| 0 <= k < i ==> !(calls[k].id == id && calls[k].hash@ == hash@),
        decreases calls.len() - i,
    {
        if calls[i].id == id && same_hash(&calls[i].hash, hash) {
            return Some(i);
        }
        i += 1;
    }
    None
}

/// Whether `hash` is one of `hashes`.
fn holds_hash(hashes: &Vec<CallHash>, hash: &CallHash) -> (found: bool)
    ensures
        found == digests(hashes@).to_set().contains(hash@),
{
    let mut i: usize = 0;
    while i < hashes.len()
        invariant
            0 <= i <= hashes.len(),
            forall|k: int| 0 <= k < i ==> hashes[k]@ != hash@,
        decreases hashes.len() - i,
    {
        if same_hash(&hashes[i], hash) {
            assert(digests(hashes@)[i as int] == hash@);
            return true;
        }
        i += 1;
    }
    false
}

/// One more digest in the list is one more in the set.
proof fn lemma_digests_push(hashes: Seq<CallHash>, hash: CallHash)
    ensures
        digests(hashes.push(hash)).to_set() == digests(hashes).to_set().insert(hash@),
{
    let before = digests(hashes);
    let after = digests(hashes.push(hash));
    assert(after =~= before.push(hash@));
    assert forall|h: Seq<u8>| after.to_set().contains(h) <==> before.to_set().insert(
        hash@,
    ).contains(h) by {
        if before.contains(h) {
            let k = before.index_of(h);
            assert(after[k] == h);
        }
        if h == hash@ {
            assert(after[before.len() as int] == h);
        }
        if after.contains(h) {
            let k = after.index_of(h);
            if k < before.len() {
                assert(before[k] == h);
            }
        }
    }
    assert(after.to_set() =~= before.to_set().insert(hash@));
}

impl View for Pallet {
    type V = State;

    closed spec fn view(&self) -> State {
        State {
            accounts: assoc_map(account_ids(self.accounts@), account_records(self.accounts@)),
            approvals: assoc_map(call_keys(self.calls@), call_approvals(self.calls@)),
            executed: digests(self.executed@).to_set(),
        }
    }
}

impl Clone for Pallet {
    /// A ledger of its own with the same tables.
    fn clone(&self) -> (copy: Self)
        ensures
            copy@ == self@,
    {
        proof {
            use_type_invariant(self);
        }
        let mut accounts: Vec<AccountEntry> = Vec::new();
        let mut i: usize = 0;
        while i < self.accounts.len()
            invariant
                0 <= i <= self.accounts.len(),
                accounts.len() == i,
                forall|k: int| 0 <= k < self.accounts@.len() ==> account_entry_ok(#[trigger] self.accounts@[k]),
                forall|k: int|
                    0 <= k < i ==> {
                        &&& (#[trigger] accounts@[k]).id == self.accounts@[k].id
                        &&& accounts@[k].signatories@ == self.accounts@[k].signatories@
                        &&& accounts@[k].threshold == self.accounts@[k].threshold
                    },
            decreases self.accounts.len() - i,
        {
            let entry = &self.accounts[i];
            accounts.push(
                AccountEntry {
                    id: entry.id,
                    signatories: entry.signatories.clone(),
                    threshold: entry.threshold,
                },
            );
            i += 1;
        }
        let mut calls: Vec<PendingCall> = Vec::new();
        let mut j: usize = 0;
        while j < self.calls.len()
            invariant
                0 <= j <= self.calls.len(),
                calls.len() == j,
                forall|k: int| 0 <= k < self.calls@.len() ==> pending_call_ok(#[trigger] self.calls@[k]),
                forall|k: int|
                    0 <= k < j ==> {
                        &&& (#[trigger] calls@[k]).id == self.calls@[k].id
                        &&& calls@[k].hash == self.calls@[k].hash
                        &&& calls@[k].approvals@ == self.calls@[k].approvals@
                    },
            decreases self.calls.len() - j,
        {
            let call = &self.calls[j];
            calls.push(
                PendingCall { id: call.id, hash: call.hash, approvals: call.approvals.clone() },
            );
            j += 1;
        }
        let mut executed: Vec<CallHash> = Vec::new();
        let mut k: usize = 0;
        while k < self.executed.len()
            invariant
                0 <= k <= self.executed.len(),
                executed@ == self.executed@.take(k as int),
            decreases self.executed.len() - k,
        {
            executed.push(self.executed[k]);
            assert(self.executed@.take(k + 1) =~= self.executed@.take(k as int).push(
                self.executed@[k as int],
            ));
            k += 1;
        }
        proof {
            assert(self.executed@.take(self.executed@.len() as int) =~= self.executed@);
            assert(account_ids(accounts@) =~= account_ids(self.accounts@));
            assert(account_records(accounts@) =~= account_records(self.accounts@));
            assert(call_keys(calls@) =~= call_keys(self.calls@));
            assert(call_approvals(calls@) =~= call_approvals(self.calls@));
        }
        Pallet { accounts, calls, executed }
    }
}

/// Whether each digest of `hashes` is one of `others`.
fn all_held(hashes: &Vec<CallHash>, others: &Vec<CallHash>) -> (all: bool)
    ensures
        all == digests(hashes@).to_set().subset_of(digests(others@).to_set()),
{
    let mut i: usize = 0;
    while i < hashes.len()
        invariant
            0 <= i <= hashes.len(),
            forall|k: int| 0 <= k < i ==> digests(others@).to_set().contains(digests(hashes@)[k]),
        decreases hashes.len() - i,
    {
        if !holds_hash(others, &hashes[i]) {
            assert(digests(hashes@).to_set().contains(digests(hashes@)[i as int]));
            return false;
        }
        i += 1;
    }
    proof {
        assert forall|h: Seq<u8>| digests(hashes@).to_set().contains(h) implies digests(
            others@,
        ).to_set().contains(h) by {
            let k = digests(hashes@).index_of(h);
            assert(digests(hashes@)[k] == h);
        }
    }
    true
}

/// Whether each account of `accounts` is one of `others`, with the same
/// signatories and threshold.
fn all_registered(accounts: &Vec<AccountEntry>, others: &Vec<AccountEntry>) -> (all: bool)
    requires
        account_ids(accounts@).no_duplicates(),
        account_ids(others@).no_duplicates(),
    ensures
        all == (forall|i: int|
            0 <= i < accounts.len() ==> account_ids(others@).contains(
                #[trigger] account_ids(accounts@)[i],
            ) && account_records(others@)[account_ids(others@).index_of(account_ids(accounts@)[i])]
                == account_records(accounts@)[i]),
{
    let ghost ids = account_ids(accounts@);
    let ghost records = account_records(accounts@);
    let ghost other_ids = account_ids(others@);
    let ghost other_records = account_records(others@);
    let mut i: usize = 0;
    while i < accounts.len()
        invariant
            0 <= i <= accounts.len(),
            ids == account_ids(accounts@),
            records == account_records(accounts@),
            other_ids == account_ids(others@),
            other_records == account_records(others@),
            other_ids.no_duplicates(),
            forall|k: int|
                0 <= k < i ==> other_ids.contains(#[trigger] ids[k]) && other_records[other_ids.index_of(
                    ids[k],
                )] == records[k],
        decreases accounts.len() - i,
    {
        let entry = &accounts[i];
        match find_account(others, entry.id) {
            Some(at) => {
                let other = &others[at];
                proof {
                    lemma_assoc_at(other_ids, other_records, at as int);
                    assert(other_ids[at as int] == ids[i as int]);
                }
                if other.threshold != entry.threshold || !other.signatories.eq(&entry.signatories) {
                    assert(other_records[other_ids.index_of(ids[i as int])] != records[i as int]);
                    return false;
                }
            },
            None => {
                assert(!other_ids.contains(ids[i as int]));
                return false;
            },
        }
        i += 1;
    }
    true
}

/// Whether each pending call of `calls` is one of `others`, with the same
/// approvals.
fn all_pending(calls: &Vec<PendingCall>, others: &Vec<PendingCall>) -> (all: bool)
    requires
        call_keys(calls@).no_duplicates(),
        call_keys(others@).no_duplicates(),
    ensures
        all == (forall|i: int|
            0 <= i < calls.len() ==> call_keys(others@).contains(#[trigger] call_keys(calls@)[i])
                && call_approvals(others@)[call_keys(others@).index_of(call_keys(calls@)[i])]
                == call_approvals(calls@)[i]),
{
    let ghost keys = call_keys(calls@);
    let ghost approvals = call_approvals(calls@);
    let ghost other_keys = call_keys(others@);
    let ghost other_approvals = call_approvals(others@);
    let mut i: usize = 0;
    while i < calls.len()
        invariant
            0 <= i <= calls.len(),
            keys == call_keys(calls@),
            approvals == call_approvals(calls@),
            other_keys == call_keys(others@),
            other_approvals == call_approvals(others@),
            other_keys.no_duplicates(),
            forall|k: int|
                0 <= k < i ==> other_keys.contains(#[trigger] keys[k]) && other_approvals[other_keys.index_of(
                    keys[k],
                )] == approvals[k],
        decreases calls.len() - i,
    {
        let call = &calls[i];
        match find_call(others, call.id, &call.hash) {
            Some(at) => {
                proof {
                    lemma_assoc_at(other_keys, other_approvals, at as int);
                    assert(other_keys[at as int] == keys[i as int]);
                }
                if !others[at].approvals.eq(&call.approvals) {
                    assert(other_approvals[other_keys.index_of(keys[i as int])] != approvals[i as int]);
                    return false;
                }
            },
            None => {
                assert(!other_keys.contains(keys[i as int]));
                return false;
            },
        }
        i += 1;
    }
    true
}

impl PartialEq for Pallet {
    /// Whether the two ledgers hold the same tables.
    fn eq(&self, other: &Self) -> (same: bool) {
        proof {
            use_type_invariant(self);
            use_type_invariant(other);
            lemma_assoc_keys(account_ids(self.accounts@), account_records(self.accounts@));
            lemma_assoc_keys(account_ids(other.accounts@), account_records(other.accounts@));
            lemma_assoc_keys(call_keys(self.calls@), call_approvals(self.calls@));
            lemma_assoc_keys(call_keys(other.calls@), call_approvals(other.calls@));
        }
        if self.accounts.len() != other.accounts.len() || self.calls.len() != other.calls.len() {
            return false;
        }
        if !all_registered(&self.accounts, &other.accounts) {
            proof {
                if self@.accounts == other@.accounts {
                    assert forall|i: int| 0 <= i < self.accounts.len() implies account_ids(
                        other.accounts@,
                    ).contains(#[trigger] account_ids(self.accounts@)[i]) && account_records(
                        other.accounts@,
                    )[account_ids(other.accounts@).index_of(account_ids(self.accounts@)[i])]
                        == account_records(self.accounts@)[i] by {
                        lemma_assoc_at(
                            account_ids(self.accounts@),
                            account_records(self.accounts@),
                            i,
                        );
                        let id = account_ids(self.accounts@)[i];
                        assert(other@.accounts.contains_key(id));
                    }
                }
            }
            return false;
        }
        if !all_pending(&self.calls, &other.calls) {
            proof {
                if self@.approvals == other@.approvals {
                    assert forall|i: int| 0 <= i < self.calls.len() implies call_keys(
                        other.calls@,
                    ).contains(#[trigger] call_keys(self.calls@)[i]) && call_approvals(
                        other.calls@,
                    )[call_keys(other.calls@).index_of(call_keys(self.calls@)[i])]
                        == call_approvals(self.calls@)[i] by {
                        lemma_assoc_at(call_keys(self.calls@), call_approvals(self.calls@), i);
                        let key = call_keys(self.calls@)[i];
                        assert(other@.approvals.contains_key(key));
                    }
                }
            }
            return false;
        }
        if !all_held(&self.executed, &other.executed) || !all_held(&other.executed, &self.executed) {
            return false;
        }
        proof {
            lemma_assoc_equal(
                account_ids(self.accounts@),
                account_records(self.accounts@),
                account_ids(other.accounts@),
                account_records(other.accounts@),
            );
            lemma_assoc_equal(
                call_keys(self.calls@),
                call_approvals(self.calls@),
                call_keys(other.calls@),
                call_approvals(other.calls@),
            );
            assert(self@.executed =~= other@.executed);
        }
        true
    }
}

impl PartialEqSpecImpl for Pallet {
    open spec fn obeys_eq_spec() -> bool {
        true
    }

    open spec fn eq_spec(&self, other: &Self) -> bool {
        self@ == other@
    }
}

impl Eq for Pallet {

}

impl Pallet {
    #[verifier::type_invariant]
    spec fn tables_ok(self) -> bool {
        &&& account_ids(self.accounts@).no_duplicates()
        &&& forall|i: int| 0 <= i < self.accounts@.len() ==> account_entry_ok(#[trigger] self.accounts@[i])
        &&& call_keys(self.calls@).no_duplicates()
        &&& forall|i: int| 0 <= i < self.calls@.len() ==> pending_call_ok(#[trigger] self.calls@[i])
    }

    proof fn lemma_view_well_formed(self)
        requires
            self.tables_ok(),
        ensures
            self@.well_formed(),
    {
        let ids = account_ids(self.accounts@);
        assert forall|id: AccountId| #[trigger] self@.accounts.contains_key(id) implies {
            &&& strictly_ascending(self@.accounts[id].signatories)
            &&& self@.accounts[id].signatories.len() <= MAX_SIGNATORIES
            &&& 2 <= self@.accounts[id].threshold <= self@.accounts[id].signatories.len()
        } by {
            let i = ids.index_of(id);
            assert(account_entry_ok(self.accounts@[i]));
        }
        let keys = call_keys(self.calls@);
        assert forall|key: (AccountId, Seq<u8>)| #[trigger]
            self@.approvals.contains_key(key) implies {
            &&& strictly_ascending(self@.approvals[key])
            &&& 1 <= self@.approvals[key].len() < MAX_SIGNATORIES
        } by {
            let i = keys.index_of(key);
            assert(pending_call_ok(self.calls@[i]));
        }
    }

    /// A ledger with nothing registered, nothing pending and nothing
    /// authorized.
    pub fn new() -> (ledger: Self)
        ensures
            ledger@ == State::empty(),
    {
        let ledger = Pallet { accounts: Vec::new(), calls: Vec::new(), executed: Vec::new() };
        assert(ledger@.accounts =~= Map::empty());
        assert(ledger@.approvals =~= Map::empty());
        assert(ledger@.executed =~= Set::empty());
        ledger
    }

    /// Registers the account `id` for `who` and `other_signatories`, with
    /// `threshold` approvals needed for a call.
    ///
    /// `other_signatories` must be strictly ascending and without `who`. A
    /// record that `id` had before is replaced. On success the event to emit
    /// is handed back; on failure nothing has changed.
    pub fn register_account(
        &mut self,
        who: AccountId,
        id: AccountId,
        other_signatories: Vec<AccountId>,
        threshold: u16,
    ) -> (r: Result<Event, Error>)
        ensures
            final(self)@ == old(self)@.register(who, id, other_signatories@, threshold),
            final(self)@.well_formed(),
            r matches Ok(Event::Account { id: event_id, signatories, threshold: event_threshold })
                ==> event_id == id && event_threshold == threshold && registration(
                who,
                other_signatories@,
                threshold,
            ) == Ok::<Seq<AccountId>, Error>(signatories@),
            r matches Err(e) ==> registration(who, other_signatories@, threshold) == Err::<
                Seq<AccountId>,
                Error,
            >(e),
    {
        proof {
            use_type_invariant(&*self);
            self.lemma_view_well_formed();
        }
        let signatories = match check_registration(who, other_signatories, threshold) {
            Ok(set) => set,
            Err(e) => {
                return Err(e);
            },
        };
        proof {
            use_type_invariant(&signatories);
        }
        let found = find_account(&self.accounts, id);
        let ghost record = Record { signatories: signatories@, threshold };
        let entry = AccountEntry { id, signatories: signatories.clone(), threshold };
        let mut accounts: Vec<AccountEntry> = Vec::new();
        std::mem::swap(&mut accounts, &mut self.accounts);
        let ghost before = accounts@;
        match found {
            Some(i) => {
                accounts.set(i, entry);
                proof {
                    assert(account_ids(accounts@) =~= account_ids(before));
                    assert(account_records(accounts@) =~= account_records(before).update(
                        i as int,
                        record,
                    ));
                    lemma_assoc_update(account_ids(before), account_records(before), i as int, record);
                }
            },
            None => {
                accounts.push(entry);
                proof {
                    assert(account_ids(accounts@) =~= account_ids(before).push(id));
                    assert(account_records(accounts@) =~= account_records(before).push(record));
                    lemma_assoc_push(account_ids(before), account_records(before), id, record);
                }
            },
        }
        self.accounts = accounts;
        proof {
            self.lemma_view_well_formed();
        }
        Ok(Event::Account { id, signatories: signatories.into_inner(), threshold })
    }

    /// Proposes `call` for the account `id` in the name of `who`, which is
    /// its first approval, and tells whether the call is thereby authorized.
    ///
    /// Proposing and approving are one operation: who proposes a call that
    /// is pending already approves it, and is rejected like any approver who
    /// has approved before. The call is known by the digest of its encoding.
    pub fn account_create_call(&mut self, who: AccountId, id: AccountId, call: &[u8]) -> (r: Result<
        bool,
        Error,
    >)
        ensures
            r == old(self)@.approval(who, id, blake2_256_digest(call@)),
            final(self)@ == old(self)@.approve(who, id, blake2_256_digest(call@)),
            final(self)@.well_formed(),
    {
        let hash = blake2_256(call);
        self.approve_with_hash(who, id, hash)
    }

    /// Decides an approval by `who` of the call `hash` of `id` on what the
    /// tables hold, and changes nothing.
    fn decide(&self, who: AccountId, id: AccountId, hash: &CallHash) -> (r: Result<Decision, Error>)
        ensures
            r matches Ok(decision) ==> self@.decision(who, id, hash@) == Ok::<SpecDecision, Error>(
                decision@,
            ),
            r matches Err(e) ==> self@.decision(who, id, hash@) == Err::<SpecDecision, Error>(e),
            r matches Ok(Decision::Pending { approvers }) ==> 1 <= approvers@.len()
                < MAX_SIGNATORIES,
    {
        proof {
            use_type_invariant(self);
        }
        let nobody = SignatorySet::empty();
        let executed = holds_hash(&self.executed, hash);
        let (signatories, threshold) = match find_account(&self.accounts, id) {
            Some(at) => {
                proof {
                    lemma_assoc_at(
                        account_ids(self.accounts@),
                        account_records(self.accounts@),
                        at as int,
                    );
                }
                (&self.accounts[at].signatories, self.accounts[at].threshold)
            },
            None => (&nobody, 0),
        };
        let approvers = match find_call(&self.calls, id, hash) {
            Some(at) => {
                proof {
                    lemma_assoc_at(call_keys(self.calls@), call_approvals(self.calls@), at as int);
                }
                &self.calls[at].approvals
            },
            None => &nobody,
        };
        let r = check_approval(signatories, threshold, approvers, executed, who);
        proof {
            if r is Ok {
                lemma_canonical_set(approvers@, who);
            }
        }
        r
    }

    /// Records that `who` approves the call with the digest `hash` for the
    /// account `id`, and tells whether the call is thereby authorized. The
    /// first approval of a call is its proposal.
    ///
    /// `Ok(true)` is the order to dispatch the call: it is given when the
    /// approvals reach the threshold, and once only for any digest. The
    /// call's approvals are then dropped. `Ok(false)` leaves the call
    /// pending, or says that it has been authorized before, in which case
    /// nothing is recorded. Who is among the call's approvers already is
    /// rejected in either case.
    pub fn approve_with_hash(&mut self, who: AccountId, id: AccountId, hash: CallHash) -> (r: Result<
        bool,
        Error,
    >)
        ensures
            r == old(self)@.approval(who, id, hash@),
            final(self)@ == old(self)@.approve(who, id, hash@),
            final(self)@.well_formed(),
    {
        proof {
            use_type_invariant(&*self);
            self.lemma_view_well_formed();
        }
        let decision = match self.decide(who, id, &hash) {
            Ok(decision) => decision,
            Err(e) => {
                return Err(e);
            },
        };
        let found = find_call(&self.calls, id, &hash);
        match decision {
            Decision::AlreadyAuthorized => Ok(false),
            Decision::Authorized => {
                let mut calls: Vec<PendingCall> = Vec::new();
                std::mem::swap(&mut calls, &mut self.calls);
                let ghost before = calls@;
                match found {
                    Some(i) => {
                        calls.remove(i);
                        proof {
                            assert(call_keys(calls@) =~= call_keys(before).remove(i as int));
                            assert(call_approvals(calls@) =~= call_approvals(before).remove(
                                i as int,
                            ));
                            lemma_assoc_remove(call_keys(before), call_approvals(before), i as int);
                        }
                    },
                    None => {
                        proof {
                            let table = assoc_map(call_keys(before), call_approvals(before));
                            assert(table.remove((id, hash@)) =~= table);
                        }
                    },
                }
                self.calls = calls;
                let mut executed: Vec<CallHash> = Vec::new();
                std::mem::swap(&mut executed, &mut self.executed);
                let ghost executed_before = executed@;
                executed.push(hash);
                proof {
                    lemma_digests_push(executed_before, hash);
                }
                self.executed = executed;
                proof {
                    self.lemma_view_well_formed();
                }
                Ok(true)
            },
            Decision::Pending { approvers } => {
                proof {
                    use_type_invariant(&approvers);
                }
                let ghost joined = approvers@;
                let call = PendingCall { id, hash, approvals: approvers };
                let mut calls: Vec<PendingCall> = Vec::new();
                std::mem::swap(&mut calls, &mut self.calls);
                let ghost before = calls@;
                match found {
                    Some(i) => {
                        calls.set(i, call);
                        proof {
                            assert(call_keys(calls@) =~= call_keys(before));
                            assert(call_approvals(calls@) =~= call_approvals(before).update(
                                i as int,
                                joined,
                            ));
                            lemma_assoc_update(
                                call_keys(before),
                                call_approvals(before),
                                i as int,
                                joined,
                            );
                        }
                    },
                    None => {
                        calls.push(call);
                        proof {
                            assert(call_keys(calls@) =~= call_keys(before).push((id, hash@)));
                            assert(call_approvals(calls@) =~= call_approvals(before).push(joined));
                            lemma_assoc_push(
                                call_keys(before),
                                call_approvals(before),
                                (id, hash@),
                                joined,
                            );
                        }
                    },
                }
                self.calls = calls;
                proof {
                    self.lemma_view_well_formed();
                }
                Ok(false)
            },
        }
    }

    /// Records that `who` approves `call` for the account `id`, and tells
    /// whether the call is thereby authorized.
    ///
    /// The call is known by the digest of its encoding. On `Ok(true)` the
    /// host dispatches `call`; the ledger does not wait for what comes of it.
    pub fn approve_or_dispatch_call(&mut self, who: AccountId, id: AccountId, call: &[u8]) -> (r:
        Result<bool, Error>)
        ensures
            r == old(self)@.approval(who, id, blake2_256_digest(call@)),
            final(self)@ == old(self)@.approve(who, id, blake2_256_digest(call@)),
            final(self)@.well_formed(),
    {
        let hash = blake2_256(call);
        self.approve_with_hash(who, id, hash)
    }

    /// The signatories of `id` in canonical order; none, if `id` is not
    /// registered.
    pub fn signatories_of(&self, id: AccountId) -> (signatories: Vec<AccountId>)
        ensures
            signatories@ == self@.signatories_of(id),
            self@.well_formed(),
    {
        proof {
            use_type_invariant(self);
            self.lemma_view_well_formed();
        }
        match find_account(&self.accounts, id) {
            Some(i) => {
                proof {
                    lemma_assoc_at(
                        account_ids(self.accounts@),
                        account_records(self.accounts@),
                        i as int,
                    );
                }
                self.accounts[i].signatories.to_vec()
            },
            None => Vec::new(),
        }
    }

    /// The threshold of `id`; 0, if `id` is not registered.
    pub fn threshold_of(&self, id: AccountId) -> (threshold: u16)
        ensures
            threshold == self@.threshold_of(id),
            self@.well_formed(),
    {
        proof {
            use_type_invariant(self);
            self.lemma_view_well_formed();
        }
        match find_account(&self.accounts, id) {
            Some(i) => {
                proof {
                    lemma_assoc_at(
                        account_ids(self.accounts@),
                        account_records(self.accounts@),
                        i as int,
                    );
                }
                self.accounts[i].threshold
            },
            None => 0,
        }
    }

    /// Whether `who` may act for `id`; nobody may for an account that is
    /// not registered.
    pub fn is_signatory(&self, id: AccountId, who: AccountId) -> (member: bool)
        ensures
            member == self@.is_signatory(id, who),
            self@.well_formed(),
    {
        proof {
            use_type_invariant(self);
            self.lemma_view_well_formed();
        }
        match find_account(&self.accounts, id) {
            Some(i) => {
                proof {
                    lemma_assoc_at(
                        account_ids(self.accounts@),
                        account_records(self.accounts@),
                        i as int,
                    );
                }
                self.accounts[i].signatories.contains(who)
            },
            None => false,
        }
    }

    /// Who has approved the pending call `hash` of `id`, in canonical order.
    pub fn approvals_of(&self, id: AccountId, hash: &CallHash) -> (approvers: Vec<AccountId>)
        ensures
            approvers@ == self@.approvals_of(id, hash@),
            self@.well_formed(),
    {
        proof {
            use_type_invariant(self);
            self.lemma_view_well_formed();
        }
        match find_call(&self.calls, id, hash) {
            Some(i) => {
                proof {
                    lemma_assoc_at(call_keys(self.calls@), call_approvals(self.calls@), i as int);
                }
                self.calls[i].approvals.to_vec()
            },
            None => Vec::new(),
        }
    }

    /// Whether the call `hash` has been authorized, for whatever account.
    pub fn is_executed(&self, hash: &CallHash) -> (executed: bool)
        ensures
            executed == self@.executed.contains(hash@),
            self@.well_formed(),
    {
        proof {
            use_type_invariant(self);
            self.lemma_view_well_formed();
        }
        holds_hash(&self.executed, hash)
    }
}

} // verus!
