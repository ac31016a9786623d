//! What holds of the ledger whatever is done with it.
//!
//! Each law is stated over the mathematical ledger of `state` and the
//! canonical sequences of `canonical`, which the contracts of the executable
//! operations speak of too, so each holds of the executable ledger as well.

use vstd::prelude::*;
use crate::bounded::MAX_SIGNATORIES;
use crate::canonical::{
    canonical_insert, canonical_set, lemma_ascending_unique, lemma_canonical_insert,
    lemma_canonical_set, lemma_member_rejected, sender_found_first, strictly_ascending, AccountId,
};
use crate::error::Error;
use crate::identity::{account_seed, derived_account_id, lemma_seed_injective, DOMAIN_TAG};
use crate::rules::registration;
use crate::state::State;

verus! {

/// Canonicalizing does not depend on the order in which a list was handed
/// in. Of all the arrangements of a list without the initiator, the strictly
/// ascending one is accepted, if it leaves room for the initiator, and every
/// other is rejected as out of order; so whichever arrangements are accepted
/// give one and the same sequence. (A list with a duplicate has no strictly
/// ascending arrangement.)
pub proof fn law_canonical_whatever_the_order(
    list: Seq<AccountId>,
    first: Seq<AccountId>,
    second: Seq<AccountId>,
    who: AccountId,
)
    requires
        !list.contains(who),
        first.to_multiset() == list.to_multiset(),
        second.to_multiset() == list.to_multiset(),
    ensures
        strictly_ascending(first) && list.len() < MAX_SIGNATORIES ==> canonical_set(first, who)
            == Ok::<Seq<AccountId>, Error>(canonical_insert(first, who)),
        strictly_ascending(first) && list.len() >= MAX_SIGNATORIES ==> canonical_set(first, who)
            == Err::<Seq<AccountId>, Error>(Error::TooManySignatories),
        !strictly_ascending(first) ==> canonical_set(first, who) == Err::<Seq<AccountId>, Error>(
            Error::SignatoriesOutOfOrder,
        ),
        canonical_set(first, who) is Ok && canonical_set(second, who) is Ok ==> canonical_set(
            first,
            who,
        ) == canonical_set(second, who),
{
    list.to_multiset_ensures();
    first.to_multiset_ensures();
    second.to_multiset_ensures();
    assert(first.len() == list.len());
    assert forall|x: AccountId| first.contains(x) <==> second.contains(x) by {
        assert(first.contains(x) <==> first.to_multiset().count(x) > 0);
        assert(second.contains(x) <==> second.to_multiset().count(x) > 0);
    }
    assert(!first.contains(who)) by {
        assert(first.contains(who) <==> first.to_multiset().count(who) > 0);
        assert(list.contains(who) <==> list.to_multiset().count(who) > 0);
    }
    assert(!sender_found_first(first, who)) by {
        if sender_found_first(first, who) {
            let k = choose|k: int|
                0 <= k < first.len() && first[k] == who && #[trigger] strictly_ascending(
                    first.take(k + 1),
                );
            assert(first.contains(who));
        }
    }
    if strictly_ascending(first) {
        lemma_canonical_insert(first, who);
    }
    if canonical_set(first, who) is Ok && canonical_set(second, who) is Ok {
        lemma_ascending_unique(first, second);
    }
}

/// The canonical set depends on the members alone, not on which of them
/// asks: whoever of a set initiates, with the rest as the others, gets the
/// same sequence.
pub proof fn law_canonical_whoever_initiates(
    others1: Seq<AccountId>,
    who1: AccountId,
    others2: Seq<AccountId>,
    who2: AccountId,
)
    requires
        canonical_set(others1, who1) is Ok,
        canonical_set(others2, who2) is Ok,
        forall|x: AccountId|
            (others1.contains(x) || x == who1) <==> (others2.contains(x) || x == who2),
    ensures
        canonical_set(others1, who1) == canonical_set(others2, who2),
{
    lemma_canonical_set(others1, who1);
    lemma_canonical_set(others2, who2);
    let a = canonical_insert(others1, who1);
    let b = canonical_insert(others2, who2);
    assert forall|x: AccountId| a.contains(x) <==> b.contains(x) by {
        assert(a.contains(x) <==> (others1.contains(x) || x == who1));
        assert(b.contains(x) <==> (others2.contains(x) || x == who2));
    }
    lemma_ascending_unique(a, b);
}

/// The canonical set is the only strictly ascending sequence that holds the
/// initiator, the others and nothing else, and it keeps within the bound.
pub proof fn law_canonical_is_the_sorted_union(
    others: Seq<AccountId>,
    who: AccountId,
    sorted: Seq<AccountId>,
)
    requires
        canonical_set(others, who) is Ok,
        strictly_ascending(sorted),
        forall|x: AccountId| sorted.contains(x) <==> (others.contains(x) || x == who),
    ensures
        canonical_set(others, who) == Ok::<Seq<AccountId>, Error>(sorted),
        sorted.len() == others.len() + 1,
        sorted.len() <= MAX_SIGNATORIES,
{
    lemma_canonical_set(others, who);
    let a = canonical_insert(others, who);
    assert forall|x: AccountId| a.contains(x) <==> sorted.contains(x) by {
        assert(a.contains(x) <==> (others.contains(x) || x == who));
    }
    lemma_ascending_unique(a, sorted);
}

/// Canonicalizing never gives more than the bound allows: a strictly
/// ascending list without the initiator that leaves no room for it is
/// rejected as too long, and a list with a fault is rejected for the fault,
/// however long it is.
pub proof fn law_canonical_keeps_the_bound(others: Seq<AccountId>, who: AccountId)
    ensures
        canonical_set(others, who) matches Ok(set) ==> set.len() <= MAX_SIGNATORIES
            && strictly_ascending(set),
        canonical_set(others, who) == Err::<Seq<AccountId>, Error>(Error::TooManySignatories)
            <==> strictly_ascending(others) && !others.contains(who) && others.len()
            >= MAX_SIGNATORIES,
{
    if strictly_ascending(others) && !others.contains(who) {
        lemma_canonical_insert(others, who);
    }
}

/// The same signatories and threshold always give the same identity.
pub proof fn law_derivation_is_deterministic(
    who1: Seq<AccountId>,
    threshold1: u16,
    who2: Seq<AccountId>,
    threshold2: u16,
)
    requires
        who1 == who2,
        threshold1 == threshold2,
    ensures
        derived_account_id(who1, threshold1) == derived_account_id(who2, threshold2),
{
}

/// Other signatories, or another threshold, give another seed to the
/// digest. (Whether they give another identity is then up to the digest.)
pub proof fn law_derivation_seed_is_sensitive(
    who1: Seq<AccountId>,
    threshold1: u16,
    who2: Seq<AccountId>,
    threshold2: u16,
)
    requires
        who1 != who2 || threshold1 != threshold2,
    ensures
        account_seed(DOMAIN_TAG@, who1, threshold1) != account_seed(DOMAIN_TAG@, who2, threshold2),
{
    if account_seed(DOMAIN_TAG@, who1, threshold1) == account_seed(DOMAIN_TAG@, who2, threshold2) {
        lemma_seed_injective(DOMAIN_TAG@, who1, threshold1, who2, threshold2);
    }
}

/// A threshold below 2 is rejected before anything else is looked at.
pub proof fn law_low_threshold_rejected(who: AccountId, others: Seq<AccountId>, threshold: u16)
    requires
        threshold < 2,
    ensures
        registration(who, others, threshold) == Err::<Seq<AccountId>, Error>(
            Error::MinimumThreshold,
        ),
{
}

/// Registering keeps the ledger well formed, and the record that it writes
/// holds the initiator.
pub proof fn law_register_keeps_well_formed(
    state: State,
    who: AccountId,
    id: AccountId,
    others: Seq<AccountId>,
    threshold: u16,
)
    requires
        state.well_formed(),
    ensures
        state.register(who, id, others, threshold).well_formed(),
        registration(who, others, threshold) is Ok ==> state.register(
            who,
            id,
            others,
            threshold,
        ).is_signatory(id, who),
{
    if registration(who, others, threshold) is Ok {
        lemma_canonical_set(others, who);
    }
}

/// Approving keeps the ledger well formed.
pub proof fn law_approve_keeps_well_formed(
    state: State,
    who: AccountId,
    id: AccountId,
    hash: Seq<u8>,
)
    requires
        state.well_formed(),
    ensures
        state.approve(who, id, hash).well_formed(),
{
    if canonical_set(state.approvals_of(id, hash), who) is Ok {
        lemma_canonical_set(state.approvals_of(id, hash), who);
    }
}

/// Whoever is not a signatory of the account is turned away, whatever the
/// call and whatever has become of it, and the ledger stays as it was.
pub proof fn law_stranger_rejected(state: State, who: AccountId, id: AccountId, hash: Seq<u8>)
    requires
        !state.is_signatory(id, who),
    ensures
        state.approval(who, id, hash) == Err::<bool, Error>(Error::SignerIsNotApproved),
        state.approve(who, id, hash) == state,
{
}

/// Nobody may act for an account that is not registered.
pub proof fn law_unregistered_has_no_signatory(state: State, who: AccountId, id: AccountId)
    requires
        !state.accounts.contains_key(id),
    ensures
        !state.is_signatory(id, who),
        state.threshold_of(id) == 0,
{
}

/// What an approval comes to for a signatory of the account. Who has
/// approved the call already is rejected, whatever has become of the call.
/// From anyone else the approval of an authorized call is taken and comes to
/// nothing; that of a call not yet authorized is recorded, and the quorum is
/// complete exactly when the approvers so far and the new one are as many
/// as the threshold. (No approval fails for want of room.)
pub proof fn law_quorum_exactly_at_threshold(
    state: State,
    who: AccountId,
    id: AccountId,
    hash: Seq<u8>,
)
    requires
        state.well_formed(),
        state.is_signatory(id, who),
    ensures
        state.approvals_of(id, hash).contains(who) ==> state.approval(who, id, hash) == Err::<
            bool,
            Error,
        >(Error::SenderInSignatories),
        !state.approvals_of(id, hash).contains(who) && state.executed.contains(hash) ==> {
            &&& state.approval(who, id, hash) == Ok::<bool, Error>(false)
            &&& state.approve(who, id, hash) == state
        },
        !state.approvals_of(id, hash).contains(who) && !state.executed.contains(hash)
            ==> state.approval(who, id, hash) == Ok::<bool, Error>(
            state.approvals_of(id, hash).len() + 1 >= state.threshold_of(id),
        ),
        state.approval(who, id, hash) == Ok::<bool, Error>(true) ==> {
            &&& !state.executed.contains(hash)
            &&& state.approve(who, id, hash).executed.contains(hash)
            &&& state.approve(who, id, hash).approvals_of(id, hash).len() == 0
        },
        state.approval(who, id, hash) == Ok::<bool, Error>(false) && !state.executed.contains(hash)
            ==> {
            &&& !state.approve(who, id, hash).executed.contains(hash)
            &&& state.approve(who, id, hash).approvals_of(id, hash) == canonical_insert(
                state.approvals_of(id, hash),
                who,
            )
        },
{
    let approvers = state.approvals_of(id, hash);
    assert(strictly_ascending(approvers));
    if approvers.contains(who) {
        lemma_member_rejected(approvers, who);
    } else {
        lemma_canonical_insert(approvers, who);
    }
}

/// Nobody approves a call twice: who is among the approvers of a call is
/// rejected on approving it again, whether or not the call has been
/// authorized in between, and the ledger, the call's approvals with it,
/// stays as it was.
pub proof fn law_no_double_approval(state: State, who: AccountId, id: AccountId, hash: Seq<u8>)
    requires
        state.well_formed(),
        state.is_signatory(id, who),
        state.approvals_of(id, hash).contains(who),
    ensures
        state.approval(who, id, hash) == Err::<bool, Error>(Error::SenderInSignatories),
        state.approve(who, id, hash) == state,
{
    lemma_member_rejected(state.approvals_of(id, hash), who);
}

/// An approval that was recorded is not taken again: after an approval that
/// left the call pending, the same signatory's next approval of the same
/// call is rejected and changes nothing.
pub proof fn law_recorded_approval_is_not_repeated(
    state: State,
    who: AccountId,
    id: AccountId,
    hash: Seq<u8>,
)
    requires
        state.well_formed(),
        state.approval(who, id, hash) == Ok::<bool, Error>(false),
        !state.executed.contains(hash),
    ensures
        state.approve(who, id, hash).approvals_of(id, hash).contains(who),
        state.approve(who, id, hash).approval(who, id, hash) == Err::<bool, Error>(
            Error::SenderInSignatories,
        ),
        state.approve(who, id, hash).approve(who, id, hash) == state.approve(who, id, hash),
{
    let approvers = state.approvals_of(id, hash);
    lemma_canonical_set(approvers, who);
    let next = state.approve(who, id, hash);
    assert(next.approvals_of(id, hash) == canonical_insert(approvers, who));
    assert(canonical_insert(approvers, who).contains(who));
    lemma_member_rejected(canonical_insert(approvers, who), who);
}

/// The order in which two signatories approve a call does not matter:
/// where both are accepted whichever comes first, the second is told the
/// same and the ledger is the same either way.
pub proof fn law_approval_order_is_immaterial(
    state: State,
    id: AccountId,
    hash: Seq<u8>,
    one: AccountId,
    other: AccountId,
)
    requires
        state.well_formed(),
        one != other,
        state.approval(one, id, hash) == Ok::<bool, Error>(false),
        state.approval(other, id, hash) == Ok::<bool, Error>(false),
        state.approve(one, id, hash).approval(other, id, hash) is Ok,
        state.approve(other, id, hash).approval(one, id, hash) is Ok,
    ensures
        state.approve(one, id, hash).approval(other, id, hash) == state.approve(
            other,
            id,
            hash,
        ).approval(one, id, hash),
        state.approve(one, id, hash).approve(other, id, hash) == state.approve(
            other,
            id,
            hash,
        ).approve(one, id, hash),
{
    if !state.executed.contains(hash) {
        let start = state.approvals_of(id, hash);
        lemma_canonical_set(start, one);
        lemma_canonical_set(start, other);
        let with_one = canonical_insert(start, one);
        let with_other = canonical_insert(start, other);
        let first = state.approve(one, id, hash);
        let second = state.approve(other, id, hash);
        assert(first.approvals_of(id, hash) == with_one);
        assert(second.approvals_of(id, hash) == with_other);
        lemma_canonical_set(with_one, other);
        lemma_canonical_set(with_other, one);
        let both = canonical_insert(with_one, other);
        let both_too = canonical_insert(with_other, one);
        assert forall|x: AccountId| both.contains(x) <==> both_too.contains(x) by {
            assert(with_one.contains(x) <==> (start.contains(x) || x == one));
            assert(with_other.contains(x) <==> (start.contains(x) || x == other));
            assert(both.contains(x) <==> (with_one.contains(x) || x == other));
            assert(both_too.contains(x) <==> (with_other.contains(x) || x == one));
        }
        lemma_ascending_unique(both, both_too);
        let end = first.approve(other, id, hash);
        let end_too = second.approve(one, id, hash);
        assert(end.approvals =~= end_too.approvals);
        assert(end.executed =~= end_too.executed);
    }
}

/// Only signatories approve: an approval is taken from no one else, and as
/// long as the approvers of an account's calls are signatories of it, an
/// approval, of whatever call of whatever account, leaves them so.
pub proof fn law_approvers_are_signatories(
    state: State,
    who: AccountId,
    id: AccountId,
    hash: Seq<u8>,
    of: AccountId,
)
    requires
        state.well_formed(),
        state.approvers_are_signatories(of),
    ensures
        state.approval(who, id, hash) is Ok ==> state.is_signatory(id, who),
        state.approve(who, id, hash).approvers_are_signatories(of),
{
    let next = state.approve(who, id, hash);
    assert forall|h: Seq<u8>, x: AccountId| #[trigger]
        next.approvals_of(of, h).contains(x) implies next.is_signatory(of, x) by {
        if (of, h) == (id, hash) && next.approvals != state.approvals {
            if state.approval(who, id, hash) == Ok::<bool, Error>(false) {
                lemma_canonical_set(state.approvals_of(id, hash), who);
                if x != who {
                    assert(state.approvals_of(of, h).contains(x));
                }
            }
        } else {
            assert(next.approvals_of(of, h) == state.approvals_of(of, h));
            assert(state.approvals_of(of, h).contains(x));
        }
    }
}

/// Registering an account leaves the approvers of every other account's
/// calls signatories of it. Those of the account itself stay signatories
/// where the new signatories hold the old ones; a registration that drops
/// a signatory leaves the approvals that it has given.
pub proof fn law_registration_and_approvers(
    state: State,
    who: AccountId,
    id: AccountId,
    others: Seq<AccountId>,
    threshold: u16,
    of: AccountId,
)
    requires
        state.approvers_are_signatories(of),
        of == id ==> forall|x: AccountId|
            state.is_signatory(id, x) ==> state.register(who, id, others, threshold).is_signatory(
                id,
                x,
            ),
    ensures
        state.register(who, id, others, threshold).approvers_are_signatories(of),
{
    let next = state.register(who, id, others, threshold);
    assert forall|h: Seq<u8>, x: AccountId| #[trigger]
        next.approvals_of(of, h).contains(x) implies next.is_signatory(of, x) by {
        assert(next.approvals_of(of, h) == state.approvals_of(of, h));
        assert(state.approvals_of(of, h).contains(x));
        assert(state.is_signatory(of, x));
    }
}

/// A rejected operation changes nothing.
pub proof fn law_rejection_changes_nothing(
    state: State,
    who: AccountId,
    id: AccountId,
    others: Seq<AccountId>,
    threshold: u16,
    hash: Seq<u8>,
)
    ensures
        registration(who, others, threshold) is Err ==> state.register(
            who,
            id,
            others,
            threshold,
        ) == state,
        state.approval(who, id, hash) is Err ==> state.approve(who, id, hash) == state,
{
}

/// The last registration of an identity is the one that counts: whatever
/// was registered under it before, the signatories and the threshold that
/// are found afterwards are those of the last one. Other identities keep
/// their records.
pub proof fn law_last_registration_wins(
    state: State,
    id: AccountId,
    who1: AccountId,
    others1: Seq<AccountId>,
    threshold1: u16,
    who2: AccountId,
    others2: Seq<AccountId>,
    threshold2: u16,
    other_id: AccountId,
)
    requires
        registration(who2, others2, threshold2) is Ok,
        other_id != id,
    ensures
        ({
            let last = state.register(who1, id, others1, threshold1).register(
                who2,
                id,
                others2,
                threshold2,
            );
            &&& Ok::<Seq<AccountId>, Error>(last.signatories_of(id)) == registration(
                who2,
                others2,
                threshold2,
            )
            &&& last.threshold_of(id) == threshold2
            &&& last == state.register(who2, id, others2, threshold2)
            &&& last.signatories_of(other_id) == state.signatories_of(other_id)
            &&& last.threshold_of(other_id) == state.threshold_of(other_id)
        }),
{
    let mid = state.register(who1, id, others1, threshold1);
    let last = mid.register(who2, id, others2, threshold2);
    let direct = state.register(who2, id, others2, threshold2);
    assert(last.accounts =~= direct.accounts);
}

/// One thing done to the ledger.
pub enum Operation {
    /// `who` registers `id` with `others` and `threshold`.
    Register { who: AccountId, id: AccountId, others: Seq<AccountId>, threshold: u16 },
    /// `who` proposes or approves the call `hash` of `id`.
    Approve { who: AccountId, id: AccountId, hash: Seq<u8> },
}

/// The ledger after one operation.
pub open spec fn after(state: State, operation: Operation) -> State {
    match operation {
        Operation::Register { who, id, others, threshold } => state.register(
            who,
            id,
            others,
            threshold,
        ),
        Operation::Approve { who, id, hash } => state.approve(who, id, hash),
    }
}

/// Whether the operation, done to this ledger, authorizes the call `hash`.
pub open spec fn authorizes(state: State, operation: Operation, hash: Seq<u8>) -> bool {
    operation matches Operation::Approve { who, id, hash: approved } && approved == hash
        && state.approval(who, id, hash) == Ok::<bool, Error>(true)
}

/// The ledger after the first `n` of `operations`.
pub open spec fn after_first(state: State, operations: Seq<Operation>, n: nat) -> State
    decreases n,
{
    if n == 0 {
        state
    } else {
        after(after_first(state, operations, (n - 1) as nat), operations[n - 1])
    }
}

/// No operation takes a call out of the authorized ones or breaks the
/// ledger's form.
pub proof fn law_history_is_kept(state: State, operations: Seq<Operation>, n: nat, m: nat)
    requires
        state.well_formed(),
        n <= m <= operations.len(),
    ensures
        after_first(state, operations, m).well_formed(),
        after_first(state, operations, n).executed.subset_of(
            after_first(state, operations, m).executed,
        ),
    decreases m,
{
    if m == 0 {
    } else {
        let before = after_first(state, operations, (m - 1) as nat);
        if n <= m - 1 {
            law_history_is_kept(state, operations, n, (m - 1) as nat);
        } else {
            law_history_is_kept(state, operations, (m - 1) as nat, (m - 1) as nat);
        }
        match operations[m - 1] {
            Operation::Register { who, id, others, threshold } => {
                law_register_keeps_well_formed(before, who, id, others, threshold);
            },
            Operation::Approve { who, id, hash } => {
                law_approve_keeps_well_formed(before, who, id, hash);
            },
        }
    }
}

/// A call is authorized at most once: in no course of operations do two of
/// them authorize the same digest, whoever approves and for whichever
/// account.
pub proof fn law_authorized_at_most_once(
    state: State,
    operations: Seq<Operation>,
    i: nat,
    j: nat,
    hash: Seq<u8>,
)
    requires
        state.well_formed(),
        i < j < operations.len(),
        authorizes(after_first(state, operations, i), operations[i as int], hash),
    ensures
        !authorizes(after_first(state, operations, j), operations[j as int], hash),
{
    let at_i = after_first(state, operations, i);
    let past_i = after_first(state, operations, i + 1);
    assert(past_i == after(at_i, operations[i as int]));
    assert(past_i.executed.contains(hash));
    law_history_is_kept(state, operations, i + 1, j);
}

} // verus!
