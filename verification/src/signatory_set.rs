//! A set of identities in canonical form, of bounded size: the signatories
//! of an account, or those of them that have approved a call.

use vstd::prelude::*;
use crate::bounded::{
    bounded_as_slice, bounded_from_vec, bounded_into_inner, bounded_items, BoundedIds,
    MAX_SIGNATORIES,
};
use crate::canonical::{
    canonical_set, lemma_adjacent_ascending, lemma_canonical_insert, strictly_ascending, AccountId,
};
use crate::error::Error;
use crate::pallet::Pallet;
use vstd::pervasive::unreached;
use vstd::std_specs::cmp::PartialEqSpecImpl;
use vstd::slice::slice_to_vec;

verus! {

/// Identities in strictly ascending order, at most `MAX_SIGNATORIES` of them.
#[derive(Debug)]
pub struct SignatorySet {
    items: BoundedIds,
}

impl View for SignatorySet {
    type V = Seq<AccountId>;

    closed spec fn view(&self) -> Seq<AccountId> {
        bounded_items(self.items)
    }
}

impl Clone for SignatorySet {
    fn clone(&self) -> (copy: Self)
        ensures
            copy@ == self@,
    {
        match bounded_from_vec(self.to_vec()) {
            Ok(items) => SignatorySet { items },
            Err(_) => unreached(),
        }
    }
}

impl PartialEq for SignatorySet {
    /// Whether the two sets have the same members.
    fn eq(&self, other: &Self) -> (same: bool) {
        let mine = bounded_as_slice(&self.items);
        let theirs = bounded_as_slice(&other.items);
        if mine.len() != theirs.len() {
            return false;
        }
        let mut i: usize = 0;
        while i < mine.len()
            invariant
                0 <= i <= mine@.len(),
                mine@.len() == theirs@.len(),
                mine@ == self@,
                theirs@ == other@,
                forall|k: int| 0 <= k < i ==> mine@[k] == theirs@[k],
            decreases mine.len() - i,
        {
            if mine[i] != theirs[i] {
                return false;
            }
            i += 1;
        }
        assert(mine@ =~= theirs@);
        true
    }
}

impl PartialEqSpecImpl for SignatorySet {
    open spec fn obeys_eq_spec() -> bool {
        true
    }

    open spec fn eq_spec(&self, other: &Self) -> bool {
        self@ == other@
    }
}

impl Eq for SignatorySet {

}

impl SignatorySet {
    /// What holds of every set: its members ascend strictly, and it keeps
    /// within the bound.
    #[verifier::type_invariant]
    pub open spec fn is_canonical(self) -> bool {
        strictly_ascending(self@) && self@.len() <= MAX_SIGNATORIES
    }

    /// The set of `who` and `others`, where `others` is strictly ascending,
    /// does not hold `who` and leaves room for it.
    pub fn canonicalize(who: AccountId, others: Vec<AccountId>) -> (r: Result<Self, Error>)
        ensures
            r matches Ok(set) ==> canonical_set(others@, who) == Ok::<Seq<AccountId>, Error>(set@)
                && set.is_canonical(),
            r matches Err(e) ==> canonical_set(others@, who) == Err::<Seq<AccountId>, Error>(e),
    {
        match Pallet::ensure_sorted_and_insert(others, who) {
            Ok(signatories) => {
                proof {
                    lemma_canonical_insert(others@, who);
                }
                // The sequence is within the bound already, so the vector's own
                // test of it does not fail.
                match bounded_from_vec(signatories) {
                    Ok(items) => Ok(SignatorySet { items }),
                    Err(_) => Err(Error::TooManySignatories),
                }
            },
            Err(e) => Err(e),
        }
    }

    /// This set and `who`, where `who` is not yet a member and there is room
    /// for it.
    pub fn with_member(&self, who: AccountId) -> (r: Result<Self, Error>)
        ensures
            r matches Ok(set) ==> canonical_set(self@, who) == Ok::<Seq<AccountId>, Error>(set@)
                && set.is_canonical(),
            r matches Err(e) ==> canonical_set(self@, who) == Err::<Seq<AccountId>, Error>(e),
    {
        Self::canonicalize(who, self.to_vec())
    }

    /// The set without members.
    pub fn empty() -> (set: Self)
        ensures
            set@ == Seq::<AccountId>::empty(),
            set.is_canonical(),
    {
        match bounded_from_vec(Vec::new()) {
            Ok(items) => SignatorySet { items },
            Err(_) => unreached(),
        }
    }

    /// The set whose members are `items`, which it is if `items` is in
    /// canonical form and within the bound, and not otherwise.
    pub fn from_canonical(items: Vec<AccountId>) -> (r: Option<Self>)
        ensures
            r is Some <==> strictly_ascending(items@) && items@.len() <= MAX_SIGNATORIES,
            r matches Some(set) ==> set@ == items@,
    {
        let mut i: usize = 1;
        while i < items.len()
            invariant
                1 <= i,
                forall|k: int| 1 <= k < i && k < items@.len() ==> items@[k - 1] < #[trigger] items@[k],
            decreases items.len() - i,
        {
            if !(items[i - 1] < items[i]) {
                return None;
            }
            i += 1;
        }
        proof {
            lemma_adjacent_ascending(items@);
        }
        match bounded_from_vec(items) {
            Ok(items) => Some(SignatorySet { items }),
            Err(_) => None,
        }
    }

    /// Whether `who` is a member. The order of the members lets the search
    /// halve what is left at each step.
    pub fn contains(&self, who: AccountId) -> (found: bool)
        ensures
            found == self@.contains(who),
    {
        proof {
            use_type_invariant(self);
        }
        let items = bounded_as_slice(&self.items);
        let mut low: usize = 0;
        let mut high: usize = items.len();
        while low < high
            invariant
                0 <= low <= high <= items@.len(),
                items@ == self@,
                strictly_ascending(items@),
                forall|i: int| 0 <= i < low ==> items@[i] < who,
                forall|i: int| high <= i < items@.len() ==> items@[i] > who,
            decreases high - low,
        {
            let mid = low + (high - low) / 2;
            let item = items[mid];
            if item == who {
                assert(items@[mid as int] == who);
                return true;
            }
            if item < who {
                low = mid + 1;
            } else {
                high = mid;
            }
        }
        false
    }

    /// How many members the set has.
    pub fn len(&self) -> (n: usize)
        ensures
            n == self@.len(),
            n <= MAX_SIGNATORIES,
    {
        proof {
            use_type_invariant(self);
        }
        bounded_as_slice(&self.items).len()
    }

    /// The members in ascending order.
    pub fn to_vec(&self) -> (members: Vec<AccountId>)
        ensures
            members@ == self@,
            strictly_ascending(members@),
            members@.len() <= MAX_SIGNATORIES,
    {
        proof {
            use_type_invariant(self);
        }
        slice_to_vec(bounded_as_slice(&self.items))
    }

    /// The members in ascending order, the set given up for them.
    pub fn into_inner(self) -> (members: Vec<AccountId>)
        ensures
            members@ == self@,
            strictly_ascending(members@),
            members@.len() <= MAX_SIGNATORIES,
    {
        proof {
            use_type_invariant(&self);
        }
        bounded_into_inner(self.items)
    }
}

} // verus!
