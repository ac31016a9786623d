//! Canonical identity sequences: strictly ascending, hence free of duplicates.
//!
//! Everything that is derived from a set of signatories (the account's
//! identity, the membership test, the count of approvals) relies on the set
//! being written in exactly one way. This module says what that way is and
//! builds it.

use vstd::prelude::*;
use crate::bounded::MAX_SIGNATORIES;
use crate::error::Error;
use crate::pallet::Pallet;

verus! {

/// An identity: an opaque value of which only order and equality are used.
pub type AccountId = u64;

/// Every item is smaller than each item after it.
pub open spec fn strictly_ascending(s: Seq<AccountId>) -> bool {
    forall|i: int, j: int| 0 <= i < j < s.len() ==> s[i] < s[j]
}

/// How many items of `s` are smaller than `who`.
pub open spec fn count_below(s: Seq<AccountId>, who: AccountId) -> int
    decreases s.len(),
{
    if s.len() == 0 {
        0
    } else {
        count_below(s.drop_last(), who) + if s.last() < who { 1int } else { 0int }
    }
}

/// `who` placed into `s` behind the items that are smaller than it.
pub open spec fn canonical_insert(s: Seq<AccountId>, who: AccountId) -> Seq<AccountId> {
    s.insert(count_below(s, who), who)
}

/// `who` stands in `s`, and `s` is strictly ascending up to and including
/// that place: a scan from the front meets `who` before it meets a pair
/// that is out of order.
pub open spec fn sender_found_first(s: Seq<AccountId>, who: AccountId) -> bool {
    exists|k: int| 0 <= k < s.len() && s[k] == who && #[trigger] strictly_ascending(s.take(k + 1))
}

/// What canonicalizing `who` together with `others` gives.
///
/// The canonical sequence, if `others` is strictly ascending and does not
/// hold `who`. Otherwise the fault that a scan of `others` from the front
/// meets first: `SenderInSignatories` where it finds `who`,
/// `SignatoriesOutOfOrder` where it finds an item that is not greater than
/// the one before it (and this one, where one item is both).
pub open spec fn canonicalized(others: Seq<AccountId>, who: AccountId) -> Result<
    Seq<AccountId>,
    Error,
> {
    if strictly_ascending(others) && !others.contains(who) {
        Ok(canonical_insert(others, who))
    } else if sender_found_first(others, who) {
        Err(Error::SenderInSignatories)
    } else {
        Err(Error::SignatoriesOutOfOrder)
    }
}

/// The canonical set of `who` together with `others`, which may hold no more
/// than `MAX_SIGNATORIES` identities. A fault in `others` is reported before
/// the size is looked at.
pub open spec fn canonical_set(others: Seq<AccountId>, who: AccountId) -> Result<
    Seq<AccountId>,
    Error,
> {
    match canonicalized(others, who) {
        Ok(set) => if set.len() <= MAX_SIGNATORIES {
            Ok(set)
        } else {
            Err(Error::TooManySignatories)
        },
        Err(e) => Err(e),
    }
}

/// In a strictly ascending sequence without `who`, the items below `who` are
/// exactly the first `count_below` ones.
pub proof fn lemma_count_below_splits(s: Seq<AccountId>, who: AccountId)
    requires
        strictly_ascending(s),
        !s.contains(who),
    ensures
        0 <= count_below(s, who) <= s.len(),
        forall|i: int| 0 <= i < count_below(s, who) ==> s[i] < who,
        forall|i: int| count_below(s, who) <= i < s.len() ==> s[i] > who,
    decreases s.len(),
{
    if s.len() > 0 {
        let front = s.drop_last();
        assert(!front.contains(who)) by {
            if front.contains(who) {
                let k = choose|k: int| 0 <= k < front.len() && front[k] == who;
                assert(s[k] == who);
            }
        }
        lemma_count_below_splits(front, who);
        let c = count_below(front, who);
        assert(s.last() != who) by {
            assert(s[s.len() - 1] == s.last());
        }
        if s.last() < who {
            assert forall|i: int| 0 <= i < s.len() implies s[i] < who by {
                if i < s.len() - 1 {
                    assert(s[i] < s[s.len() - 1]);
                }
            }
            assert(c == front.len()) by {
                if c < front.len() {
                    assert(front[c] > who);
                    assert(s[c] < who);
                }
            }
        } else {
            assert forall|i: int| 0 <= i < c implies s[i] < who by {
                assert(front[i] < who);
            }
            assert forall|i: int| c <= i < s.len() implies s[i] > who by {
                if i < front.len() {
                    assert(front[i] > who);
                }
            }
        }
    }
}

/// Canonical insertion keeps the order, adds `who` and nothing else.
pub proof fn lemma_canonical_insert(s: Seq<AccountId>, who: AccountId)
    requires
        strictly_ascending(s),
        !s.contains(who),
    ensures
        strictly_ascending(canonical_insert(s, who)),
        canonical_insert(s, who).len() == s.len() + 1,
        forall|x: AccountId| canonical_insert(s, who).contains(x) <==> (s.contains(x) || x == who),
{
    lemma_count_below_splits(s, who);
    let k = count_below(s, who);
    let r = canonical_insert(s, who);
    assert forall|i: int, j: int| 0 <= i < j < r.len() implies r[i] < r[j] by {
        if j < k {
            assert(r[i] == s[i] && r[j] == s[j]);
        } else if j == k {
            assert(r[i] == s[i]);
        } else if i < k {
            assert(r[i] == s[i] && r[j] == s[j - 1]);
        } else if i == k {
            assert(r[j] == s[j - 1]);
        } else {
            assert(r[i] == s[i - 1] && r[j] == s[j - 1]);
        }
    }
    assert forall|x: AccountId| r.contains(x) <==> (s.contains(x) || x == who) by {
        if r.contains(x) {
            let i = choose|i: int| 0 <= i < r.len() && r[i] == x;
            if i < k {
                assert(s[i] == x);
            } else if i > k {
                assert(s[i - 1] == x);
            }
        }
        if s.contains(x) {
            let i = choose|i: int| 0 <= i < s.len() && s[i] == x;
            if i < k {
                assert(r[i] == x);
            } else {
                assert(r[i + 1] == x);
            }
        }
        if x == who {
            assert(r[k] == x);
        }
    }
}

/// A canonical set that comes out of `canonical_set` is strictly ascending
/// and within the bound, and holds `who` and `others` and nothing else.
pub proof fn lemma_canonical_set(others: Seq<AccountId>, who: AccountId)
    requires
        canonical_set(others, who) is Ok,
    ensures
        strictly_ascending(others),
        !others.contains(who),
        canonical_set(others, who) == Ok::<Seq<AccountId>, Error>(canonical_insert(others, who)),
        strictly_ascending(canonical_insert(others, who)),
        canonical_insert(others, who).len() == others.len() + 1,
        canonical_insert(others, who).len() <= MAX_SIGNATORIES,
        forall|x: AccountId|
            canonical_insert(others, who).contains(x) <==> (others.contains(x) || x == who),
{
    lemma_canonical_insert(others, who);
}

/// A member of a canonical sequence is found by the scan, which then reports
/// it rather than a fault of order.
pub proof fn lemma_member_rejected(s: Seq<AccountId>, who: AccountId)
    requires
        strictly_ascending(s),
        s.contains(who),
    ensures
        canonicalized(s, who) == Err::<Seq<AccountId>, Error>(Error::SenderInSignatories),
{
    let k = s.index_of(who);
    assert(strictly_ascending(s.take(k + 1)));
}

/// A sequence each item of which is greater than the one before it is
/// strictly ascending.
pub proof fn lemma_adjacent_ascending(s: Seq<AccountId>)
    requires
        forall|k: int| 1 <= k < s.len() ==> s[k - 1] < #[trigger] s[k],
    ensures
        strictly_ascending(s),
    decreases s.len(),
{
    if s.len() > 1 {
        let front = s.drop_last();
        assert forall|k: int| 1 <= k < front.len() implies front[k - 1] < #[trigger] front[k] by {
            assert(s[k - 1] < s[k]);
        }
        lemma_adjacent_ascending(front);
        assert forall|i: int, j: int| 0 <= i < j < s.len() implies s[i] < s[j] by {
            if j < s.len() - 1 {
                assert(front[i] < front[j]);
            } else {
                assert(s[j - 1] < s[j]);
                if i < j - 1 {
                    assert(front[i] < front[j - 1]);
                }
            }
        }
    }
}

/// A strictly ascending sequence is determined by the set of its items.
pub proof fn lemma_ascending_unique(a: Seq<AccountId>, b: Seq<AccountId>)
    requires
        strictly_ascending(a),
        strictly_ascending(b),
        forall|x: AccountId| a.contains(x) <==> b.contains(x),
    ensures
        a == b,
    decreases a.len(),
{
    if a.len() == 0 {
        if b.len() > 0 {
            assert(b.contains(b[0]));
        }
        assert(a =~= b);
    } else {
        let top = a.last();
        assert(a.contains(top)) by {
            assert(a[a.len() - 1] == top);
        }
        let at = choose|k: int| 0 <= k < b.len() && b[k] == top;
        assert(at == b.len() - 1) by {
            if at < b.len() - 1 {
                let above = b[b.len() - 1];
                assert(b.contains(above));
                let k = choose|k: int| 0 <= k < a.len() && a[k] == above;
                assert(a[k] <= a[a.len() - 1]);
            }
        }
        let a0 = a.drop_last();
        let b0 = b.drop_last();
        assert forall|x: AccountId| a0.contains(x) <==> b0.contains(x) by {
            if a0.contains(x) {
                let i = choose|i: int| 0 <= i < a0.len() && a0[i] == x;
                assert(a[i] == x && a[i] < a[a.len() - 1]);
                assert(b.contains(x));
                let j = choose|j: int| 0 <= j < b.len() && b[j] == x;
                assert(b0[j] == x);
            }
            if b0.contains(x) {
                let j = choose|j: int| 0 <= j < b0.len() && b0[j] == x;
                assert(b[j] == x && b[j] < b[b.len() - 1]);
                assert(a.contains(x));
                let i = choose|i: int| 0 <= i < a.len() && a[i] == x;
                assert(a0[i] == x);
            }
        }
        lemma_ascending_unique(a0, b0);
        assert(a =~= a0.push(top));
        assert(b =~= b0.push(top));
    }
}

impl Pallet {
    /// Check that `other_signatories` is sorted and doesn't contain the sender,
    /// then insert the sender, if there is room for it.
    ///
    /// One pass does both checks and finds the place of `who`. The size is
    /// looked at after the pass: a fault of the list is reported before it.
    pub fn ensure_sorted_and_insert(other_signatories: Vec<AccountId>, who: AccountId) -> (r:
        Result<Vec<AccountId>, Error>)
        ensures
            r matches Ok(v) ==> canonical_set(other_signatories@, who) == Ok::<Seq<AccountId>, Error>(
                v@,
            ),
            r matches Err(e) ==> canonical_set(other_signatories@, who) == Err::<Seq<AccountId>, Error>(
                e,
            ),
    {
        let mut signatories = other_signatories;
        let ghost others = signatories@;
        let mut index: usize = 0;
        let mut i: usize = 0;
        while i < signatories.len()
            invariant
                signatories@ == others,
                others == other_signatories@,
                0 <= index <= i <= others.len(),
                index == count_below(others.take(i as int), who),
                strictly_ascending(others.take(i as int)),
                !others.take(i as int).contains(who),
            decreases others.len() - i,
        {
            let item = signatories[i];
            let ghost seen = others.take(i as int);
            let ghost next = others.take(i + 1);
            assert(next.drop_last() =~= seen);
            assert(next.last() == item);
            if i > 0 && !(signatories[i - 1] < item) {
                proof {
                    assert(!strictly_ascending(others));
                    assert(!sender_found_first(others, who)) by {
                        if sender_found_first(others, who) {
                            let k = choose|k: int|
                                0 <= k < others.len() && others[k] == who && #[trigger] strictly_ascending(
                                    others.take(k + 1),
                                );
                            if k < i {
                                assert(seen[k] == who);
                            } else {
                                let upto = others.take(k + 1);
                                assert(upto[i - 1] < upto[i as int]);
                            }
                        }
                    }
                }
                return Err(Error::SignatoriesOutOfOrder);
            }
            proof {
                assert forall|a: int, b: int| 0 <= a < b < next.len() implies next[a] < next[b] by {
                    if b < i {
                        assert(seen[a] < seen[b]);
                    } else if a < i - 1 {
                        assert(seen[a] < seen[i - 1]);
                    }
                }
            }
            if item <= who {
                if item == who {
                    proof {
                        assert(others.contains(who)) by {
                            assert(others[i as int] == who);
                        }
                        assert(strictly_ascending(others.take(i + 1)));
                    }
                    return Err(Error::SenderInSignatories);
                }
                index += 1;
            }
            proof {
                assert(!next.contains(who)) by {
                    if next.contains(who) {
                        let k = choose|k: int| 0 <= k < next.len() && next[k] == who;
                        if k < i {
                            assert(seen[k] == who);
                        }
                    }
                }
            }
            i += 1;
        }
        proof {
            assert(others.take(others.len() as int) =~= others);
            lemma_count_below_splits(others, who);
        }
        if signatories.len() >= MAX_SIGNATORIES as usize {
            return Err(Error::TooManySignatories);
        }
        signatories.insert(index, who);
        Ok(signatories)
    }
}

} // verus!
