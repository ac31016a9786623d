use multi_account::error::Error;
use multi_account::pallet::Pallet;
use multi_account::signatory_set::SignatorySet;

#[test]
fn the_sender_is_inserted_in_its_place() {
    assert_eq!(Pallet::ensure_sorted_and_insert(vec![2, 3, 4, 5, 6], 1), Ok(vec![1, 2, 3, 4, 5, 6]));
    assert_eq!(Pallet::ensure_sorted_and_insert(vec![1, 2, 3, 5, 6], 4), Ok(vec![1, 2, 3, 4, 5, 6]));
    assert_eq!(Pallet::ensure_sorted_and_insert(vec![1, 2, 3, 4, 5], 6), Ok(vec![1, 2, 3, 4, 5, 6]));
    assert_eq!(Pallet::ensure_sorted_and_insert(vec![], 6), Ok(vec![6]));
    assert_eq!(Pallet::ensure_sorted_and_insert(vec![u64::MAX], 0), Ok(vec![0, u64::MAX]));
    assert_eq!(Pallet::ensure_sorted_and_insert(vec![0], u64::MAX), Ok(vec![0, u64::MAX]));
}

#[test]
fn whoever_initiates_gets_the_same_sequence() {
    let members: Vec<u64> = vec![3, 8, 13, 21, 34];
    for at in 0..members.len() {
        let mut others = members.clone();
        let who = others.remove(at);
        assert_eq!(Pallet::ensure_sorted_and_insert(others, who), Ok(members.clone()));
    }
}

#[test]
fn only_the_ascending_arrangement_is_accepted() {
    let who = 4;
    assert_eq!(Pallet::ensure_sorted_and_insert(vec![1, 2, 3], who), Ok(vec![1, 2, 3, 4]));
    for others in [vec![1, 3, 2], vec![2, 1, 3], vec![2, 3, 1], vec![3, 1, 2], vec![3, 2, 1]] {
        assert_eq!(
            Pallet::ensure_sorted_and_insert(others, who),
            Err(Error::SignatoriesOutOfOrder)
        );
    }
}

#[test]
fn a_repeated_signatory_is_out_of_order() {
    assert_eq!(Pallet::ensure_sorted_and_insert(vec![2, 2], 1), Err(Error::SignatoriesOutOfOrder));
    assert_eq!(Pallet::ensure_sorted_and_insert(vec![2, 3, 3], 9), Err(Error::SignatoriesOutOfOrder));
}

#[test]
fn the_sender_among_the_others_is_rejected() {
    assert_eq!(Pallet::ensure_sorted_and_insert(vec![1, 2, 3], 1), Err(Error::SenderInSignatories));
    assert_eq!(Pallet::ensure_sorted_and_insert(vec![1, 2, 3], 2), Err(Error::SenderInSignatories));
    assert_eq!(Pallet::ensure_sorted_and_insert(vec![1, 2, 3], 3), Err(Error::SenderInSignatories));
}

#[test]
fn the_first_fault_met_is_the_one_reported() {
    // The sender stands before the pair that is out of order.
    assert_eq!(Pallet::ensure_sorted_and_insert(vec![3, 1, 5], 3), Err(Error::SenderInSignatories));
    // The pair that is out of order stands before the sender.
    assert_eq!(
        Pallet::ensure_sorted_and_insert(vec![5, 1, 3], 3),
        Err(Error::SignatoriesOutOfOrder)
    );
    // The sender is itself the item that is out of order.
    assert_eq!(
        Pallet::ensure_sorted_and_insert(vec![5, 3, 7], 3),
        Err(Error::SignatoriesOutOfOrder)
    );
    assert_eq!(
        Pallet::ensure_sorted_and_insert(vec![3, 3], 3),
        Err(Error::SenderInSignatories)
    );
}

#[test]
fn the_canonicalizer_keeps_the_bound() {
    let others: Vec<u64> = (1..=99).collect();
    let all: Vec<u64> = (0..=99).collect();
    assert_eq!(Pallet::ensure_sorted_and_insert(others, 0), Ok(all));
    let others: Vec<u64> = (1..=100).collect();
    assert_eq!(Pallet::ensure_sorted_and_insert(others, 0), Err(Error::TooManySignatories));
    let others: Vec<u64> = (1..=100).collect();
    assert_eq!(Pallet::ensure_sorted_and_insert(others, 500), Err(Error::TooManySignatories));
    let others: Vec<u64> = (1..=300).collect();
    assert_eq!(Pallet::ensure_sorted_and_insert(others, 0), Err(Error::TooManySignatories));
}

#[test]
fn a_fault_of_the_list_is_reported_before_its_size() {
    let mut others: Vec<u64> = (1..=200).collect();
    others.push(5);
    assert_eq!(Pallet::ensure_sorted_and_insert(others, 0), Err(Error::SignatoriesOutOfOrder));
    let others: Vec<u64> = (1..=200).collect();
    assert_eq!(Pallet::ensure_sorted_and_insert(others, 150), Err(Error::SenderInSignatories));
}

#[test]
fn a_set_holds_a_hundred_members_and_no_more() {
    let set = SignatorySet::canonicalize(1, (2..=100).collect()).unwrap();
    assert_eq!(set.len(), 100);
    assert_eq!(set.with_member(0).err(), Some(Error::TooManySignatories));
    assert_eq!(set.with_member(50).err(), Some(Error::SenderInSignatories));
    assert_eq!(
        SignatorySet::canonicalize(1, (2..=101).collect()).err(),
        Some(Error::TooManySignatories)
    );
    assert_eq!(
        SignatorySet::canonicalize(2, (2..=101).collect()).err(),
        Some(Error::SenderInSignatories)
    );
}

#[test]
fn a_set_knows_its_members() {
    let set = SignatorySet::canonicalize(13, vec![3, 8, 21, 34]).unwrap();
    assert_eq!(set.to_vec(), vec![3, 8, 13, 21, 34]);
    for member in [3, 8, 13, 21, 34] {
        assert!(set.contains(member));
    }
    for other in [0, 1, 4, 9, 12, 14, 20, 22, 33, 35, u64::MAX] {
        assert!(!set.contains(other));
    }
    assert_eq!(set.len(), 5);
    assert_eq!(set.clone(), set);
    assert_eq!(set.into_inner(), vec![3, 8, 13, 21, 34]);
}

#[test]
fn a_set_grows_by_one_member_at_a_time() {
    let one = SignatorySet::empty().with_member(5).unwrap();
    assert_eq!(one.to_vec(), vec![5]);
    assert!(one.contains(5));
    assert!(!one.contains(4));
    let two = one.with_member(2).unwrap();
    assert_eq!(two.to_vec(), vec![2, 5]);
    let three = two.with_member(9).unwrap();
    assert_eq!(three.to_vec(), vec![2, 5, 9]);
    assert_eq!(three.with_member(5).err(), Some(Error::SenderInSignatories));
    assert_eq!(one.to_vec(), vec![5]);
}
