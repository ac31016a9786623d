use multi_account::error::Error;
use multi_account::event::Event;
use multi_account::pallet::Pallet;
use polkadot_sdk_frame::deps::codec::Encode;
use polkadot_sdk_frame::deps::sp_io::hashing::blake2_256;

pub type MultiSigAccount = (u64, Vec<u64>, u16);

/// The encoding of the host's `System::remark` call with the given remark:
/// the index of the pallet, the index of the call, the remark.
fn remark_call(remark: Vec<u8>) -> Vec<u8> {
    (0u8, 0u8, remark).encode()
}

fn create_a_multisig_account() -> MultiSigAccount {
    let mut ledger = Pallet::new();
    let who = 1;
    let other_signatories = vec![2, 3, 4, 5, 6];
    let threshold = 2;
    let id = Pallet::multi_account_id(other_signatories.as_slice(), threshold);
    ledger
        .register_account(who, id, other_signatories.clone(), threshold)
        .expect("This should not have failed");
    (id, other_signatories, threshold)
}

#[test]
fn it_should_create_an_account_in_database() {
    let mut ledger = Pallet::new();
    let mut events: Vec<Event> = Vec::new();
    let who = 1;
    let mut other_signatories = vec![2, 3, 4, 5, 6];
    let threshold = 2;
    let id = Pallet::multi_account_id(other_signatories.as_slice(), threshold);

    let registered = ledger.register_account(who, id, other_signatories.clone(), threshold);
    assert!(registered.is_ok());
    events.push(registered.unwrap());
    other_signatories.insert(0, 1);
    let event = Event::Account { id, signatories: other_signatories.clone(), threshold };
    assert!(!events.is_empty(), "The genesis block has no events");
    assert!(events.contains(&event));
    assert_eq!(events.last(), Some(&event));
    assert_eq!(ledger.signatories_of(id), other_signatories);
    assert_eq!(ledger.threshold_of(id), threshold);
    let (again, _, _) = create_a_multisig_account();
    assert_eq!(again, id);
}

#[test]
fn should_be_able_to_transfer_to_multi_sig_account() {
    let ledger = Pallet::new();
    assert_eq!(ledger, Pallet::new());
}

#[test]
fn it_should_create_a_call_succesfully_if_signatory() {
    let mut ledger = Pallet::new();
    let who = 1;
    let other_signatories = vec![2, 3, 4, 5, 6];
    let threshold = 2;
    let id = Pallet::multi_account_id(other_signatories.as_slice(), threshold);
    ledger
        .register_account(who, id, other_signatories.clone(), threshold)
        .expect("This should not fail under no circumstance");
    let call = remark_call(vec![42, 34, 23, 78]);
    assert!(ledger.account_create_call(who, id, &call).is_ok());
    let hash = blake2_256(&call);
    assert_eq!(ledger.approvals_of(id, &hash), vec![1]);
}

#[test]
fn should_fail_to_create_a_call_if_not_signatory() {
    let mut ledger = Pallet::new();
    let who = 1;
    let other_signatories = vec![2, 3, 4, 5, 6];
    let threshold = 2;
    let id = Pallet::multi_account_id(other_signatories.as_slice(), threshold);
    ledger
        .register_account(who, id, other_signatories.clone(), threshold)
        .expect("This should not fail under no circumstance");
    let call = remark_call(vec![42, 34, 23, 78]);
    let attacker = 89;
    assert!(ledger.account_create_call(attacker, id, &call).is_err());
    let before = ledger.clone();
    assert_eq!(ledger.account_create_call(attacker, id, &call), Err(Error::SignerIsNotApproved));
    assert_eq!(ledger, before);
}

#[test]
fn register_rejects_a_threshold_below_two() {
    let mut ledger = Pallet::new();
    let before = ledger.clone();
    assert_eq!(ledger.register_account(1, 7, vec![2, 3, 4, 5, 6], 1), Err(Error::MinimumThreshold));
    assert_eq!(ledger.register_account(1, 7, vec![2, 3, 4, 5, 6], 0), Err(Error::MinimumThreshold));
    assert_eq!(ledger, before);
    assert_eq!(ledger.threshold_of(7), 0);
    assert!(!ledger.is_signatory(7, 1));
}

#[test]
fn register_looks_at_the_threshold_before_the_signatories() {
    let mut ledger = Pallet::new();
    assert_eq!(ledger.register_account(1, 7, vec![3, 2], 1), Err(Error::MinimumThreshold));
    assert_eq!(ledger.register_account(1, 7, vec![1, 2], 1), Err(Error::MinimumThreshold));
}

#[test]
fn register_rejects_signatories_out_of_order() {
    let mut ledger = Pallet::new();
    let before = ledger.clone();
    assert_eq!(ledger.register_account(1, 7, vec![3, 2], 2), Err(Error::SignatoriesOutOfOrder));
    assert_eq!(ledger.register_account(1, 7, vec![2, 2], 2), Err(Error::SignatoriesOutOfOrder));
    assert_eq!(ledger, before);
}

#[test]
fn register_rejects_the_sender_among_the_others() {
    let mut ledger = Pallet::new();
    let before = ledger.clone();
    assert_eq!(ledger.register_account(4, 7, vec![2, 4, 6], 2), Err(Error::SenderInSignatories));
    assert_eq!(ledger, before);
}

#[test]
fn register_takes_a_hundred_signatories_and_no_more() {
    let mut ledger = Pallet::new();
    let others: Vec<u64> = (2..=100).collect();
    let registered = ledger.register_account(1, 7, others, 2);
    assert!(registered.is_ok());
    assert_eq!(ledger.signatories_of(7).len(), 100);

    let before = ledger.clone();
    let others: Vec<u64> = (2..=101).collect();
    assert_eq!(ledger.register_account(1, 8, others, 2), Err(Error::TooManySignatories));
    assert_eq!(ledger, before);
}

#[test]
fn register_reports_a_fault_of_order_before_the_size() {
    let mut ledger = Pallet::new();
    let mut others: Vec<u64> = (2..=200).collect();
    others.push(5);
    assert_eq!(ledger.register_account(1, 8, others, 2), Err(Error::SignatoriesOutOfOrder));
}

#[test]
fn register_puts_the_sender_in_its_place() {
    let mut ledger = Pallet::new();
    let event = ledger.register_account(4, 7, vec![2, 3, 5, 6], 3);
    assert_eq!(event, Ok(Event::Account { id: 7, signatories: vec![2, 3, 4, 5, 6], threshold: 3 }));
    let event = ledger.register_account(9, 8, vec![3], 2);
    assert_eq!(event, Ok(Event::Account { id: 8, signatories: vec![3, 9], threshold: 2 }));
    assert!(ledger.is_signatory(7, 4));
    assert!(ledger.is_signatory(7, 6));
    assert!(!ledger.is_signatory(7, 9));
    assert!(ledger.is_signatory(8, 9));
    assert!(!ledger.is_signatory(8, 4));
}

#[test]
fn registering_again_overwrites_the_record() {
    let mut ledger = Pallet::new();
    ledger.register_account(1, 7, vec![2, 3, 4, 5, 6], 2).unwrap();
    ledger.register_account(10, 7, vec![20, 30], 3).unwrap();
    assert_eq!(ledger.signatories_of(7), vec![10, 20, 30]);
    assert_eq!(ledger.threshold_of(7), 3);
    assert!(!ledger.is_signatory(7, 1));
    assert!(ledger.is_signatory(7, 20));

    let mut direct = Pallet::new();
    direct.register_account(10, 7, vec![20, 30], 3).unwrap();
    assert_eq!(ledger.signatories_of(7), direct.signatories_of(7));
    assert_eq!(ledger.threshold_of(7), direct.threshold_of(7));
}

#[test]
fn registering_one_account_leaves_the_others() {
    let mut ledger = Pallet::new();
    ledger.register_account(1, 7, vec![2, 3], 2).unwrap();
    ledger.register_account(4, 8, vec![5, 6], 3).unwrap();
    assert_eq!(ledger.signatories_of(7), vec![1, 2, 3]);
    assert_eq!(ledger.threshold_of(7), 2);
    assert_eq!(ledger.signatories_of(8), vec![4, 5, 6]);
    assert_eq!(ledger.threshold_of(8), 3);
}

#[test]
fn an_unregistered_account_has_no_signatories_and_threshold_zero() {
    let ledger = Pallet::new();
    assert_eq!(ledger.signatories_of(1), Vec::<u64>::new());
    assert_eq!(ledger.threshold_of(1), 0);
    assert!(!ledger.is_signatory(1, 1));
    assert_eq!(ledger.approvals_of(1, &[0u8; 32]), Vec::<u64>::new());
    assert!(!ledger.is_executed(&[0u8; 32]));
}

#[test]
fn register_rejects_a_threshold_above_the_number_of_signatories() {
    let mut ledger = Pallet::new();
    let before = ledger.clone();
    assert_eq!(ledger.register_account(1, 7, vec![2], 3), Err(Error::TooFewSignatories));
    assert_eq!(ledger.register_account(1, 7, vec![], 2), Err(Error::TooFewSignatories));
    assert_eq!(ledger.register_account(1, 7, vec![2, 3, 4, 5, 6], 7), Err(Error::TooFewSignatories));
    assert_eq!(ledger, before);
    assert!(ledger.register_account(1, 7, vec![2, 3, 4, 5, 6], 6).is_ok());
    assert!(ledger.register_account(1, 8, vec![2], 2).is_ok());
}

#[test]
fn register_looks_at_the_number_of_signatories_last() {
    let mut ledger = Pallet::new();
    assert_eq!(ledger.register_account(1, 7, vec![], 1), Err(Error::MinimumThreshold));
    assert_eq!(ledger.register_account(1, 7, vec![3, 2], 9), Err(Error::SignatoriesOutOfOrder));
    assert_eq!(ledger.register_account(1, 7, vec![1], 9), Err(Error::SenderInSignatories));
    let others: Vec<u64> = (2..=101).collect();
    assert_eq!(ledger.register_account(1, 7, others, 200), Err(Error::TooManySignatories));
}
