use multi_account::identity::{identity_from_entropy, DOMAIN_TAG};
use multi_account::pallet::Pallet;
use polkadot_sdk_frame::deps::codec::Decode;
use polkadot_sdk_frame::deps::sp_io::hashing::blake2_256;
use polkadot_sdk_frame::traits::TrailingZeroInput;

/// The identity as the seed, written out by hand, gives it.
fn by_hand(compact_len: &[u8], who: &[u64], threshold: u16) -> u64 {
    let mut seed: Vec<u8> = b"modlpy/utilisuba".to_vec();
    seed.extend_from_slice(compact_len);
    for member in who {
        seed.extend_from_slice(&member.to_le_bytes());
    }
    seed.extend_from_slice(&threshold.to_le_bytes());
    let digest = blake2_256(&seed);
    let mut first = [0u8; 8];
    first.copy_from_slice(&digest[0..8]);
    u64::from_le_bytes(first)
}

#[test]
fn the_tag_is_the_reserved_one() {
    assert_eq!(&DOMAIN_TAG, b"modlpy/utilisuba");
}

#[test]
fn the_identity_is_read_from_the_first_eight_bytes() {
    let mut entropy = [0u8; 32];
    assert_eq!(identity_from_entropy(&entropy), 0);
    entropy[0] = 1;
    assert_eq!(identity_from_entropy(&entropy), 1);
    entropy[1] = 2;
    assert_eq!(identity_from_entropy(&entropy), 513);
    entropy[7] = 0x80;
    assert_eq!(identity_from_entropy(&entropy), 0x8000_0000_0000_0201);
    entropy[8] = 0xff;
    entropy[31] = 0xff;
    assert_eq!(identity_from_entropy(&entropy), 0x8000_0000_0000_0201);
    assert_eq!(identity_from_entropy(&[0xff; 32]), u64::MAX);
}

#[test]
fn the_identity_is_what_the_codec_reads_from_the_digest() {
    for digest in [blake2_256(b""), blake2_256(b"one"), [0xff; 32], [0; 32]] {
        let decoded = u64::decode(&mut TrailingZeroInput::new(&digest)).unwrap();
        assert_eq!(identity_from_entropy(&digest), decoded);
    }
}

#[test]
fn the_identity_is_the_digest_of_the_seed() {
    assert_eq!(Pallet::multi_account_id(&[2, 3, 4, 5, 6], 2), by_hand(&[20], &[2, 3, 4, 5, 6], 2));
    assert_eq!(
        Pallet::multi_account_id(&[1, 2, 3, 4, 5, 6], 2),
        by_hand(&[24], &[1, 2, 3, 4, 5, 6], 2)
    );
    assert_eq!(Pallet::multi_account_id(&[], 0), by_hand(&[0], &[], 0));
    assert_eq!(
        Pallet::multi_account_id(&[u64::MAX, 0x0102_0304_0506_0708], 0xabcd),
        by_hand(&[8], &[u64::MAX, 0x0102_0304_0506_0708], 0xabcd)
    );
}

#[test]
fn the_length_is_written_in_one_two_or_four_bytes() {
    let who: Vec<u64> = (1..=63).collect();
    assert_eq!(Pallet::multi_account_id(&who, 2), by_hand(&[252], &who, 2));
    let who: Vec<u64> = (1..=64).collect();
    assert_eq!(Pallet::multi_account_id(&who, 2), by_hand(&[1, 1], &who, 2));
    let who: Vec<u64> = (1..=100).collect();
    assert_eq!(Pallet::multi_account_id(&who, 2), by_hand(&[145, 1], &who, 2));
    let who: Vec<u64> = (1..=16383).collect();
    assert_eq!(Pallet::multi_account_id(&who, 2), by_hand(&[253, 255], &who, 2));
    let who: Vec<u64> = (1..=16384).collect();
    assert_eq!(Pallet::multi_account_id(&who, 2), by_hand(&[2, 0, 1, 0], &who, 2));
}

#[test]
fn the_same_signatories_and_threshold_give_the_same_identity() {
    let one = Pallet::multi_account_id(&[1, 2, 3], 2);
    let other = Pallet::multi_account_id(&vec![1, 2, 3], 2);
    assert_eq!(one, other);
}

#[test]
fn other_signatories_or_another_threshold_give_another_identity() {
    let id = Pallet::multi_account_id(&[1, 2, 3], 2);
    assert_ne!(id, Pallet::multi_account_id(&[1, 2, 4], 2));
    assert_ne!(id, Pallet::multi_account_id(&[1, 2], 2));
    assert_ne!(id, Pallet::multi_account_id(&[1, 2, 3], 3));
    assert_ne!(id, Pallet::multi_account_id(&[3, 2, 1], 2));
    assert_ne!(id, Pallet::multi_account_id(&[], 2));
}
