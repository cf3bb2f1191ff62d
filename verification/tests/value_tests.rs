use event_tally::encoding::encode_event;
use event_tally::migrations::{DbUpdateType, Key, UpdateStatus, UpdateValue};
use event_tally::power::FractionalVotingPower;
use event_tally::types::{Address, BlockHeight, EthAddress, EventBody, TransferToNamada};
use event_tally::validity::{VpError, VpErrorExtResult, VpSentinel};
use event_tally::votes::Votes;

fn sample_value() -> UpdateValue {
    let hash: Vec<u8> = (0u8..32u8).collect();
    UpdateValue::new(hash, vec![1, 2, 3, 4, 5]).expect("a 32-byte hash")
}

#[test]
/// The framed bytes are the hash, a little-endian length word, then the
/// payload - byte for byte what the reference serializer produces.
fn test_update_value_frame_matches_borsh() {
    let value = sample_value();
    let framed = value.to_bytes();
    let hash_arr: [u8; 32] = value.type_hash.clone().try_into().unwrap();
    let reference = borsh::to_vec(&(hash_arr, value.bytes.clone())).unwrap();
    assert_eq!(framed, reference);
}

#[test]
/// Framing then parsing recovers the value; malformed frames are refused.
fn test_update_value_frame_roundtrip() {
    let value = sample_value();
    let framed = value.to_bytes();
    let parsed = UpdateValue::try_from_bytes(&framed).expect("well-formed frame");
    assert_eq!(parsed, value);

    // too short
    assert!(UpdateValue::try_from_bytes(&vec![0u8; 35]).is_none());
    // length word does not match the payload
    let mut broken = framed.clone();
    broken.push(0xAA);
    assert!(UpdateValue::try_from_bytes(&broken).is_none());
}

#[test]
/// The wire form is uppercase hex and reads back to the same value.
fn test_update_value_hex_roundtrip() {
    let value = sample_value();
    let hex = value.to_hex();
    assert!(hex.chars().all(|c| c.is_ascii_hexdigit() && !c.is_ascii_lowercase()));
    assert_ne!(hex.as_bytes(), value.to_bytes().as_slice());
    let back = UpdateValue::from_hex(&hex).expect("round trip");
    assert_eq!(back, value);

    // not hex at all
    assert!(UpdateValue::from_hex("XYZ").is_none());
    // valid hex, but not a well-formed frame
    assert!(UpdateValue::from_hex("00FF").is_none());
}

#[test]
/// A hash that is not 32 bytes long is refused.
fn test_update_value_bad_hash_len() {
    assert!(UpdateValue::new(vec![0u8; 31], vec![]).is_none());
    assert!(UpdateValue::new(vec![0u8; 33], vec![]).is_none());
}

#[test]
/// An update names the key (or pattern) it modifies.
fn test_db_update_key() {
    let value = sample_value();
    let add = DbUpdateType::Add {
        key: Key::from_path("a/b/c".to_string()),
        value: value.clone(),
        force: false,
    };
    assert_eq!(add.key(), "a/b/c");
    let del = DbUpdateType::Delete(Key::from_path("x/y".to_string()));
    assert_eq!(del.key(), "x/y");
    let rep = DbUpdateType::RepeatAdd { pattern: "p.*".to_string(), value, force: true };
    assert_eq!(rep.key(), "p.*");
    let repdel = DbUpdateType::RepeatDelete("q.*".to_string());
    assert_eq!(repdel.key(), "q.*");
    let status = UpdateStatus::Deleted(vec!["x/y".to_string()]);
    assert_eq!(status, UpdateStatus::Deleted(vec!["x/y".to_string()]));
}

#[test]
/// The canonical encoding is deterministic and separates distinct events.
fn test_event_encoding_identity() {
    let a = EventBody::TransfersToNamada {
        nonce: 1,
        transfers: vec![TransferToNamada {
            amount: 10,
            asset: EthAddress(7),
            receiver: Address(1),
        }],
    };
    let a_again = EventBody::TransfersToNamada {
        nonce: 1,
        transfers: vec![TransferToNamada {
            amount: 10,
            asset: EthAddress(7),
            receiver: Address(1),
        }],
    };
    let b = EventBody::TransfersToNamada {
        nonce: 2,
        transfers: vec![TransferToNamada {
            amount: 10,
            asset: EthAddress(7),
            receiver: Address(1),
        }],
    };
    assert_eq!(encode_event(&a), encode_event(&a_again));
    assert_ne!(encode_event(&a), encode_event(&b));
    // tag byte, nonce, count, then one 24-byte transfer
    assert_eq!(encode_event(&a).len(), 1 + 8 + 8 + 24);
}

#[test]
/// Fraction construction accepts exactly the fractions that are at most
/// one, and addition reduces exactly.
fn test_fractional_voting_power() {
    assert!(FractionalVotingPower::new(1, 0).is_none());
    assert!(FractionalVotingPower::new(2, 1).is_none());
    let half = FractionalVotingPower::new(1, 2).unwrap();
    let sum = half.checked_add(half).unwrap();
    assert_eq!(sum, FractionalVotingPower { numer: 1, denom: 1 });
    let third = FractionalVotingPower::new(1, 3).unwrap();
    let five_sixths = half.checked_add(third).unwrap();
    assert_eq!(five_sixths, FractionalVotingPower { numer: 5, denom: 6 });

    let exactly_two_thirds = FractionalVotingPower::new(2, 3).unwrap();
    assert!(!exactly_two_thirds.exceeds_threshold());
    let a_bit_more = FractionalVotingPower::new(667, 1000).unwrap();
    assert!(a_bit_more.exceeds_threshold());
}

#[test]
/// Votes dedup per validator, keeping the smallest height.
fn test_votes_insert_min() {
    let mut v = Votes::new();
    v.insert_min(Address(5), BlockHeight(100));
    v.insert_min(Address(3), BlockHeight(90));
    v.insert_min(Address(5), BlockHeight(80));
    v.insert_min(Address(5), BlockHeight(120));
    assert_eq!(v.len(), 2);
    assert_eq!(v.get(Address(5)), Some(BlockHeight(80)));
    assert_eq!(v.get(Address(3)), Some(BlockHeight(90)));
    assert_eq!(v.get(Address(4)), None);
    assert!(!v.is_empty());
}

#[test]
/// The sentinel reports exactly the state it was set to.
fn test_vp_sentinel() {
    let mut sentinel = VpSentinel::default();
    assert!(!sentinel.is_out_of_gas());
    assert!(!sentinel.is_invalid_signature());
    sentinel.set_out_of_gas();
    assert!(sentinel.is_out_of_gas());
    assert!(!sentinel.is_invalid_signature());
    sentinel.set_invalid_signature();
    assert!(sentinel.is_invalid_signature());
    assert!(!sentinel.is_out_of_gas());
}

#[test]
/// Validity predicate errors carry their messages; foreign errors are
/// erased to text.
fn test_vp_error() {
    assert_eq!(VpError::Unspecified.message(), "Transaction rejected");
    assert_eq!(VpError::OutOfGas.message(), "Gas limit exceeded");
    assert_eq!(
        VpError::InvalidSignature.message(),
        "Found invalid transaction signature"
    );
    assert_eq!(VpError::Erased("boom".to_string()).message(), "boom");

    let ok: Result<u8, String> = Ok(7);
    assert_eq!(ok.into_vp_error(), Ok(7));
    let err: Result<u8, String> = Err("boom".to_string());
    assert_eq!(err.into_vp_error(), Err(VpError::Erased("boom".to_string())));
}
