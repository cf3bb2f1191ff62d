use event_tally::engine::{
    act_on, apply_derived_tx, apply_updates, get_voters, timeout_events, EngineError, EthMsgUpdate,
    MultiSignedEthEvent,
};
use event_tally::keys::StorageKey;
use event_tally::oracle::VotingPowers;
use event_tally::power::FractionalVotingPower;
use event_tally::store::LedgerStore;
use event_tally::types::{Address, BlockHeight, Epoch, EthAddress, EventBody, TransferToNamada};
use event_tally::votes::Votes;

fn votes_of(pairs: &[(u64, u64)]) -> Votes {
    let mut v = Votes::new();
    for (a, h) in pairs {
        v.insert_min(Address(*a), BlockHeight(*h));
    }
    v
}

fn powers_of(entries: &[(u64, u64, u64, u64)]) -> VotingPowers {
    let mut p = VotingPowers::new();
    for (a, h, num, den) in entries {
        let f = FractionalVotingPower::new(*num, *den).expect("Test failed");
        p.insert(Address(*a), BlockHeight(*h), f);
    }
    p
}

fn single_transfer_event(nonce: u64, amount: u64, asset: u64, receiver: u64) -> EventBody {
    EventBody::TransfersToNamada {
        nonce,
        transfers: vec![TransferToNamada {
            amount,
            asset: EthAddress(asset),
            receiver: Address(receiver),
        }],
    }
}

#[test]
/// Applying a batch containing a single transfer records and mints it.
fn test_apply_single_transfer() {
    let sole_validator: u64 = 3;
    let receiver: u64 = 2;
    let asset: u64 = 9;
    let amount: u64 = 10;

    let body = single_transfer_event(1, amount, asset, receiver);
    let update = EthMsgUpdate {
        body: body.clone(),
        seen_by: votes_of(&[(sole_validator, 100)]),
    };
    let voting_powers = powers_of(&[(sole_validator, 100, 1, 1)]);
    let mut store = LedgerStore::new();

    let changed_keys = apply_updates(&mut store, vec![update], &voting_powers, Epoch(0))
        .expect("Test failed");

    assert_eq!(changed_keys.len(), 7);
    assert!(changed_keys.contains(&StorageKey::Body(body.clone())));
    assert!(changed_keys.contains(&StorageKey::Seen(body.clone())));
    assert!(changed_keys.contains(&StorageKey::SeenBy(body.clone())));
    assert!(changed_keys.contains(&StorageKey::VotingPower(body.clone())));
    assert!(changed_keys.contains(&StorageKey::Epoch(body.clone())));
    assert!(changed_keys.contains(&StorageKey::Balance {
        asset: EthAddress(asset),
        receiver: Address(receiver)
    }));
    assert!(changed_keys.contains(&StorageKey::Supply { asset: EthAddress(asset) }));

    let rec = store.get_record(&body).expect("Test failed");
    assert!(rec.seen);
    assert_eq!(rec.seen_by, votes_of(&[(sole_validator, 100)]));
    assert_eq!(rec.voting_power, FractionalVotingPower { numer: 1, denom: 1 });
    assert_eq!(rec.recorded_epoch, Epoch(0));
    assert_eq!(store.balance_of(EthAddress(asset), Address(receiver)), amount);
    assert_eq!(store.supply_of(EthAddress(asset)), amount);
}

#[test]
/// An event with enough voting power behind it is applied at the same time
/// that it is recorded in storage.
fn test_apply_derived_tx_new_event_mint_immediately() {
    let sole_validator: u64 = 2;
    let receiver: u64 = 1;
    let event = single_transfer_event(1, 100, 7, receiver);
    let voting_powers = powers_of(&[(sole_validator, 100, 1, 1)]);
    let mut store = LedgerStore::new();

    let result = apply_derived_tx(
        &mut store,
        vec![MultiSignedEthEvent {
            event: event.clone(),
            signers: votes_of(&[(sole_validator, 100)]),
        }],
        &voting_powers,
        Epoch(0),
        2,
    );
    let tx_result = match result {
        Ok(tx_result) => tx_result,
        Err(err) => panic!("unexpected error: {:#?}", err),
    };

    assert_eq!(
        tx_result.gas_used, 0,
        "No gas should be used for a derived transaction"
    );
    assert_eq!(tx_result.changed_keys.len(), 7);
    assert!(tx_result.changed_keys.contains(&StorageKey::Body(event.clone())));
    assert!(tx_result.changed_keys.contains(&StorageKey::Seen(event.clone())));
    assert!(tx_result.changed_keys.contains(&StorageKey::SeenBy(event.clone())));
    assert!(tx_result.changed_keys.contains(&StorageKey::VotingPower(event.clone())));
    assert!(tx_result.changed_keys.contains(&StorageKey::Epoch(event.clone())));
    assert!(tx_result.changed_keys.contains(&StorageKey::Balance {
        asset: EthAddress(7),
        receiver: Address(receiver)
    }));
    assert!(tx_result.changed_keys.contains(&StorageKey::Supply { asset: EthAddress(7) }));
    assert_eq!(store.balance_of(EthAddress(7), Address(receiver)), 100);
    assert_eq!(store.supply_of(EthAddress(7)), 100);
}

#[test]
/// An event that is not backed by enough voting power is recorded but not
/// acted on.
fn test_apply_derived_tx_new_event_dont_mint() {
    let validator_a: u64 = 2;
    let receiver: u64 = 1;
    let event = single_transfer_event(1, 100, 7, receiver);
    // two equal validators: each holds half of the voting power
    let voting_powers = powers_of(&[(validator_a, 100, 1, 2)]);
    let mut store = LedgerStore::new();

    let result = apply_derived_tx(
        &mut store,
        vec![MultiSignedEthEvent {
            event: event.clone(),
            signers: votes_of(&[(validator_a, 100)]),
        }],
        &voting_powers,
        Epoch(0),
        2,
    );
    let tx_result = match result {
        Ok(tx_result) => tx_result,
        Err(err) => panic!("unexpected error: {:#?}", err),
    };

    assert_eq!(
        tx_result.changed_keys.len(),
        5,
        "The event should have been recorded, but no minting should have \
         happened yet as it has only been seen by 1/2 the voting power so far"
    );
    assert!(tx_result.changed_keys.contains(&StorageKey::Body(event.clone())));
    assert!(!store.get_record(&event).expect("Test failed").seen);
    assert_eq!(store.balance_of(EthAddress(7), Address(receiver)), 0);
}

#[test]
/// Duplicate observations in a single call do not produce duplicate votes
/// in storage.
pub fn test_apply_derived_tx_duplicates() {
    let validator_a: u64 = 2;
    let event = single_transfer_event(1, 100, 7, 1);
    let voting_powers = powers_of(&[(validator_a, 100, 1, 2)]);
    let mut store = LedgerStore::new();

    // two votes for the same event from validator A
    let multisigned = MultiSignedEthEvent {
        event: event.clone(),
        signers: votes_of(&[(validator_a, 100)]),
    };
    let multisigned2 = MultiSignedEthEvent {
        event: event.clone(),
        signers: votes_of(&[(validator_a, 100)]),
    };

    let result = apply_derived_tx(
        &mut store,
        vec![multisigned, multisigned2],
        &voting_powers,
        Epoch(0),
        2,
    );
    let tx_result = match result {
        Ok(tx_result) => tx_result,
        Err(err) => panic!("unexpected error: {:#?}", err),
    };

    assert_eq!(
        tx_result.changed_keys.len(),
        5,
        "One vote for the Ethereum event should have been recorded",
    );
    let rec = store.get_record(&event).expect("Test failed");
    assert_eq!(rec.seen_by, votes_of(&[(validator_a, 100)]));
    assert_eq!(rec.voting_power, FractionalVotingPower { numer: 1, denom: 2 });
}

#[test]
/// No voters are returned for an empty set of updates.
pub fn test_get_votes_for_updates_empty() {
    let updates: Vec<EthMsgUpdate> = Vec::new();
    assert!(get_voters(&updates).is_empty());
}

#[test]
/// All the (validator, height) pairs of a set of updates are collected.
pub fn test_get_votes_for_events() {
    let updates = vec![
        EthMsgUpdate {
            body: single_transfer_event(1, 100, 7, 1),
            seen_by: votes_of(&[(1, 100), (2, 102)]),
        },
        EthMsgUpdate {
            body: single_transfer_event(2, 100, 7, 2),
            seen_by: votes_of(&[(1, 101), (3, 100)]),
        },
    ];
    let voters = get_voters(&updates);
    assert_eq!(voters.len(), 4);
    assert!(voters.contains(&(Address(1), BlockHeight(100))));
    assert!(voters.contains(&(Address(1), BlockHeight(101))));
    assert!(voters.contains(&(Address(2), BlockHeight(102))));
    assert!(voters.contains(&(Address(3), BlockHeight(100))));
}

#[test]
/// Timed out events are deleted and their keys reported as changed.
pub fn test_timeout_events() {
    let validator_a: u64 = 2;
    let voting_powers = powers_of(&[(validator_a, 100, 1, 2)]);
    let mut store = LedgerStore::new();
    let unbonding_len: u64 = 2;

    let event = single_transfer_event(1, 100, 7, 1);
    let _result = apply_derived_tx(
        &mut store,
        vec![MultiSignedEthEvent {
            event: event.clone(),
            signers: votes_of(&[(validator_a, 100)]),
        }],
        &voting_powers,
        Epoch(0),
        unbonding_len,
    );
    assert!(store.get_record(&event).is_some(), "Test failed");

    // the chain advances past the unbonding window; a new event arrives
    let new_event = single_transfer_event(2, 100, 7, 1);
    let result = apply_derived_tx(
        &mut store,
        vec![MultiSignedEthEvent {
            event: new_event.clone(),
            signers: votes_of(&[(validator_a, 100)]),
        }],
        &voting_powers,
        Epoch(unbonding_len + 1),
        unbonding_len,
    );
    let tx_result = match result {
        Ok(tx_result) => tx_result,
        Err(err) => panic!("unexpected error: {:#?}", err),
    };

    assert_eq!(
        tx_result.changed_keys.len(),
        10,
        "New event should be inserted and the previous one should be deleted",
    );
    assert!(tx_result.changed_keys.contains(&StorageKey::Body(event.clone())));
    assert!(tx_result.changed_keys.contains(&StorageKey::Body(new_event.clone())));
    assert!(store.get_record(&event).is_none());
    assert!(store.get_record(&new_event).is_some());
}

#[test]
/// Idempotence across batches: re-submitting the same vote in a later call
/// changes neither the voting power nor the seen flag.
fn test_duplicate_vote_across_batches() {
    let validator_a: u64 = 1;
    let voting_powers = powers_of(&[(validator_a, 100, 1, 2)]);
    let mut store = LedgerStore::new();
    let event = single_transfer_event(1, 5, 7, 2);

    let update = EthMsgUpdate { body: event.clone(), seen_by: votes_of(&[(validator_a, 100)]) };
    apply_updates(&mut store, vec![update], &voting_powers, Epoch(0)).expect("Test failed");
    let power_before = store.get_record(&event).unwrap().voting_power;

    let update_again =
        EthMsgUpdate { body: event.clone(), seen_by: votes_of(&[(validator_a, 100)]) };
    let ck = apply_updates(&mut store, vec![update_again], &voting_powers, Epoch(1))
        .expect("Test failed");
    assert!(ck.is_empty());
    let rec = store.get_record(&event).unwrap();
    assert_eq!(rec.voting_power, power_before);
    assert!(!rec.seen);
    assert_eq!(rec.recorded_epoch, Epoch(0));
}

#[test]
/// Exactly two thirds of the voting power does not confirm; strictly more
/// does, and only at the step where the line is first crossed.
fn test_threshold_correctness() {
    let validator_a: u64 = 1;
    let validator_b: u64 = 2;
    let voting_powers = powers_of(&[(validator_a, 100, 2, 3), (validator_b, 100, 1, 300)]);
    let mut store = LedgerStore::new();
    let event = single_transfer_event(1, 50, 7, 3);

    // exactly 2/3: recorded but not confirmed, nothing minted
    let update = EthMsgUpdate { body: event.clone(), seen_by: votes_of(&[(validator_a, 100)]) };
    apply_updates(&mut store, vec![update], &voting_powers, Epoch(0)).expect("Test failed");
    assert!(!store.get_record(&event).unwrap().seen);
    assert_eq!(store.balance_of(EthAddress(7), Address(3)), 0);

    // a sliver more: the threshold is strictly exceeded, minting happens
    let update2 = EthMsgUpdate { body: event.clone(), seen_by: votes_of(&[(validator_b, 100)]) };
    apply_updates(&mut store, vec![update2], &voting_powers, Epoch(0)).expect("Test failed");
    assert!(store.get_record(&event).unwrap().seen);
    assert_eq!(store.balance_of(EthAddress(7), Address(3)), 50);
    assert_eq!(store.supply_of(EthAddress(7)), 50);
}

#[test]
/// Scenario: A (half the power) votes, the event is recorded unseen; B
/// (the other half) votes, the event flips to seen and is minted exactly
/// once; a later duplicate vote from A changes nothing.
fn test_two_validators_flip_then_duplicate() {
    let validator_a: u64 = 1;
    let validator_b: u64 = 2;
    let voting_powers = powers_of(&[(validator_a, 100, 1, 2), (validator_b, 100, 1, 2)]);
    let mut store = LedgerStore::new();
    let event = single_transfer_event(1, 40, 8, 5);

    let u1 = EthMsgUpdate { body: event.clone(), seen_by: votes_of(&[(validator_a, 100)]) };
    apply_updates(&mut store, vec![u1], &voting_powers, Epoch(0)).expect("Test failed");
    assert!(!store.get_record(&event).unwrap().seen);
    assert_eq!(store.balance_of(EthAddress(8), Address(5)), 0);

    let u2 = EthMsgUpdate { body: event.clone(), seen_by: votes_of(&[(validator_b, 100)]) };
    apply_updates(&mut store, vec![u2], &voting_powers, Epoch(0)).expect("Test failed");
    let rec = store.get_record(&event).unwrap();
    assert!(rec.seen);
    assert_eq!(rec.voting_power, FractionalVotingPower { numer: 1, denom: 1 });
    assert_eq!(store.balance_of(EthAddress(8), Address(5)), 40);

    let u3 = EthMsgUpdate { body: event.clone(), seen_by: votes_of(&[(validator_a, 100)]) };
    let ck = apply_updates(&mut store, vec![u3], &voting_powers, Epoch(0)).expect("Test failed");
    assert!(ck.is_empty());
    // minted exactly once: the balance did not grow again
    assert_eq!(store.balance_of(EthAddress(8), Address(5)), 40);
    assert_eq!(store.supply_of(EthAddress(8)), 40);
}

#[test]
/// Scenario: one event already confirmed receives further votes while a
/// brand-new event crosses the threshold in the same batch; only the new
/// one is acted on, and only once.
fn test_confirmed_and_new_in_same_batch() {
    let validator_a: u64 = 1;
    let validator_b: u64 = 2;
    let voting_powers = powers_of(&[(validator_a, 100, 3, 4), (validator_b, 100, 1, 4)]);
    let mut store = LedgerStore::new();
    let old_event = single_transfer_event(1, 10, 7, 5);
    let new_event = single_transfer_event(2, 20, 7, 6);

    // the old event is already confirmed by A's three quarters
    let u0 = EthMsgUpdate { body: old_event.clone(), seen_by: votes_of(&[(validator_a, 100)]) };
    apply_updates(&mut store, vec![u0], &voting_powers, Epoch(0)).expect("Test failed");
    assert!(store.get_record(&old_event).unwrap().seen);
    assert_eq!(store.balance_of(EthAddress(7), Address(5)), 10);

    // one batch: B's extra vote for the old event, and both voting for the new
    let u_old = EthMsgUpdate { body: old_event.clone(), seen_by: votes_of(&[(validator_b, 100)]) };
    let u_new = EthMsgUpdate {
        body: new_event.clone(),
        seen_by: votes_of(&[(validator_a, 100), (validator_b, 100)]),
    };
    apply_updates(&mut store, vec![u_old, u_new], &voting_powers, Epoch(0)).expect("Test failed");

    // the old event was not minted again; the new one was minted once
    assert_eq!(store.balance_of(EthAddress(7), Address(5)), 10);
    assert_eq!(store.balance_of(EthAddress(7), Address(6)), 20);
    assert_eq!(store.supply_of(EthAddress(7)), 30);
}

#[test]
/// A record is still present when the sweeper runs exactly at the end of
/// the unbonding window and gone one epoch later; too-young chains sweep
/// nothing.
fn test_timeout_boundary() {
    let voting_powers = powers_of(&[(1, 100, 1, 2)]);
    let mut store = LedgerStore::new();
    let event = single_transfer_event(1, 10, 7, 5);
    let window: u64 = 2;

    let u = EthMsgUpdate { body: event.clone(), seen_by: votes_of(&[(1, 100)]) };
    apply_updates(&mut store, vec![u], &voting_powers, Epoch(0)).expect("Test failed");

    // current epoch not past the window: the sweep is a no-op
    let ck = timeout_events(&mut store, Epoch(window), window);
    assert!(ck.is_empty());
    assert!(store.get_record(&event).is_some());

    // one epoch past the window: the record is deleted whole
    let ck = timeout_events(&mut store, Epoch(window + 1), window);
    assert_eq!(ck.len(), 5);
    assert!(store.get_record(&event).is_none());
}

#[test]
/// Confirmed records are also swept once they age out; the minted balance
/// stays.
fn test_timeout_sweeps_confirmed_records_too() {
    let voting_powers = powers_of(&[(1, 100, 1, 1)]);
    let mut store = LedgerStore::new();
    let event = single_transfer_event(1, 10, 7, 5);

    let u = EthMsgUpdate { body: event.clone(), seen_by: votes_of(&[(1, 100)]) };
    apply_updates(&mut store, vec![u], &voting_powers, Epoch(0)).expect("Test failed");
    assert!(store.get_record(&event).unwrap().seen);

    let ck = timeout_events(&mut store, Epoch(3), 2);
    assert_eq!(ck.len(), 5);
    assert!(store.get_record(&event).is_none());
    // the side effects are permanent, only the tally bookkeeping is gone
    assert_eq!(store.balance_of(EthAddress(7), Address(5)), 10);
}

#[test]
/// A vote with no weight oracle entry rejects the whole batch before any
/// write.
fn test_missing_weight_is_fatal() {
    let voting_powers = powers_of(&[(1, 100, 1, 2)]);
    let mut store = LedgerStore::new();
    let event = single_transfer_event(1, 10, 7, 5);

    let result = apply_derived_tx(
        &mut store,
        vec![MultiSignedEthEvent {
            event: event.clone(),
            // height 101 is not covered by the oracle
            signers: votes_of(&[(1, 101)]),
        }],
        &voting_powers,
        Epoch(0),
        2,
    );
    assert_eq!(
        result.unwrap_err(),
        EngineError::MissingWeight { validator: Address(1), height: BlockHeight(101) }
    );
    assert!(store.get_record(&event).is_none());
}

#[test]
/// A balance credit that cannot be represented surfaces an actuation
/// failure.
fn test_actuation_overflow_is_surfaced() {
    let voting_powers = powers_of(&[(1, 100, 1, 1)]);
    let mut store = LedgerStore::new();

    let big = single_transfer_event(1, u64::MAX, 7, 5);
    let u1 = EthMsgUpdate { body: big.clone(), seen_by: votes_of(&[(1, 100)]) };
    apply_updates(&mut store, vec![u1], &voting_powers, Epoch(0)).expect("Test failed");
    assert_eq!(store.balance_of(EthAddress(7), Address(5)), u64::MAX);

    let one_more = single_transfer_event(2, 1, 7, 5);
    let u2 = EthMsgUpdate { body: one_more.clone(), seen_by: votes_of(&[(1, 100)]) };
    let result = apply_updates(&mut store, vec![u2], &voting_powers, Epoch(0));
    assert_eq!(result.unwrap_err(), EngineError::ActuationFailure);
    // the failure is surfaced, not rolled back: the vote-tally write stays,
    // and the earlier credit stays
    assert!(store.get_record(&one_more).is_some());
    assert!(store.get_record(&one_more).unwrap().seen);
    assert_eq!(store.balance_of(EthAddress(7), Address(5)), u64::MAX);
}

#[test]
/// A cumulative voting power that cannot be represented in 64 bits is
/// refused.
fn test_voting_power_overflow_is_surfaced() {
    let voting_powers =
        powers_of(&[(1, 100, 1, u64::MAX), (2, 100, 1, u64::MAX - 1)]);
    let mut store = LedgerStore::new();
    let event = single_transfer_event(1, 10, 7, 5);

    let u = EthMsgUpdate {
        body: event.clone(),
        seen_by: votes_of(&[(1, 100), (2, 100)]),
    };
    let result = apply_updates(&mut store, vec![u], &voting_powers, Epoch(0));
    assert_eq!(result.unwrap_err(), EngineError::VotingPowerOverflow);
}

#[test]
/// An empty batch changes nothing and costs nothing.
fn test_empty_batch_is_a_no_op() {
    let voting_powers = VotingPowers::new();
    let mut store = LedgerStore::new();
    let tx = apply_derived_tx(&mut store, Vec::new(), &voting_powers, Epoch(5), 2)
        .expect("Test failed");
    assert_eq!(tx.gas_used, 0);
    assert!(tx.changed_keys.is_empty());
}

#[test]
/// Grouping dedups per validator with the smallest height winning, in
/// whatever order the duplicate votes arrive.
fn test_duplicate_heights_keep_the_smallest() {
    let voting_powers = powers_of(&[(1, 100, 1, 2), (1, 105, 1, 2)]);
    let mut store = LedgerStore::new();
    let event = single_transfer_event(1, 10, 7, 5);

    let u1 = EthMsgUpdate { body: event.clone(), seen_by: votes_of(&[(1, 105)]) };
    let u2 = EthMsgUpdate { body: event.clone(), seen_by: votes_of(&[(1, 100)]) };
    apply_updates(&mut store, vec![u1, u2], &voting_powers, Epoch(0)).expect("Test failed");
    let rec = store.get_record(&event).unwrap();
    assert_eq!(rec.seen_by, votes_of(&[(1, 100)]));
}

#[test]
/// Acting on one event credits each of its transfers, in order.
fn test_act_on_credits_every_transfer() {
    let mut store = LedgerStore::new();
    let event = EventBody::TransfersToNamada {
        nonce: 1,
        transfers: vec![
            TransferToNamada { amount: 5, asset: EthAddress(7), receiver: Address(1) },
            TransferToNamada { amount: 6, asset: EthAddress(7), receiver: Address(2) },
            TransferToNamada { amount: 7, asset: EthAddress(8), receiver: Address(1) },
        ],
    };
    let ck = act_on(&mut store, &event).expect("Test failed");
    assert_eq!(ck.len(), 5);
    assert_eq!(store.balance_of(EthAddress(7), Address(1)), 5);
    assert_eq!(store.balance_of(EthAddress(7), Address(2)), 6);
    assert_eq!(store.balance_of(EthAddress(8), Address(1)), 7);
    assert_eq!(store.supply_of(EthAddress(7)), 11);
    assert_eq!(store.supply_of(EthAddress(8)), 7);
}
