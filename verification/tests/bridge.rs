use movement_node::bridge::assert_bridge_transfer_details;
use movement_node::bridge::assert_bridge_transfer_details_framework;
use movement_node::bridge::bridge_transfer_details_framework_match;
use movement_node::bridge::bridge_transfer_details_match;
use movement_node::bridge::extract_bridge_transfer_details_framework;
use movement_node::bridge::extract_bridge_transfer_id;
use movement_node::bridge::funded;
use movement_node::bridge::unpadded_preimage;
use movement_node::bridge::AccountTransaction;
use movement_node::bridge::BridgeError;
use movement_node::bridge::BridgeEvent;
use movement_node::bridge::BridgeTransferDetails;
use movement_node::bridge::EthToMovementCallArgs;
use movement_node::bridge::MovementToEthCallArgs;
use movement_node::bridge::MINT_AMOUNT;

fn event(name: &str) -> BridgeEvent {
    BridgeEvent {
        struct_name: Some(name.to_string()),
        bridge_transfer_id: Some(format!("0x{}", "ab".repeat(32))),
        initiator: Some("0xf00d".to_string()),
        recipient: Some("0x0102".to_string()),
        amount: Some("100".to_string()),
        hash_lock: Some("cd".repeat(32)),
        time_lock: Some("3600".to_string()),
    }
}

fn user(events: Vec<BridgeEvent>) -> AccountTransaction {
    AccountTransaction { user_events: Some(events) }
}

#[test]
fn sample_call_arguments() {
    let to_movement = EthToMovementCallArgs::default();
    assert_eq!(to_movement.initiator, b"32Be343B94f860124dC4fEe278FDCBD38C102D88".to_vec());
    assert_eq!(&to_movement.recipient, b"0x00000000000000000000000000face");
    assert_eq!(&to_movement.bridge_transfer_id, b"00000000000000000000000transfer9");
    assert_eq!(to_movement.time_lock, 3600);
    assert_eq!(to_movement.amount, 100);
    // Keccak-256 of "secret"
    let expected: Vec<u8> = alloy::hex::decode(
        "65462b0520ef7d3df61b9992ed3bea0c56ead753be7c8b3614e0ce01e4cac41b",
    )
    .unwrap();
    assert_eq!(to_movement.hash_lock.to_vec(), expected);

    let to_eth = MovementToEthCallArgs::default();
    assert_eq!(&to_eth.initiator, b"0x000000000000000000000000A55018");
    assert_eq!(to_eth.recipient, b"32Be343B94f860124dC4fEe278FDCBD38C102D88".to_vec());
    assert_eq!(&to_eth.bridge_transfer_id, b"00000000000000000000000transfer1");
    assert_eq!(to_eth.hash_lock.to_vec(), expected);
    assert_eq!(to_eth.time_lock, 3600);
    assert_eq!(to_eth.amount, 100);
    assert_eq!(MINT_AMOUNT, 200 * 100_000_000);
}

#[test]
fn unpadded_preimage_drops_trailing_zeros_only() {
    assert_eq!(unpadded_preimage(&[1, 0, 2, 0, 0]), &[1, 0, 2]);
    assert_eq!(unpadded_preimage(&[0, 0, 1]), &[0, 0, 1]);
    assert_eq!(unpadded_preimage(&[0, 0, 0]), &[] as &[u8]);
    assert_eq!(unpadded_preimage(&[]), &[] as &[u8]);
    assert_eq!(unpadded_preimage(&[7]), &[7]);
}

#[test]
fn extract_bridge_transfer_id_reads_the_first_transfer_event_of_the_last_transaction() {
    let mut other = event("SomethingElse");
    other.bridge_transfer_id = Some("0x00".to_string());
    let mut locked = event("BridgeTransferLockedEvent");
    locked.bridge_transfer_id = Some("11".repeat(32));
    let transactions = vec![
        user(vec![event("BridgeTransferInitiatedEvent")]),
        user(vec![other, locked, event("BridgeTransferInitiatedEvent")]),
    ];
    assert_eq!(extract_bridge_transfer_id(&transactions), Ok([0x11u8; 32]));
}

#[test]
fn extract_bridge_transfer_id_strips_the_prefix() {
    let transactions = vec![user(vec![event("BridgeTransferInitiatedEvent")])];
    assert_eq!(extract_bridge_transfer_id(&transactions), Ok([0xabu8; 32]));
    let mut twice = event("BridgeTransferInitiatedEvent");
    twice.bridge_transfer_id = Some(format!("0x0x{}", "ab".repeat(32)));
    assert_eq!(extract_bridge_transfer_id(&vec![user(vec![twice])]), Ok([0xabu8; 32]));
}

#[test]
fn extract_bridge_transfer_id_without_a_match() {
    assert_eq!(extract_bridge_transfer_id(&vec![]), Err(BridgeError::NoMatchingTransaction));
    assert_eq!(
        extract_bridge_transfer_id(&vec![user(vec![])]),
        Err(BridgeError::NoMatchingTransaction)
    );
    // the last transaction is no user transaction
    let transactions = vec![
        user(vec![event("BridgeTransferInitiatedEvent")]),
        AccountTransaction { user_events: None },
    ];
    assert_eq!(extract_bridge_transfer_id(&transactions), Err(BridgeError::NoMatchingTransaction));
    // the event's type is no struct, or has another name, or names no transfer
    let mut untyped = event("BridgeTransferInitiatedEvent");
    untyped.struct_name = None;
    let mut nameless = event("BridgeTransferInitiatedEvent");
    nameless.bridge_transfer_id = None;
    let transactions = vec![user(vec![untyped, event("Other"), nameless])];
    assert_eq!(extract_bridge_transfer_id(&transactions), Err(BridgeError::NoMatchingTransaction));
    assert_eq!(BridgeError::NoMatchingTransaction.message(), "No matching transaction found");
}

#[test]
fn extract_bridge_transfer_id_with_a_bad_identifier() {
    let mut bad = event("BridgeTransferInitiatedEvent");
    bad.bridge_transfer_id = Some("0xzz".to_string());
    // the first matching event decides, also where a later one is good
    let transactions = vec![user(vec![bad, event("BridgeTransferInitiatedEvent")])];
    assert_eq!(extract_bridge_transfer_id(&transactions), Err(BridgeError::BadHex));
    let mut odd = event("BridgeTransferInitiatedEvent");
    odd.bridge_transfer_id = Some("abc".to_string());
    assert_eq!(extract_bridge_transfer_id(&vec![user(vec![odd])]), Err(BridgeError::BadHex));
    let mut short = event("BridgeTransferInitiatedEvent");
    short.bridge_transfer_id = Some("0xabcd".to_string());
    assert_eq!(extract_bridge_transfer_id(&vec![user(vec![short])]), Err(BridgeError::BadLength));
}

#[test]
fn extract_bridge_transfer_details_framework_reads_every_field() {
    let transactions = vec![user(vec![event("Other"), event("BridgeTransferLockedEvent")])];
    let details = extract_bridge_transfer_details_framework(&transactions).unwrap();
    assert_eq!(details.0, [0xabu8; 32]);
    assert_eq!(details.1, "0xf00d");
    assert_eq!(details.2, vec![1, 2]);
    assert_eq!(details.3, 100);
    assert_eq!(details.4, [0xcdu8; 32]);
    assert_eq!(details.5, 3600);
}

#[test]
fn extract_bridge_transfer_details_framework_names_the_first_bad_field() {
    let extract = |change: &dyn Fn(&mut BridgeEvent)| {
        let mut one = event("BridgeTransferInitiatedEvent");
        change(&mut one);
        extract_bridge_transfer_details_framework(&vec![user(vec![one])]).err()
    };
    assert_eq!(extract(&|e| e.bridge_transfer_id = Some("xy".into())), Some(BridgeError::BadHex));
    assert_eq!(
        extract(&|e| e.bridge_transfer_id = Some("abcd".into())),
        Some(BridgeError::BadLength)
    );
    assert_eq!(extract(&|e| e.initiator = None), Some(BridgeError::MissingInitiator));
    assert_eq!(extract(&|e| e.recipient = None), Some(BridgeError::MissingRecipient));
    assert_eq!(extract(&|e| e.recipient = Some("0xq".into())), Some(BridgeError::BadRecipient));
    assert_eq!(extract(&|e| e.amount = None), Some(BridgeError::MissingAmount));
    assert_eq!(extract(&|e| e.amount = Some("-1".into())), Some(BridgeError::BadAmount));
    assert_eq!(
        extract(&|e| e.amount = Some("18446744073709551616".into())),
        Some(BridgeError::BadAmount)
    );
    assert_eq!(extract(&|e| e.hash_lock = None), Some(BridgeError::MissingHashLock));
    assert_eq!(extract(&|e| e.hash_lock = Some("0xgg".into())), Some(BridgeError::BadHashLock));
    assert_eq!(extract(&|e| e.hash_lock = Some("0xab".into())), Some(BridgeError::BadLength));
    assert_eq!(extract(&|e| e.time_lock = None), Some(BridgeError::MissingTimeLock));
    assert_eq!(extract(&|e| e.time_lock = Some("soon".into())), Some(BridgeError::BadTimeLock));
    // the fields are read in order
    assert_eq!(
        extract(&|e| {
            e.initiator = None;
            e.time_lock = None;
        }),
        Some(BridgeError::MissingInitiator)
    );
    assert_eq!(
        extract_bridge_transfer_details_framework(&vec![]),
        Err(BridgeError::NoMatchingTransaction)
    );
    assert_eq!(BridgeError::BadAmount.message(), "Failed to parse amount");
    assert_eq!(BridgeError::MissingTimeLock.message(), "Missing time_lock");
}

#[test]
fn extract_reads_the_largest_amount() {
    let mut one = event("BridgeTransferInitiatedEvent");
    one.amount = Some("18446744073709551615".to_string());
    let details = extract_bridge_transfer_details_framework(&vec![user(vec![one])]).unwrap();
    assert_eq!(details.3, u64::MAX);
}

#[test]
fn framework_details_are_compared_field_by_field() {
    let details = ([1u8; 32], "0xf00d".to_string(), vec![1u8, 2], 100u64, [2u8; 32], 3600u64);
    let matches = |id: [u8; 32], sender: &str, recipient: Vec<u8>, amount: u64, lock: [u8; 32]| {
        bridge_transfer_details_framework_match(
            &details,
            id,
            &sender.to_string(),
            &recipient,
            amount,
            lock,
        )
    };
    assert!(matches([1; 32], "0xf00d", vec![1, 2], 100, [2; 32]));
    assert!(!matches([9; 32], "0xf00d", vec![1, 2], 100, [2; 32]));
    assert!(!matches([1; 32], "0xf00", vec![1, 2], 100, [2; 32]));
    assert!(!matches([1; 32], "0xf00d", vec![1], 100, [2; 32]));
    assert!(!matches([1; 32], "0xf00d", vec![1, 2], 101, [2; 32]));
    assert!(!matches([1; 32], "0xf00d", vec![1, 2], 100, [3; 32]));
    assert_bridge_transfer_details_framework(
        &details,
        [1; 32],
        "0xf00d".to_string(),
        vec![1, 2],
        100,
        [2; 32],
    );
}

#[test]
fn details_are_compared_field_by_field() {
    let details = BridgeTransferDetails {
        bridge_transfer_id: [1; 32],
        hash_lock: [2; 32],
        initiator_address: [3; 32],
        recipient_address: vec![4, 5],
        amount: 6,
        state: 1,
    };
    assert!(bridge_transfer_details_match(&details, [1; 32], [2; 32], [3; 32], &vec![4, 5], 6, 1));
    assert!(!bridge_transfer_details_match(&details, [0; 32], [2; 32], [3; 32], &vec![4, 5], 6, 1));
    assert!(!bridge_transfer_details_match(&details, [1; 32], [0; 32], [3; 32], &vec![4, 5], 6, 1));
    assert!(!bridge_transfer_details_match(&details, [1; 32], [2; 32], [0; 32], &vec![4, 5], 6, 1));
    assert!(!bridge_transfer_details_match(&details, [1; 32], [2; 32], [3; 32], &vec![4], 6, 1));
    assert!(!bridge_transfer_details_match(&details, [1; 32], [2; 32], [3; 32], &vec![4, 5], 7, 1));
    assert!(!bridge_transfer_details_match(&details, [1; 32], [2; 32], [3; 32], &vec![4, 5], 6, 2));
    assert_bridge_transfer_details(&details, [1; 32], [2; 32], [3; 32], vec![4, 5], 6, 1);
}

#[test]
fn funded_account_holds_at_least_what_was_expected() {
    assert!(funded(100_000_000, 100_000_000));
    assert!(funded(100_000_001, 100_000_000));
    assert!(!funded(99_999_999, 100_000_000));
}

#[test]
fn amounts_are_decimal_digits_with_or_without_a_plus() {
    let amount_of = |text: &str| {
        let mut one = event("BridgeTransferInitiatedEvent");
        one.amount = Some(text.to_string());
        extract_bridge_transfer_details_framework(&vec![user(vec![one])]).map(|details| details.3)
    };
    assert_eq!(amount_of("0"), Ok(0));
    assert_eq!(amount_of("007"), Ok(7));
    assert_eq!(amount_of("+15"), Ok(15));
    assert_eq!(amount_of("+18446744073709551615"), Ok(u64::MAX));
    for bad in ["", "+", "++1", "-0", " 1", "1 ", "1_000", "0x10", "12a", "18446744073709551616"] {
        assert_eq!(amount_of(bad), Err(BridgeError::BadAmount), "{:?}", bad);
    }
}

#[test]
fn recipients_are_hexadecimal_digits_two_to_a_byte() {
    let recipient_of = |text: &str| {
        let mut one = event("BridgeTransferInitiatedEvent");
        one.recipient = Some(text.to_string());
        extract_bridge_transfer_details_framework(&vec![user(vec![one])]).map(|details| details.2)
    };
    assert_eq!(recipient_of(""), Ok(vec![]));
    assert_eq!(recipient_of("0x"), Ok(vec![]));
    assert_eq!(recipient_of("00ff"), Ok(vec![0x00, 0xff]));
    assert_eq!(recipient_of("0xAbCd"), Ok(vec![0xab, 0xcd]));
    assert_eq!(recipient_of("0X1f"), Ok(vec![0x1f]));
    assert_eq!(recipient_of("0x0x0X10"), Ok(vec![0x10]));
    assert_eq!(recipient_of("0x10"), Ok(vec![0x10]));
    for bad in ["1", "0x1", "abc", "0xg0", "1g", "0X0x10", "x010", " 10 "] {
        assert_eq!(recipient_of(bad), Err(BridgeError::BadRecipient), "{:?}", bad);
    }
}
