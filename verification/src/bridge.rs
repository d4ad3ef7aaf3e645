//! Helpers for exercising the bridge: reading transfer details out of events,
//! the arguments of the sample transfers, and comparing details.

use crate::codec::decimal_u64;
use crate::codec::hex_bytes;
use crate::codec::hex_decode;
use crate::codec::keccak256;
use crate::codec::keccak256_digest;
use crate::codec::parse_u64;
use crate::codec::trim_start_matches;
use crate::codec::without_prefix;
use vstd::prelude::*;

verus! {

/// The time lock of the sample transfers, in seconds.
pub const SAMPLE_TIME_LOCK: u64 = 3600;

/// The amount of the sample transfers.
pub const SAMPLE_AMOUNT: u64 = 100;

/// The amount that is minted to the initiator before a transfer: 200 coins
/// of 8 decimals.
pub const MINT_AMOUNT: u64 = 20_000_000_000;

/// The Ethereum address of the sample transfers, in hexadecimal digits.
pub const SAMPLE_ETH_ADDRESS: [u8; 40] = [
    51, 50, 66, 101, 51, 52, 51, 66, 57, 52, 102, 56, 54, 48, 49, 50, 52, 100, 67, 52, 102, 69,
    101, 50, 55, 56, 70, 68, 67, 66, 68, 51, 56, 67, 49, 48, 50, 68, 56, 56,
];

/// The Movement address that receives the sample transfer from Ethereum.
pub const SAMPLE_MOVEMENT_RECIPIENT: [u8; 32] = [
    48, 120, 48, 48, 48, 48, 48, 48, 48, 48, 48, 48, 48, 48, 48, 48, 48, 48, 48, 48, 48, 48, 48,
    48, 48, 48, 48, 48, 102, 97, 99, 101,
];

/// The Movement address that initiates the sample transfer to Ethereum.
pub const SAMPLE_MOVEMENT_INITIATOR: [u8; 32] = [
    48, 120, 48, 48, 48, 48, 48, 48, 48, 48, 48, 48, 48, 48, 48, 48, 48, 48, 48, 48, 48, 48, 48,
    48, 48, 48, 65, 53, 53, 48, 49, 56,
];

/// The identifier of the sample transfer from Ethereum.
pub const SAMPLE_TRANSFER_FROM_ETH: [u8; 32] = [
    48, 48, 48, 48, 48, 48, 48, 48, 48, 48, 48, 48, 48, 48, 48, 48, 48, 48, 48, 48, 48, 48, 48,
    116, 114, 97, 110, 115, 102, 101, 114, 57,
];

/// The identifier of the sample transfer to Ethereum.
pub const SAMPLE_TRANSFER_TO_ETH: [u8; 32] = [
    48, 48, 48, 48, 48, 48, 48, 48, 48, 48, 48, 48, 48, 48, 48, 48, 48, 48, 48, 48, 48, 48, 48,
    116, 114, 97, 110, 115, 102, 101, 114, 49,
];

/// The secret whose digest locks the sample transfers.
pub const SAMPLE_SECRET: [u8; 6] = [115, 101, 99, 114, 101, 116];

/// The arguments of a transfer from Ethereum to Movement.
pub struct EthToMovementCallArgs {
    /// The Ethereum address that initiates.
    pub initiator: Vec<u8>,
    /// The Movement address that receives.
    pub recipient: [u8; 32],
    /// The identifier of the transfer.
    pub bridge_transfer_id: [u8; 32],
    /// The digest that locks the transfer.
    pub hash_lock: [u8; 32],
    /// The time lock, in seconds.
    pub time_lock: u64,
    /// The amount.
    pub amount: u64,
}

/// The arguments of a transfer from Movement to Ethereum.
pub struct MovementToEthCallArgs {
    /// The Movement address that initiates.
    pub initiator: [u8; 32],
    /// The Ethereum address that receives.
    pub recipient: Vec<u8>,
    /// The identifier of the transfer.
    pub bridge_transfer_id: [u8; 32],
    /// The digest that locks the transfer.
    pub hash_lock: [u8; 32],
    /// The time lock, in seconds.
    pub time_lock: u64,
    /// The amount.
    pub amount: u64,
}

fn bytes_of<const N: usize>(array: &[u8; N]) -> (r: Vec<u8>)
    ensures
        r@ == array@,
{
    let mut out: Vec<u8> = Vec::new();
    let mut i: usize = 0;
    while i < N
        invariant
            i <= N,
            out@ == array@.take(i as int),
        decreases N - i,
    {
        out.push(array[i]);
        proof {
            assert(array@.take(i + 1) =~= array@.take(i as int).push(array@[i as int]));
        }
        i += 1;
    }
    proof {
        assert(array@.take(N as int) =~= array@);
    }
    out
}

impl Default for EthToMovementCallArgs {
    /// The sample transfer from Ethereum, locked by the digest of the sample
    /// secret.
    fn default() -> (r: Self)
        ensures
            r.initiator@ == SAMPLE_ETH_ADDRESS@,
            r.recipient == SAMPLE_MOVEMENT_RECIPIENT,
            r.bridge_transfer_id == SAMPLE_TRANSFER_FROM_ETH,
            r.hash_lock@ == keccak256_digest(SAMPLE_SECRET@),
            r.time_lock == SAMPLE_TIME_LOCK,
            r.amount == SAMPLE_AMOUNT,
    {
        EthToMovementCallArgs {
            initiator: bytes_of(&SAMPLE_ETH_ADDRESS),
            recipient: SAMPLE_MOVEMENT_RECIPIENT,
            bridge_transfer_id: SAMPLE_TRANSFER_FROM_ETH,
            hash_lock: keccak256(SAMPLE_SECRET.as_slice()),
            time_lock: SAMPLE_TIME_LOCK,
            amount: SAMPLE_AMOUNT,
        }
    }
}

impl Default for MovementToEthCallArgs {
    /// The sample transfer to Ethereum, locked by the digest of the sample
    /// secret.
    fn default() -> (r: Self)
        ensures
            r.initiator == SAMPLE_MOVEMENT_INITIATOR,
            r.recipient@ == SAMPLE_ETH_ADDRESS@,
            r.bridge_transfer_id == SAMPLE_TRANSFER_TO_ETH,
            r.hash_lock@ == keccak256_digest(SAMPLE_SECRET@),
            r.time_lock == SAMPLE_TIME_LOCK,
            r.amount == SAMPLE_AMOUNT,
    {
        MovementToEthCallArgs {
            initiator: SAMPLE_MOVEMENT_INITIATOR,
            recipient: bytes_of(&SAMPLE_ETH_ADDRESS),
            bridge_transfer_id: SAMPLE_TRANSFER_TO_ETH,
            hash_lock: keccak256(SAMPLE_SECRET.as_slice()),
            time_lock: SAMPLE_TIME_LOCK,
            amount: SAMPLE_AMOUNT,
        }
    }
}

/// The length of a preimage without the zero bytes at its end.
pub open spec fn unpadded_len(preimage: Seq<u8>) -> nat
    decreases preimage.len(),
{
    if preimage.len() > 0 && preimage.last() == 0 {
        unpadded_len(preimage.drop_last())
    } else {
        preimage.len()
    }
}

/// The preimage without the zero bytes that pad it at its end.
pub fn unpadded_preimage(preimage: &[u8]) -> (r: &[u8])
    ensures
        r@ == preimage@.take(unpadded_len(preimage@) as int),
        r@.len() == 0 || r@.last() != 0,
        forall|i: int| r@.len() <= i < preimage@.len() ==> preimage@[i] == 0,
{
    let mut end: usize = preimage.len();
    proof {
        assert(preimage@.take(preimage@.len() as int) =~= preimage@);
    }
    while end > 0 && preimage[end - 1] == 0
        invariant
            end <= preimage@.len(),
            unpadded_len(preimage@) == unpadded_len(preimage@.take(end as int)),
            forall|i: int| end <= i < preimage@.len() ==> preimage@[i] == 0,
        decreases end,
    {
        proof {
            assert(preimage@.take(end as int).drop_last() =~= preimage@.take(end - 1));
        }
        end -= 1;
    }
    let kept = vstd::slice::slice_subrange(preimage, 0, end);
    proof {
        assert(kept@ =~= preimage@.take(end as int));
    }
    kept
}

/// The details of a transfer as the framework reports them: the identifier,
/// the initiator, the recipient, the amount, the hash lock and the time lock.
pub struct BridgeTransferDetails {
    /// The identifier of the transfer.
    pub bridge_transfer_id: [u8; 32],
    /// The digest that locks the transfer.
    pub hash_lock: [u8; 32],
    /// The Movement address that initiates.
    pub initiator_address: [u8; 32],
    /// The address that receives.
    pub recipient_address: Vec<u8>,
    /// The amount.
    pub amount: u64,
    /// The state of the transfer.
    pub state: u8,
}

/// Whether the details are the expected ones.
pub open spec fn details_are(
    details: BridgeTransferDetails,
    expected_bridge_transfer_id: [u8; 32],
    expected_hash_lock: [u8; 32],
    expected_sender_address: [u8; 32],
    expected_recipient_address: Seq<u8>,
    expected_amount: u64,
    expected_state: u8,
) -> bool {
    &&& details.bridge_transfer_id@ == expected_bridge_transfer_id@
    &&& details.hash_lock@ == expected_hash_lock@
    &&& details.initiator_address@ == expected_sender_address@
    &&& details.recipient_address@ == expected_recipient_address
    &&& details.amount == expected_amount
    &&& details.state == expected_state
}

/// Whether the details that the framework reported are the expected ones; the
/// time lock is not compared.
pub open spec fn framework_details_are(
    details: ([u8; 32], String, Vec<u8>, u64, [u8; 32], u64),
    expected_bridge_transfer_id: [u8; 32],
    expected_sender_address: String,
    expected_recipient_address: Seq<u8>,
    expected_amount: u64,
    expected_hash_lock: [u8; 32],
) -> bool {
    &&& details.0@ == expected_bridge_transfer_id@
    &&& details.1@ == expected_sender_address@
    &&& details.2@ == expected_recipient_address
    &&& details.3 == expected_amount
    &&& details.4@ == expected_hash_lock@
}

fn same_bytes(a: &[u8], b: &[u8]) -> (r: bool)
    ensures
        r == (a@ == b@),
{
    if a.len() != b.len() {
        return false;
    }
    let mut i: usize = 0;
    while i < a.len()
        invariant
            i <= a.len(),
            a@.len() == b@.len(),
            forall|j: int| 0 <= j < i ==> a@[j] == b@[j],
        decreases a.len() - i,
    {
        if a[i] != b[i] {
            return false;
        }
        i += 1;
    }
    proof {
        assert(a@ =~= b@);
    }
    true
}

/// Says whether the details are the expected ones.
pub fn bridge_transfer_details_match(
    details: &BridgeTransferDetails,
    expected_bridge_transfer_id: [u8; 32],
    expected_hash_lock: [u8; 32],
    expected_sender_address: [u8; 32],
    expected_recipient_address: &Vec<u8>,
    expected_amount: u64,
    expected_state: u8,
) -> (r: bool)
    ensures
        r == details_are(
            *details,
            expected_bridge_transfer_id,
            expected_hash_lock,
            expected_sender_address,
            expected_recipient_address@,
            expected_amount,
            expected_state,
        ),
{
    same_bytes(details.bridge_transfer_id.as_slice(), expected_bridge_transfer_id.as_slice())
        && same_bytes(details.hash_lock.as_slice(), expected_hash_lock.as_slice()) && same_bytes(
        details.initiator_address.as_slice(),
        expected_sender_address.as_slice(),
    ) && same_bytes(details.recipient_address.as_slice(), expected_recipient_address.as_slice())
        && details.amount == expected_amount && details.state == expected_state
}

/// Says whether the details that the framework reported are the expected
/// ones; the time lock is not compared.
pub fn bridge_transfer_details_framework_match(
    details: &([u8; 32], String, Vec<u8>, u64, [u8; 32], u64),
    expected_bridge_transfer_id: [u8; 32],
    expected_sender_address: &String,
    expected_recipient_address: &Vec<u8>,
    expected_amount: u64,
    expected_hash_lock: [u8; 32],
) -> (r: bool)
    ensures
        r == framework_details_are(
            *details,
            expected_bridge_transfer_id,
            *expected_sender_address,
            expected_recipient_address@,
            expected_amount,
            expected_hash_lock,
        ),
{
    same_bytes(details.0.as_slice(), expected_bridge_transfer_id.as_slice()) && details.1
        == *expected_sender_address && same_bytes(
        details.2.as_slice(),
        expected_recipient_address.as_slice(),
    ) && details.3 == expected_amount && same_bytes(
        details.4.as_slice(),
        expected_hash_lock.as_slice(),
    )
}

/// Takes details that are the expected ones. Details that differ are not
/// admitted: ask `bridge_transfer_details_match` first.
pub fn assert_bridge_transfer_details(
    details: &BridgeTransferDetails,
    expected_bridge_transfer_id: [u8; 32],
    expected_hash_lock: [u8; 32],
    expected_sender_address: [u8; 32],
    expected_recipient_address: Vec<u8>,
    expected_amount: u64,
    expected_state: u8,
)
    requires
        details_are(
            *details,
            expected_bridge_transfer_id,
            expected_hash_lock,
            expected_sender_address,
            expected_recipient_address@,
            expected_amount,
            expected_state,
        ),
{
}

/// Takes details of the framework that are the expected ones. Details that
/// differ are not admitted: ask `bridge_transfer_details_framework_match`
/// first.
pub fn assert_bridge_transfer_details_framework(
    details: &([u8; 32], String, Vec<u8>, u64, [u8; 32], u64),
    expected_bridge_transfer_id: [u8; 32],
    expected_sender_address: String,
    expected_recipient_address: Vec<u8>,
    expected_amount: u64,
    expected_hash_lock: [u8; 32],
)
    requires
        framework_details_are(
            *details,
            expected_bridge_transfer_id,
            expected_sender_address,
            expected_recipient_address@,
            expected_amount,
            expected_hash_lock,
        ),
{
}

/// Whether an account that was funded holds what it was funded with.
pub fn funded(balance: u64, expected_balance: u64) -> (r: bool)
    ensures
        r == (balance >= expected_balance),
{
    balance >= expected_balance
}

/// What an event says of a transfer, as far as the helpers read it. Each field
/// is the text of the event's field of that name, if the event has it as a
/// text.
pub struct BridgeEvent {
    /// The name of the event's type, if that is a struct.
    pub struct_name: Option<String>,
    /// The identifier of the transfer, in hexadecimal digits.
    pub bridge_transfer_id: Option<String>,
    /// The initiator.
    pub initiator: Option<String>,
    /// The recipient, in hexadecimal digits.
    pub recipient: Option<String>,
    /// The amount, in decimal digits.
    pub amount: Option<String>,
    /// The hash lock, in hexadecimal digits.
    pub hash_lock: Option<String>,
    /// The time lock, in decimal digits.
    pub time_lock: Option<String>,
}

/// A transaction of an account: the events of a user transaction, or nothing
/// for a transaction of another kind.
pub struct AccountTransaction {
    /// The events, if this is a user transaction.
    pub user_events: Option<Vec<BridgeEvent>>,
}

/// Why no transfer could be read.
#[derive(Clone, Copy, Debug, PartialEq, Eq, Structural)]
pub enum BridgeError {
    /// No event of a transfer was found.
    NoMatchingTransaction,
    /// An identifier is not in hexadecimal digits.
    BadHex,
    /// An identifier or a hash lock is not 32 bytes long.
    BadLength,
    /// The event names no initiator.
    MissingInitiator,
    /// The event names no recipient.
    MissingRecipient,
    /// The recipient is not in hexadecimal digits.
    BadRecipient,
    /// The event names no amount.
    MissingAmount,
    /// The amount is no number.
    BadAmount,
    /// The event names no hash lock.
    MissingHashLock,
    /// The hash lock is not in hexadecimal digits.
    BadHashLock,
    /// The event names no time lock.
    MissingTimeLock,
    /// The time lock is no number.
    BadTimeLock,
}

impl BridgeError {
    /// The error in words.
    pub open spec fn words(self) -> Seq<char> {
        match self {
            BridgeError::NoMatchingTransaction => "No matching transaction found"@,
            BridgeError::BadHex => "Failed to decode hex string into Vec<u8>"@,
            BridgeError::BadLength => "Failed to convert Vec<u8> to [u8; 32]"@,
            BridgeError::MissingInitiator => "Missing initiator"@,
            BridgeError::MissingRecipient => "Missing recipient"@,
            BridgeError::BadRecipient => "Failed to decode recipient"@,
            BridgeError::MissingAmount => "Missing amount"@,
            BridgeError::BadAmount => "Failed to parse amount"@,
            BridgeError::MissingHashLock => "Missing hash_lock"@,
            BridgeError::BadHashLock => "Failed to decode hash_lock"@,
            BridgeError::MissingTimeLock => "Missing time_lock"@,
            BridgeError::BadTimeLock => "Failed to parse time_lock"@,
        }
    }

    /// The error in words.
    pub fn message(&self) -> (r: &'static str)
        ensures
            r@ == self.words(),
    {
        match self {
            BridgeError::NoMatchingTransaction => "No matching transaction found",
            BridgeError::BadHex => "Failed to decode hex string into Vec<u8>",
            BridgeError::BadLength => "Failed to convert Vec<u8> to [u8; 32]",
            BridgeError::MissingInitiator => "Missing initiator",
            BridgeError::MissingRecipient => "Missing recipient",
            BridgeError::BadRecipient => "Failed to decode recipient",
            BridgeError::MissingAmount => "Missing amount",
            BridgeError::BadAmount => "Failed to parse amount",
            BridgeError::MissingHashLock => "Missing hash_lock",
            BridgeError::BadHashLock => "Failed to decode hash_lock",
            BridgeError::MissingTimeLock => "Missing time_lock",
            BridgeError::BadTimeLock => "Failed to parse time_lock",
        }
    }
}

/// The details of a transfer as a mathematical value.
pub struct TransferDetails {
    /// The identifier of the transfer.
    pub bridge_transfer_id: Seq<u8>,
    /// The initiator.
    pub initiator: Seq<char>,
    /// The recipient.
    pub recipient: Seq<u8>,
    /// The amount.
    pub amount: u64,
    /// The hash lock.
    pub hash_lock: Seq<u8>,
    /// The time lock.
    pub time_lock: u64,
}

/// Whether a type name is that of an event of a transfer.
pub open spec fn names_transfer(name: Seq<char>) -> bool {
    name == "BridgeTransferInitiatedEvent"@ || name == "BridgeTransferLockedEvent"@
}

/// Whether an event is one of a transfer and names the transfer.
pub open spec fn names_transfer_id(event: BridgeEvent) -> bool {
    &&& event.struct_name matches Some(name)
    &&& names_transfer(name@)
    &&& event.bridge_transfer_id is Some
}

/// The bytes that a text spells in hexadecimal digits behind any `0x`.
pub open spec fn hex_field(text: Seq<char>) -> Option<Seq<u8>> {
    hex_bytes(without_prefix(text, "0x"@))
}

/// The 32 bytes that a text spells, or why it spells none.
pub open spec fn digest_field(text: Seq<char>, bad_hex: BridgeError) -> Result<
    Seq<u8>,
    BridgeError,
> {
    match hex_field(text) {
        None => Err(bad_hex),
        Some(bytes) => if bytes.len() == 32 {
            Ok(bytes)
        } else {
            Err(BridgeError::BadLength)
        },
    }
}

/// The first event that is one of a transfer and names the transfer, if any.
pub open spec fn transfer_event(events: Seq<BridgeEvent>) -> Option<BridgeEvent>
    decreases events.len(),
{
    if events.len() == 0 {
        None
    } else if names_transfer_id(events.first()) {
        Some(events.first())
    } else {
        transfer_event(events.drop_first())
    }
}

/// The events of the last transaction, if it is a user transaction; else none.
pub open spec fn last_events(transactions: Seq<AccountTransaction>) -> Seq<BridgeEvent> {
    if transactions.len() == 0 {
        Seq::empty()
    } else {
        match transactions.last().user_events {
            Some(events) => events@,
            None => Seq::empty(),
        }
    }
}

/// The identifier of the transfer that some events name, or why they name
/// none.
pub open spec fn transfer_id_of(events: Seq<BridgeEvent>) -> Result<Seq<u8>, BridgeError> {
    match transfer_event(events) {
        None => Err(BridgeError::NoMatchingTransaction),
        Some(event) => digest_field(event.bridge_transfer_id->0@, BridgeError::BadHex),
    }
}

/// The details of the transfer that an event names, or what is wrong with the
/// first field that cannot be read, the fields taken in the order identifier,
/// initiator, recipient, amount, hash lock, time lock.
pub open spec fn details_of(event: BridgeEvent) -> Result<TransferDetails, BridgeError> {
    match digest_field(event.bridge_transfer_id->0@, BridgeError::BadHex) {
        Err(error) => Err(error),
        Ok(bridge_transfer_id) => match event.initiator {
            None => Err(BridgeError::MissingInitiator),
            Some(initiator) => match event.recipient {
                None => Err(BridgeError::MissingRecipient),
                Some(recipient_text) => match hex_field(recipient_text@) {
                    None => Err(BridgeError::BadRecipient),
                    Some(recipient) => match event.amount {
                        None => Err(BridgeError::MissingAmount),
                        Some(amount_text) => match decimal_u64(amount_text@) {
                            None => Err(BridgeError::BadAmount),
                            Some(amount) => match event.hash_lock {
                                None => Err(BridgeError::MissingHashLock),
                                Some(hash_lock_text) => match digest_field(
                                    hash_lock_text@,
                                    BridgeError::BadHashLock,
                                ) {
                                    Err(error) => Err(error),
                                    Ok(hash_lock) => match event.time_lock {
                                        None => Err(BridgeError::MissingTimeLock),
                                        Some(time_lock_text) => match decimal_u64(
                                            time_lock_text@,
                                        ) {
                                            None => Err(BridgeError::BadTimeLock),
                                            Some(time_lock) => Ok(
                                                TransferDetails {
                                                    bridge_transfer_id,
                                                    initiator: initiator@,
                                                    recipient,
                                                    amount,
                                                    hash_lock,
                                                    time_lock,
                                                },
                                            ),
                                        },
                                    },
                                },
                            },
                        },
                    },
                },
            },
        },
    }
}

/// The details of the transfer that some events name, or why they name none.
pub open spec fn transfer_details_of(events: Seq<BridgeEvent>) -> Result<
    TransferDetails,
    BridgeError,
> {
    match transfer_event(events) {
        None => Err(BridgeError::NoMatchingTransaction),
        Some(event) => details_of(event),
    }
}

fn is_transfer_name(name: &String) -> (r: bool)
    ensures
        r == names_transfer(name@),
{
    let initiated = "BridgeTransferInitiatedEvent".to_owned();
    let locked = "BridgeTransferLockedEvent".to_owned();
    *name == initiated || *name == locked
}

fn event_names_transfer_id(event: &BridgeEvent) -> (r: bool)
    ensures
        r == names_transfer_id(*event),
{
    match &event.struct_name {
        Some(name) => is_transfer_name(name) && event.bridge_transfer_id.is_some(),
        None => false,
    }
}

fn read_hex_field(text: &String) -> (r: Option<Vec<u8>>)
    ensures
        match r {
            Some(bytes) => hex_field(text@) == Some(bytes@),
            None => hex_field(text@) is None,
        },
{
    proof {
        reveal_strlit("0x");
    }
    match hex_decode(trim_start_matches(text.as_str(), "0x")) {
        Ok(bytes) => Some(bytes),
        Err(_) => None,
    }
}

fn read_digest_field(text: &String, bad_hex: BridgeError) -> (r: Result<[u8; 32], BridgeError>)
    ensures
        match digest_field(text@, bad_hex) {
            Ok(bytes) => r matches Ok(digest) && digest@ == bytes,
            Err(error) => r == Err::<[u8; 32], BridgeError>(error),
        },
{
    let bytes = match read_hex_field(text) {
        Some(bytes) => bytes,
        None => {
            return Err(bad_hex);
        },
    };
    if bytes.len() != 32 {
        return Err(BridgeError::BadLength);
    }
    let mut digest = [0u8;32];
    let mut i: usize = 0;
    while i < 32
        invariant
            i <= 32,
            bytes@.len() == 32,
            forall|j: int| 0 <= j < i ==> digest@[j] == bytes@[j],
        decreases 32 - i,
    {
        digest[i] = bytes[i];
        i += 1;
    }
    proof {
        assert(digest@ =~= bytes@);
    }
    Ok(digest)
}

/// The first event that is one of a transfer and names the transfer.
fn find_transfer_event(events: &Vec<BridgeEvent>) -> (r: Option<usize>)
    ensures
        match r {
            Some(at) => at < events@.len() && names_transfer_id(events@[at as int])
                && transfer_event(events@) == Some(events@[at as int]),
            None => transfer_event(events@) is None,
        },
{
    let mut i: usize = 0;
    proof {
        assert(events@.skip(0) =~= events@);
    }
    while i < events.len()
        invariant
            i <= events.len(),
            transfer_event(events@) == transfer_event(events@.skip(i as int)),
        decreases events.len() - i,
    {
        proof {
            assert(events@.skip(i as int).first() == events@[i as int]);
            assert(events@.skip(i as int).drop_first() =~= events@.skip(i + 1));
        }
        if event_names_transfer_id(&events[i]) {
            return Some(i);
        }
        i += 1;
    }
    None
}

/// The events of the last transaction, if it is a user transaction.
fn events_of_last(transactions: &Vec<AccountTransaction>) -> (r: Option<&Vec<BridgeEvent>>)
    ensures
        match r {
            Some(events) => events@ == last_events(transactions@),
            None => last_events(transactions@).len() == 0,
        },
{
    if transactions.len() == 0 {
        return None;
    }
    match &transactions[transactions.len() - 1].user_events {
        Some(events) => Some(events),
        None => None,
    }
}

/// Reads the identifier of a transfer out of the transactions of an account.
/// Only the last transaction counts, and only if it is a user transaction;
/// of its events, the first that is an event of a transfer and names the
/// transfer gives the identifier.
pub fn extract_bridge_transfer_id(transactions: &Vec<AccountTransaction>) -> (r: Result<
    [u8; 32],
    BridgeError,
>)
    ensures
        match transfer_id_of(last_events(transactions@)) {
            Ok(bytes) => r matches Ok(id) && id@ == bytes,
            Err(error) => r == Err::<[u8; 32], BridgeError>(error),
        },
{
    let events = match events_of_last(transactions) {
        Some(events) => events,
        None => {
            return Err(BridgeError::NoMatchingTransaction);
        },
    };
    let at = match find_transfer_event(events) {
        Some(at) => at,
        None => {
            return Err(BridgeError::NoMatchingTransaction);
        },
    };
    match &events[at].bridge_transfer_id {
        Some(text) => read_digest_field(text, BridgeError::BadHex),
        None => Err(BridgeError::NoMatchingTransaction),
    }
}

/// Whether the details that were read are the given ones.
pub open spec fn details_read(
    read: ([u8; 32], String, Vec<u8>, u64, [u8; 32], u64),
    details: TransferDetails,
) -> bool {
    &&& read.0@ == details.bridge_transfer_id
    &&& read.1@ == details.initiator
    &&& read.2@ == details.recipient
    &&& read.3 == details.amount
    &&& read.4@ == details.hash_lock
    &&& read.5 == details.time_lock
}

fn read_details(event: &BridgeEvent) -> (r: Result<
    ([u8; 32], String, Vec<u8>, u64, [u8; 32], u64),
    BridgeError,
>)
    requires
        event.bridge_transfer_id is Some,
    ensures
        match details_of(*event) {
            Ok(details) => r matches Ok(read) && details_read(read, details),
            Err(error) => r == Err::<([u8; 32], String, Vec<u8>, u64, [u8; 32], u64), BridgeError>(
                error,
            ),
        },
{
    let bridge_transfer_id = match &event.bridge_transfer_id {
        Some(text) => match read_digest_field(text, BridgeError::BadHex) {
            Ok(id) => id,
            Err(error) => {
                return Err(error);
            },
        },
        None => {
            return Err(BridgeError::NoMatchingTransaction);
        },
    };
    let initiator = match &event.initiator {
        Some(text) => text.clone(),
        None => {
            return Err(BridgeError::MissingInitiator);
        },
    };
    let recipient = match &event.recipient {
        Some(text) => match read_hex_field(text) {
            Some(bytes) => bytes,
            None => {
                return Err(BridgeError::BadRecipient);
            },
        },
        None => {
            return Err(BridgeError::MissingRecipient);
        },
    };
    let amount = match &event.amount {
        Some(text) => match parse_u64(text.as_str()) {
            Some(amount) => amount,
            None => {
                return Err(BridgeError::BadAmount);
            },
        },
        None => {
            return Err(BridgeError::MissingAmount);
        },
    };
    let hash_lock = match &event.hash_lock {
        Some(text) => match read_digest_field(text, BridgeError::BadHashLock) {
            Ok(hash_lock) => hash_lock,
            Err(error) => {
                return Err(error);
            },
        },
        None => {
            return Err(BridgeError::MissingHashLock);
        },
    };
    let time_lock = match &event.time_lock {
        Some(text) => match parse_u64(text.as_str()) {
            Some(time_lock) => time_lock,
            None => {
                return Err(BridgeError::BadTimeLock);
            },
        },
        None => {
            return Err(BridgeError::MissingTimeLock);
        },
    };
    Ok((bridge_transfer_id, initiator, recipient, amount, hash_lock, time_lock))
}

/// Reads the details of a transfer out of the transactions of an account.
/// Only the last transaction counts, and only if it is a user transaction;
/// of its events, the first that is an event of a transfer and names the
/// transfer gives the details.
pub fn extract_bridge_transfer_details_framework(
    transactions: &Vec<AccountTransaction>,
) -> (r: Result<([u8; 32], String, Vec<u8>, u64, [u8; 32], u64), BridgeError>)
    ensures
        match transfer_details_of(last_events(transactions@)) {
            Ok(details) => r matches Ok(read) && details_read(read, details),
            Err(error) => r == Err::<([u8; 32], String, Vec<u8>, u64, [u8; 32], u64), BridgeError>(
                error,
            ),
        },
{
    let events = match events_of_last(transactions) {
        Some(events) => events,
        None => {
            return Err(BridgeError::NoMatchingTransaction);
        },
    };
    match find_transfer_event(events) {
        Some(at) => read_details(&events[at]),
        None => Err(BridgeError::NoMatchingTransaction),
    }
}

/// The harness of the bridge with the chain's own client: the name under
/// which its clients are set up.
pub struct TestHarness;

/// The harness of the bridge with the client of the chain's framework: the
/// name under which its clients are set up.
pub struct TestHarnessFramework;

} // verus!
