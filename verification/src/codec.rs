//! Hashing, compression, serialization and text, as the crates `sha2`, `zstd`,
//! `bcs`, `serde_json`, `celestia-types` and `alloy` and the standard library
//! do them.
//!
//! Nothing in this module is proved: each function hands its arguments to a
//! crate outside this library, and its contract is taken on trust from that
//! crate's documentation.

use crate::block::Transaction;
use vstd::prelude::*;

verus! {

/// The error type of `bcs`.
#[verifier::external_type_specification]
#[verifier::external_body]
pub struct ExBcsError(bcs::Error);

/// The error type of `serde_json`.
#[verifier::external_type_specification]
#[verifier::external_body]
pub struct ExJsonError(serde_json::Error);

/// The error type of `std::io`, which `zstd` returns.
#[verifier::external_type_specification]
#[verifier::external_body]
pub struct ExIoError(std::io::Error);

/// The error type of `celestia_types`.
#[verifier::external_type_specification]
#[verifier::external_body]
pub struct ExCelestiaError(celestia_types::Error);

/// The share commitment of the blob that holds some data under a namespace,
/// without a signer, if the namespace is one and the data make a blob.
pub uninterp spec fn celestia_commitment(namespace: Seq<u8>, data: Seq<u8>) -> Option<Seq<u8>>;

/// The error type of `alloy::hex`.
#[verifier::external_type_specification]
#[verifier::external_body]
pub struct ExFromHexError(alloy::hex::FromHexError);

/// The Keccak-256 digest of some bytes.
pub uninterp spec fn keccak256_digest(data: Seq<u8>) -> Seq<u8>;

/// Whether a character is a hexadecimal digit, in either case.
pub open spec fn is_hex_digit(c: char) -> bool {
    ('0' <= c && c <= '9') || ('a' <= c && c <= 'f') || ('A' <= c && c <= 'F')
}

/// The number that a hexadecimal digit stands for.
pub open spec fn hex_value(c: char) -> int {
    if '0' <= c && c <= '9' {
        c as int - '0' as int
    } else if 'a' <= c && c <= 'f' {
        c as int - 'a' as int + 10
    } else {
        c as int - 'A' as int + 10
    }
}

/// A text without one `0x` or `0X` at its start.
pub open spec fn hex_body(text: Seq<char>) -> Seq<char> {
    if text.len() >= 2 && text[0] == '0' && (text[1] == 'x' || text[1] == 'X') {
        text.skip(2)
    } else {
        text
    }
}

/// The bytes that a text spells in hexadecimal digits, if it does: the text
/// has an even number of characters, and, after one `0x` or `0X` at its start
/// if there is one, nothing but hexadecimal digits; each byte is spelt by two
/// of them, the higher half first.
pub open spec fn hex_bytes(text: Seq<char>) -> Option<Seq<u8>> {
    let body = hex_body(text);
    if text.len() % 2 == 0 && (forall|i: int| 0 <= i < body.len() ==> is_hex_digit(#[trigger] body[i])) {
        Some(
            Seq::new(
                body.len() / 2,
                |i: int| (16 * hex_value(body[2 * i]) + hex_value(body[2 * i + 1])) as u8,
            ),
        )
    } else {
        None
    }
}

/// Whether a character is a decimal digit.
pub open spec fn is_decimal_digit(c: char) -> bool {
    '0' <= c && c <= '9'
}

/// The number that decimal digits spell, the highest first.
pub open spec fn decimal_value(digits: Seq<char>) -> nat
    decreases digits.len(),
{
    if digits.len() == 0 {
        0
    } else {
        (decimal_value(digits.drop_last()) * 10 + (digits.last() as int - '0' as int)) as nat
    }
}

/// The number that a text spells in decimal digits, if it spells one that
/// fits 64 bits: the text is one decimal digit or more, with or without a `+`
/// before them, and nothing else.
pub open spec fn decimal_u64(text: Seq<char>) -> Option<u64> {
    let digits = if text.len() > 0 && text[0] == '+' {
        text.skip(1)
    } else {
        text
    };
    if digits.len() > 0 && (forall|i: int|
        0 <= i < digits.len() ==> is_decimal_digit(#[trigger] digits[i])) && decimal_value(digits)
        <= u64::MAX {
        Some(decimal_value(digits) as u64)
    } else {
        None
    }
}

/// A text without the prefix at its start, however often the prefix stands
/// there.
pub open spec fn without_prefix(text: Seq<char>, prefix: Seq<char>) -> Seq<char>
    decreases text.len(),
{
    if prefix.len() > 0 && prefix.is_prefix_of(text) {
        without_prefix(text.skip(prefix.len() as int), prefix)
    } else {
        text
    }
}

/// The SHA-256 digest of some bytes.
pub uninterp spec fn sha256_digest(data: Seq<u8>) -> Seq<u8>;

/// The zstd frame that compressing some bytes at the default level gives, if
/// they compress.
pub uninterp spec fn zstd_frame(plain: Seq<u8>) -> Option<Seq<u8>>;

/// The bytes that decompressing a sequence of zstd frames gives, if it is one.
pub uninterp spec fn zstd_plain(data: Seq<u8>) -> Option<Seq<u8>>;

/// The BCS serialization of a block: its identifier, the identifier of its
/// parent, its timestamp and the payloads of its transactions, in this order.
pub uninterp spec fn bcs_block(
    id: Seq<u8>,
    parent_id: Seq<u8>,
    timestamp: u64,
    transactions: Seq<Seq<u8>>,
) -> Seq<u8>;

/// The bytes that a JSON text lists as an array of numbers, if it is such a
/// text.
pub uninterp spec fn json_bytes(text: Seq<u8>) -> Option<Seq<u8>>;

/// Calls `sha2::Sha256::digest`. Trusted: the result is the 32-byte SHA-256
/// digest of the data, a function of the data alone.
#[verifier::external_body]
pub(crate) fn sha256(data: &[u8]) -> (r: [u8; 32])
    ensures
        r@ == sha256_digest(data@),
{
    let digest = <sha2::Sha256 as sha2::Digest>::digest(data);
    digest.into()
}

/// Calls `zstd::encode_all` at level 0, the default. Trusted: whether the call
/// succeeds, and with what, is a function of the data alone, and what it gives
/// is a frame that decompresses to the data.
#[verifier::external_body]
pub(crate) fn zstd_compress(data: &[u8]) -> (r: Result<Vec<u8>, std::io::Error>)
    ensures
        match r {
            Ok(frame) => zstd_frame(data@) == Some(frame@) && zstd_plain(frame@) == Some(data@),
            Err(_) => zstd_frame(data@) is None,
        },
{
    zstd::encode_all(data, 0)
}

/// Calls `zstd::decode_all`. Trusted: whether the call succeeds, and with what,
/// is a function of the data alone.
#[verifier::external_body]
pub(crate) fn zstd_decompress(data: &[u8]) -> (r: Result<Vec<u8>, std::io::Error>)
    ensures
        match r {
            Ok(plain) => zstd_plain(data@) == Some(plain@),
            Err(_) => zstd_plain(data@) is None,
        },
{
    zstd::decode_all(data)
}

/// The longest sequence that BCS serializes.
pub const BCS_MAX_SEQUENCE_LENGTH: usize = 0x7fff_ffff;

/// Whether fields are those of a block that BCS serializes: two identifiers
/// of 32 bytes, and neither the transactions nor the bytes of any payload
/// more than the longest sequence.
pub open spec fn bcs_serializable(
    id: Seq<u8>,
    parent_id: Seq<u8>,
    transactions: Seq<Seq<u8>>,
) -> bool {
    &&& id.len() == 32
    &&& parent_id.len() == 32
    &&& transactions.len() <= BCS_MAX_SEQUENCE_LENGTH
    &&& forall|i: int|
        0 <= i < transactions.len() ==> (#[trigger] transactions[i]).len()
            <= BCS_MAX_SEQUENCE_LENGTH
}

/// Calls `bcs::to_bytes` on the fields of a block. Trusted: where the call
/// succeeds, the result is a function of the fields alone; and it succeeds
/// exactly where neither the transactions nor the bytes of any payload are
/// more than the longest sequence that BCS serializes.
#[verifier::external_body]
pub(crate) fn bcs_encode_block(
    id: &[u8; 32],
    parent_id: &[u8; 32],
    timestamp: u64,
    transactions: &Vec<Transaction>,
) -> (r: Result<Vec<u8>, bcs::Error>)
    ensures
        r matches Ok(bytes) ==> bytes@ == bcs_block(
            id@,
            parent_id@,
            timestamp,
            transactions@.map_values(|transaction: Transaction| transaction@),
        ),
        r is Ok <==> bcs_serializable(
            id@,
            parent_id@,
            transactions@.map_values(|transaction: Transaction| transaction@),
        ),
{
    let payloads: Vec<&[u8]> = transactions.iter().map(|t| t.0.as_slice()).collect();
    bcs::to_bytes(&(id, parent_id, timestamp, payloads))
}

/// Calls `bcs::from_bytes` for the fields of a block. Trusted: BCS is
/// canonical, so the call succeeds exactly on the serializations of fields
/// that it serializes, and gives those fields.
#[verifier::external_body]
pub(crate) fn bcs_decode_block(bytes: &[u8]) -> (r: Result<
    ([u8; 32], [u8; 32], u64, Vec<Vec<u8>>),
    bcs::Error,
>)
    ensures
        r matches Ok(fields) ==> bytes@ == bcs_block(
            fields.0@,
            fields.1@,
            fields.2,
            fields.3@.map_values(|payload: Vec<u8>| payload@),
        ),
        r matches Ok(fields) ==> bcs_serializable(
            fields.0@,
            fields.1@,
            fields.3@.map_values(|payload: Vec<u8>| payload@),
        ),
        r is Ok || forall|
            id: Seq<u8>,
            parent_id: Seq<u8>,
            timestamp: u64,
            transactions: Seq<Seq<u8>>,
        |
            bcs_serializable(id, parent_id, transactions) ==> bytes@ != #[trigger] bcs_block(
                id,
                parent_id,
                timestamp,
                transactions,
            ),
        r matches Ok(fields) ==> forall|
            id: Seq<u8>,
            parent_id: Seq<u8>,
            timestamp: u64,
            transactions: Seq<Seq<u8>>,
        |
            bcs_serializable(id, parent_id, transactions) && bytes@ == #[trigger] bcs_block(
                id,
                parent_id,
                timestamp,
                transactions,
            ) ==> {
                &&& fields.0@ == id
                &&& fields.1@ == parent_id
                &&& fields.2 == timestamp
                &&& fields.3@.map_values(|payload: Vec<u8>| payload@) == transactions
            },
{
    bcs::from_bytes::<([u8; 32], [u8; 32], u64, Vec<Vec<u8>>)>(bytes)
}

/// Calls `serde_json::from_slice` for a vector of bytes. Trusted: whether the
/// call succeeds, and with what, is a function of the text alone.
#[verifier::external_body]
pub(crate) fn json_decode_bytes(text: &[u8]) -> (r: Result<Vec<u8>, serde_json::Error>)
    ensures
        match r {
            Ok(bytes) => json_bytes(text@) == Some(bytes@),
            Err(_) => json_bytes(text@) is None,
        },
{
    serde_json::from_slice::<Vec<u8>>(text)
}

/// Calls `alloy::primitives::keccak256`. Trusted: the result is the 32-byte
/// Keccak-256 digest of the data, a function of the data alone.
#[verifier::external_body]
pub(crate) fn keccak256(data: &[u8]) -> (r: [u8; 32])
    ensures
        r@ == keccak256_digest(data@),
{
    alloy::primitives::keccak256(data).0
}

/// Calls `alloy::hex::decode`. Trusted: the call succeeds on a text of even
/// length that holds, after one `0x` or `0X` at its start if there is one,
/// nothing but hexadecimal digits, and gives the bytes that the digits spell
/// two by two; it fails on every other text.
#[verifier::external_body]
pub(crate) fn hex_decode(text: &str) -> (r: Result<Vec<u8>, alloy::hex::FromHexError>)
    ensures
        match r {
            Ok(bytes) => hex_bytes(text@) == Some(bytes@),
            Err(_) => hex_bytes(text@) is None,
        },
{
    alloy::hex::decode(text)
}

/// Calls `str::trim_start_matches`. Trusted: the result is the text with
/// every repetition of the prefix at its start removed.
#[verifier::external_body]
pub(crate) fn trim_start_matches<'a>(text: &'a str, prefix: &str) -> (r: &'a str)
    requires
        prefix@.len() > 0,
    ensures
        r@ == without_prefix(text@, prefix@),
{
    text.trim_start_matches(prefix)
}

/// Calls `str::parse` for a `u64`. Trusted: the call succeeds on a text of
/// one decimal digit or more, with or without a `+` before them, that spells
/// a number which fits 64 bits, and gives that number; it fails on every
/// other text.
#[verifier::external_body]
pub(crate) fn parse_u64(text: &str) -> (r: Option<u64>)
    ensures
        r == decimal_u64(text@),
{
    text.parse::<u64>().ok()
}

/// Calls `celestia_types::Blob::new` without a signer, on the namespace that
/// `celestia_types::nmt::Namespace::from_raw` makes of the bytes, and hands out
/// the hash of the blob's commitment. Trusted: whether the calls succeed, and
/// with what, is a function of the namespace and the data alone.
#[verifier::external_body]
pub(crate) fn celestia_commit(namespace: &[u8], data: &[u8]) -> (r: Result<
    [u8; 32],
    celestia_types::Error,
>)
    ensures
        match r {
            Ok(commitment) => celestia_commitment(namespace@, data@) == Some(commitment@),
            Err(_) => celestia_commitment(namespace@, data@) is None,
        },
{
    let namespace = celestia_types::nmt::Namespace::from_raw(namespace)?;
    let blob = celestia_types::Blob::new(namespace, data.to_vec(), None)?;
    Ok(*blob.commitment.hash())
}

/// Calls `to_string` on an error of `celestia_types`. Nothing is claimed of
/// the text.
#[verifier::external_body]
pub(crate) fn celestia_error_text(error: &celestia_types::Error) -> String {
    error.to_string()
}

/// Calls `to_string` on an error of `bcs`. Nothing is claimed of the text.
#[verifier::external_body]
pub(crate) fn bcs_error_text(error: &bcs::Error) -> String {
    error.to_string()
}

/// Calls `to_string` on an error of `serde_json`. Nothing is claimed of the
/// text.
#[verifier::external_body]
pub(crate) fn json_error_text(error: &serde_json::Error) -> String {
    error.to_string()
}

/// Calls `to_string` on an error of `std::io`. Nothing is claimed of the text.
#[verifier::external_body]
pub(crate) fn io_error_text(error: &std::io::Error) -> String {
    error.to_string()
}

} // verus!
