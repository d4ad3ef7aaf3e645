use movement_node::block::Block;
use movement_node::block::BlockError;
use movement_node::block::Id;
use movement_node::block::Transaction;
use movement_node::grouping_heuristic::splitting::Splitable as _;
use sha2::Digest as _;

fn transactions(payloads: &[&[u8]]) -> Vec<Transaction> {
    payloads.iter().map(|payload| Transaction::new(payload.to_vec())).collect()
}

fn payloads_of(block: &Block) -> Vec<Vec<u8>> {
    block.transactions().iter().map(|t| t.data().clone()).collect()
}

fn expected_id(parent: &[u8; 32], timestamp: u64, payloads: &[&[u8]]) -> [u8; 32] {
    let mut preimage: Vec<u8> = Vec::new();
    preimage.extend_from_slice(parent);
    preimage.extend_from_slice(&timestamp.to_be_bytes());
    preimage.extend_from_slice(&(payloads.len() as u64).to_be_bytes());
    for payload in payloads {
        preimage.extend_from_slice(&(payload.len() as u64).to_be_bytes());
        preimage.extend_from_slice(payload);
    }
    sha2::Sha256::digest(&preimage).into()
}

#[test]
fn block_id_is_the_digest_of_its_content() {
    let parent = [7u8; 32];
    let block = Block::new(Id::new(parent), 0x0102030405060708, transactions(&[b"ab", b"", b"cde"]));
    assert_eq!(
        block.id().0,
        expected_id(&parent, 0x0102030405060708, &[b"ab", b"", b"cde"])
    );
    assert_eq!(block.parent_id().0, parent);
    assert_eq!(block.timestamp(), 0x0102030405060708);
    assert_eq!(payloads_of(&block), vec![b"ab".to_vec(), b"".to_vec(), b"cde".to_vec()]);
}

#[test]
fn block_id_of_an_empty_block() {
    let block = Block::new(Id::new([0u8; 32]), 0, Vec::new());
    // sha256 of 32 zero bytes, a zero timestamp and a zero count: 48 zero bytes
    let expected: [u8; 32] = sha2::Sha256::digest([0u8; 48]).into();
    assert_eq!(block.id().0, expected);
}

#[test]
fn block_id_depends_on_every_part_of_the_content() {
    let base = Block::new(Id::new([1u8; 32]), 5, transactions(&[b"a", b"b"]));
    let other_parent = Block::new(Id::new([2u8; 32]), 5, transactions(&[b"a", b"b"]));
    let other_time = Block::new(Id::new([1u8; 32]), 6, transactions(&[b"a", b"b"]));
    let other_order = Block::new(Id::new([1u8; 32]), 5, transactions(&[b"b", b"a"]));
    let other_framing = Block::new(Id::new([1u8; 32]), 5, transactions(&[b"ab", b""]));
    assert_ne!(base.id().0, other_parent.id().0);
    assert_ne!(base.id().0, other_time.id().0);
    assert_ne!(base.id().0, other_order.id().0);
    assert_ne!(base.id().0, other_framing.id().0);
    let same = Block::new(Id::new([1u8; 32]), 5, transactions(&[b"a", b"b"]));
    assert!(base.id().same(&same.id()));
    assert!(!base.id().same(&other_time.id()));
}

#[test]
fn block_encoding_is_the_standard_serialization_of_its_fields() {
    let block = Block::new(Id::new([3u8; 32]), 258, transactions(&[b"xy", b"z"]));
    let bytes = block.encode().unwrap();
    let id = block.id().0;
    let mut expected: Vec<u8> = Vec::new();
    expected.extend_from_slice(&id);
    expected.extend_from_slice(&[3u8; 32]);
    expected.extend_from_slice(&258u64.to_le_bytes());
    expected.extend_from_slice(&[2, 2, b'x', b'y', 1, b'z']);
    assert_eq!(bytes, expected);
    let fields =
        bcs::to_bytes(&(id, [3u8; 32], 258u64, vec![b"xy".to_vec(), b"z".to_vec()])).unwrap();
    assert_eq!(bytes, fields);
}

#[test]
fn block_decode_gives_back_what_was_encoded() {
    let block = Block::new(Id::new([9u8; 32]), 77, transactions(&[b"one", b"two", b"three"]));
    let bytes = block.encode().unwrap();
    let decoded = Block::decode(&bytes).unwrap();
    assert_eq!(decoded.id().0, block.id().0);
    assert_eq!(decoded.parent_id().0, [9u8; 32]);
    assert_eq!(decoded.timestamp(), 77);
    assert_eq!(payloads_of(&decoded), payloads_of(&block));
}

#[test]
fn block_decode_refuses_what_is_no_encoding() {
    assert!(matches!(Block::decode(b"junk"), Err(BlockError::Encoding(_))));
    assert!(matches!(Block::decode(b""), Err(BlockError::Encoding(_))));
    let block = Block::new(Id::new([9u8; 32]), 77, transactions(&[b"one"]));
    let mut bytes = block.encode().unwrap();
    bytes.push(0);
    assert!(matches!(Block::decode(&bytes), Err(BlockError::Encoding(_))));
}

#[test]
fn block_decode_refuses_a_wrong_identifier() {
    let block = Block::new(Id::new([9u8; 32]), 77, transactions(&[b"one"]));
    let mut bytes = block.encode().unwrap();
    bytes[0] ^= 1;
    assert!(matches!(Block::decode(&bytes), Err(BlockError::IdMismatch)));
    // a changed payload no longer matches the identifier either
    let mut bytes = block.encode().unwrap();
    let last = bytes.len() - 1;
    bytes[last] ^= 1;
    assert!(matches!(Block::decode(&bytes), Err(BlockError::IdMismatch)));
}

#[test]
fn block_from_parts_checks_the_identifier() {
    let block = Block::new(Id::new([4u8; 32]), 1, transactions(&[b"a"]));
    let ok = Block::from_parts(block.id(), Id::new([4u8; 32]), 1, transactions(&[b"a"]));
    assert_eq!(ok.unwrap().id().0, block.id().0);
    let bad = Block::from_parts(block.id(), Id::new([4u8; 32]), 2, transactions(&[b"a"]));
    assert!(matches!(bad, Err(BlockError::IdMismatch)));
}

#[test]
fn block_parts_are_even_runs_in_order() {
    let block = Block::new(Id::new([5u8; 32]), 9, transactions(&[b"1", b"2", b"3", b"4", b"5"]));
    let parts = block.parts(2).unwrap();
    assert_eq!(parts.len(), 2);
    assert_eq!(payloads_of(&parts[0]), vec![b"1".to_vec(), b"2".to_vec(), b"3".to_vec()]);
    assert_eq!(payloads_of(&parts[1]), vec![b"4".to_vec(), b"5".to_vec()]);
    // the first part follows the parent of the block, the second the first
    assert_eq!(parts[0].parent_id().0, [5u8; 32]);
    assert_eq!(parts[1].parent_id().0, parts[0].id().0);
    assert_eq!(parts[0].timestamp(), 9);
    assert_eq!(parts[1].timestamp(), 9);
    // every part is a block of its own
    assert_eq!(parts[0].id().0, expected_id(&[5u8; 32], 9, &[b"1", b"2", b"3"]));
    assert_eq!(parts[1].id().0, expected_id(&parts[0].id().0, 9, &[b"4", b"5"]));
}

#[test]
fn block_parts_by_three_and_by_the_number_of_transactions() {
    let block =
        Block::new(Id::new([5u8; 32]), 9, transactions(&[b"1", b"2", b"3", b"4", b"5", b"6", b"7"]));
    let sizes: Vec<usize> =
        block.parts(3).unwrap().iter().map(|part| part.transactions().len()).collect();
    assert_eq!(sizes, vec![3, 2, 2]);
    let sizes: Vec<usize> =
        block.parts(7).unwrap().iter().map(|part| part.transactions().len()).collect();
    assert_eq!(sizes, vec![1, 1, 1, 1, 1, 1, 1]);
    let whole = block.parts(1).unwrap();
    assert_eq!(whole.len(), 1);
    assert_eq!(whole[0].id().0, block.id().0);
}

#[test]
fn block_that_cannot_be_cut() {
    let block = Block::new(Id::new([5u8; 32]), 9, transactions(&[b"1", b"2"]));
    assert!(block.parts(0).is_none());
    assert!(block.parts(3).is_none());
    let empty = Block::new(Id::new([5u8; 32]), 9, Vec::new());
    assert!(empty.parts(1).is_none());
    // a split hands the block back whole
    let id = block.id().0;
    match block.split(3) {
        Err(whole) => assert_eq!(whole.id().0, id),
        Ok(_) => panic!("a block of two transactions was cut in three"),
    }
}

#[test]
fn block_split_joins_to_the_transactions_of_the_block() {
    let block = Block::new(
        Id::new([5u8; 32]),
        9,
        transactions(&[b"a", b"b", b"c", b"d", b"e", b"f", b"g", b"h", b"i", b"j", b"k"]),
    );
    let all = payloads_of(&block);
    for factor in 1..=11usize {
        let parts = block.parts(factor).unwrap();
        assert_eq!(parts.len(), factor);
        let mut joined: Vec<Vec<u8>> = Vec::new();
        for part in &parts {
            joined.extend(payloads_of(part));
        }
        assert_eq!(joined, all);
    }
}

#[test]
fn transaction_duplicate_has_the_same_payload() {
    let transaction = Transaction::new(vec![1, 2, 3]);
    assert_eq!(transaction.duplicate().data(), &vec![1, 2, 3]);
    assert_eq!(Transaction::new(Vec::new()).duplicate().data(), &Vec::<u8>::new());
}
