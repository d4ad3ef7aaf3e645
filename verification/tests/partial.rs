use movement_node::blob::Blob;
use movement_node::blob::BlobResponse;
use movement_node::blob::BlobType;
use movement_node::block::Block;
use movement_node::block::BlockError;
use movement_node::block::Id;
use movement_node::block::Transaction;
use movement_node::grouping_heuristic::stack::all_done;
use movement_node::grouping_heuristic::GroupingOutcome;
use movement_node::partial::executable_block;
use movement_node::partial::on_commitment_event;
use movement_node::partial::read_block;
use movement_node::partial::sequenced_block;
use movement_node::partial::BlockCommitment;
use movement_node::partial::BlockCommitmentEvent;
use movement_node::partial::DriverError;
use movement_node::partial::ExecutableTransaction;
use movement_node::partial::Received;
use movement_node::partial::SettlementAction;
use movement_node::partial::StreamReadResponse;
use movement_node::partial::WriteWindow;
use movement_node::partial::RECEIVE_TIMEOUT_MS;
use movement_node::partial::WRITE_WINDOW_MS;
use movement_node::sequencer::GroupPlan;
use movement_node::sequencer::LightNodeV1;
use movement_node::sequencer::WrappedBlock;
use sha2::Digest as _;

fn block_of(payloads: &[&[u8]]) -> Block {
    Block::new(
        Id::new([1u8; 32]),
        42,
        payloads.iter().map(|p| Transaction::new(p.to_vec())).collect(),
    )
}

/// A namespace of version 0: 18 zero bytes and 10 bytes of the user.
fn namespace() -> Vec<u8> {
    let mut bytes = vec![0u8; 29];
    bytes[19..].copy_from_slice(b"movement00");
    bytes
}

fn stored(data: Vec<u8>) -> Blob {
    Blob { blob_id: "blob-7".to_string(), data, height: 0, timestamp: 1234 }
}

#[test]
fn write_window_gathers_until_its_time_is_over() {
    assert_eq!(WRITE_WINDOW_MS, 100);
    assert_eq!(RECEIVE_TIMEOUT_MS, 100);
    let mut window = WriteWindow::open(1000);
    assert!(window.on_received(Received::Transaction(vec![1]), 1001));
    assert!(window.on_received(Received::Transaction(vec![2]), 1100));
    // past the end of the window the transaction still joins, and gathering ends
    assert!(!window.on_received(Received::Transaction(vec![3]), 1101));
    let batch = window.close().unwrap();
    let data: Vec<Vec<u8>> = batch.into_iter().map(|write| write.data).collect();
    assert_eq!(data, vec![vec![1], vec![2], vec![3]]);
}

#[test]
fn write_window_ends_on_timeout_or_closed_channel() {
    let mut window = WriteWindow::open(0);
    assert!(window.on_received(Received::Transaction(vec![1]), 5));
    assert!(!window.on_received(Received::TimedOut, 10));
    assert_eq!(window.close().unwrap().len(), 1);
    let mut window = WriteWindow::open(0);
    assert!(!window.on_received(Received::Closed, 10));
    assert!(window.close().is_none());
}

#[test]
fn write_window_that_gathered_nothing_writes_nothing() {
    assert!(WriteWindow::open(7).close().is_none());
}

#[test]
fn write_window_at_the_end_of_time() {
    let mut window = WriteWindow::open(u64::MAX - 5);
    assert!(window.on_received(Received::Transaction(vec![1]), u64::MAX));
}

#[test]
fn sequenced_block_of_an_answer() {
    let answer = StreamReadResponse {
        blob: Some(BlobResponse {
            blob_type: Some(BlobType::SequencedBlobBlock(stored(vec![1, 2]))),
        }),
    };
    let blob = sequenced_block(answer).unwrap();
    assert_eq!(blob.data, vec![1, 2]);
    assert_eq!(blob.blob_id, "blob-7");
    assert_eq!(blob.timestamp, 1234);

    let none = StreamReadResponse { blob: None };
    let error = sequenced_block(none).unwrap_err();
    assert!(matches!(error, DriverError::NoBlob));
    assert_eq!(error.message(), "No blob in response");

    let untyped = StreamReadResponse { blob: Some(BlobResponse { blob_type: None }) };
    let error = sequenced_block(untyped).unwrap_err();
    assert!(matches!(error, DriverError::NoBlobType));
    assert_eq!(error.message(), "No blob type in response");

    for other in [
        BlobType::PassedThroughBlob(stored(vec![])),
        BlobType::SequencedBlobIntent(stored(vec![])),
    ] {
        let answer = StreamReadResponse { blob: Some(BlobResponse { blob_type: Some(other) }) };
        let error = sequenced_block(answer).unwrap_err();
        assert!(matches!(error, DriverError::InvalidBlobType));
        assert_eq!(error.message(), "Invalid blob type in response");
    }
}

#[test]
fn read_block_gives_the_metadata_and_then_the_user_transactions() {
    let block = block_of(&[b"t1", b"t2", b"t3", b"t4", b"t5"]);
    let wrapped = WrappedBlock::try_new(block, namespace()).unwrap();
    let blob = stored(wrapped.blob().data.clone());
    let executable = read_block(&blob).unwrap();
    // one metadata transaction and five user transactions
    assert_eq!(executable.transactions.len(), 6);
    match &executable.transactions[0] {
        ExecutableTransaction::BlockMetadata { blob_id, timestamp } => {
            assert_eq!(blob_id, "blob-7");
            assert_eq!(*timestamp, 1234);
        }
        _ => panic!("the block does not open with its metadata"),
    }
    let users: Vec<Vec<u8>> = executable.transactions[1..]
        .iter()
        .map(|transaction| match transaction {
            ExecutableTransaction::UserTransaction(data) => data.clone(),
            _ => panic!("metadata in the middle of a block"),
        })
        .collect();
    assert_eq!(
        users,
        vec![b"t1".to_vec(), b"t2".to_vec(), b"t3".to_vec(), b"t4".to_vec(), b"t5".to_vec()]
    );
    // the identifier for the executor is the digest of the stored bytes
    let digest: [u8; 32] = sha2::Sha256::digest(&blob.data).into();
    assert_eq!(executable.block_id.0, digest);
    assert_ne!(executable.block_id.0, wrapped.block().id().0);
}

#[test]
fn read_block_of_an_empty_block_has_only_the_metadata() {
    let wrapped = WrappedBlock::try_new(block_of(&[]), namespace()).unwrap();
    let executable = read_block(&stored(wrapped.blob().data.clone())).unwrap();
    assert_eq!(executable.transactions.len(), 1);
}

#[test]
fn read_block_refuses_what_is_not_compressed() {
    let error = read_block(&stored(b"plainly not a frame".to_vec())).unwrap_err();
    assert!(matches!(error, DriverError::Compression(_)));
}

#[test]
fn read_block_refuses_what_holds_no_block() {
    let frame = zstd::encode_all(&b"no block"[..], 0).unwrap();
    let error = read_block(&stored(frame)).unwrap_err();
    assert!(matches!(error, DriverError::Block(BlockError::Encoding(_))));

    let mut encoded = block_of(&[b"t"]).encode().unwrap();
    encoded[0] ^= 1;
    let frame = zstd::encode_all(encoded.as_slice(), 0).unwrap();
    let error = read_block(&stored(frame)).unwrap_err();
    assert!(matches!(error, DriverError::Block(BlockError::IdMismatch)));
}

#[test]
fn executable_block_of_a_block() {
    let blob = stored(vec![9, 9, 9]);
    let executable = executable_block(block_of(&[b"a"]), &blob);
    assert_eq!(executable.transactions.len(), 2);
    let digest: [u8; 32] = sha2::Sha256::digest([9u8, 9, 9]).into();
    assert_eq!(executable.block_id.0, digest);
}

#[test]
fn accepted_commitment_finalizes_its_height() {
    let commitment =
        BlockCommitment { height: 12, block_id: Id::new([1; 32]), state_root: Id::new([2; 32]) };
    assert!(matches!(
        on_commitment_event(BlockCommitmentEvent::Accepted(commitment)),
        SettlementAction::SetFinalizedBlockHeight(12)
    ));
    let first = BlockCommitment { height: 0, block_id: Id::new([0; 32]), state_root: Id::new([0; 32]) };
    assert!(matches!(
        on_commitment_event(BlockCommitmentEvent::Accepted(first)),
        SettlementAction::SetFinalizedBlockHeight(0)
    ));
}

#[test]
fn rejected_commitment_finalizes_nothing() {
    let event = BlockCommitmentEvent::Rejected { height: 12, reason: "bad root".to_string() };
    match on_commitment_event(event) {
        SettlementAction::NoteRejection { height, reason } => {
            assert_eq!(height, 12);
            assert_eq!(reason, "bad root");
        }
        SettlementAction::SetFinalizedBlockHeight(_) => panic!("a rejection finalized a height"),
    }
}

#[test]
fn end_to_end_replay() {
    // five transactions arrive on the channel of the node within one window
    let pushed: Vec<Vec<u8>> = (1u8..=5).map(|i| vec![i, i + 1]).collect();
    let mut window = WriteWindow::open(0);
    for (i, transaction) in pushed.iter().enumerate() {
        let serialized = serde_json::to_vec(transaction).unwrap();
        assert!(window.on_received(Received::Transaction(serialized), i as u64));
    }
    assert!(!window.on_received(Received::TimedOut, 100));
    let batch = window.close().unwrap();

    // the sequencer accepts the batch at the head of the store
    let transactions = LightNodeV1::decode_transactions(&batch).unwrap();
    let intents = LightNodeV1::make_intents(batch, 0);
    assert_eq!(intents.len(), 5);

    // the mempool builds one block of them, and the publisher submits it
    let block = Block::new(Id::new([0u8; 32]), 1, transactions);
    let node = LightNodeV1::new(namespace(), 1000);
    let wrapped = node.wrap_blocks(vec![block]).unwrap();
    let mut stack = LightNodeV1::publishing_stack();
    let round = stack.distribute(GroupingOutcome::new_apply_distribution(wrapped));
    let mut store: Vec<Vec<u8>> = Vec::new();
    let mut outcomes = Vec::new();
    let mut flag = false;
    for (index, group) in round.into_iter().enumerate() {
        match LightNodeV1::plan_group(index, group, flag) {
            (GroupPlan::Submit(blocks), _) => {
                store.extend(LightNodeV1::blobs_of(&blocks).into_iter().map(|blob| blob.data));
                let (outcome, mark) = LightNodeV1::settle_group(blocks, true);
                flag = mark;
                outcomes.push(outcome);
            }
            (GroupPlan::Settled(_), _) => panic!("a group was held back without a refusal"),
        }
    }
    assert!(all_done(&outcomes));
    assert_eq!(store.len(), 1);

    // the stream hands the block back at height 0, and the node executes it
    let answer = StreamReadResponse {
        blob: Some(BlobResponse {
            blob_type: Some(BlobType::SequencedBlobBlock(Blob {
                blob_id: "first".to_string(),
                data: store[0].clone(),
                height: 0,
                timestamp: 5,
            })),
        }),
    };
    let blob = sequenced_block(answer).unwrap();
    let executable = read_block(&blob).unwrap();
    assert_eq!(executable.transactions.len(), 6);
    assert!(matches!(executable.transactions[0], ExecutableTransaction::BlockMetadata { .. }));
    let executed: Vec<Vec<u8>> = executable.transactions[1..]
        .iter()
        .map(|transaction| match transaction {
            ExecutableTransaction::UserTransaction(data) => data.clone(),
            _ => panic!("metadata in the middle of a block"),
        })
        .collect();
    assert_eq!(executed, pushed);

    // the commitment is accepted, and height 0 becomes final
    let commitment =
        BlockCommitment { height: 0, block_id: executable.block_id, state_root: Id::new([9; 32]) };
    assert!(matches!(
        on_commitment_event(BlockCommitmentEvent::Accepted(commitment)),
        SettlementAction::SetFinalizedBlockHeight(0)
    ));
}

#[test]
fn write_window_gives_one_batch_in_arrival_order() {
    let mut window = WriteWindow::open(0);
    for i in 1..=5u8 {
        assert!(window.on_received(Received::Transaction(vec![i, i]), 10 * u64::from(i)));
    }
    assert!(!window.on_received(Received::TimedOut, 60));
    let batch = window.close().unwrap();
    let data: Vec<Vec<u8>> = batch.into_iter().map(|write| write.data).collect();
    assert_eq!(data, vec![vec![1, 1], vec![2, 2], vec![3, 3], vec![4, 4], vec![5, 5]]);
}
