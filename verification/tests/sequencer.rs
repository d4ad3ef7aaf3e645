use movement_node::blob::Blob;
use movement_node::blob::BlobError;
use movement_node::blob::BlobResponse;
use movement_node::blob::BlobType;
use movement_node::blob::BlobWrite;
use movement_node::block::Block;
use movement_node::block::Id;
use movement_node::block::Transaction;
use movement_node::grouping_heuristic::binpacking::BinpackingWeighted as _;
use movement_node::grouping_heuristic::splitting::Splitable as _;
use movement_node::grouping_heuristic::stack::all_done;
use movement_node::grouping_heuristic::ElementalOutcome;
use movement_node::grouping_heuristic::GroupingOutcome;
use movement_node::sequencer::round::Round;
use movement_node::sequencer::GroupPlan;
use movement_node::sequencer::LightNodeV1;
use movement_node::sequencer::SequencerError;
use movement_node::sequencer::WrapError;
use movement_node::sequencer::WrappedBlock;
use movement_node::sequencer::MAX_BLOB_BYTES;

/// Bytes that do not compress: a multiplicative congruential sequence.
fn noise(len: usize, seed: u64) -> Vec<u8> {
    let mut state = seed.wrapping_mul(2862933555777941757).wrapping_add(3037000493);
    let mut out = Vec::with_capacity(len);
    for _ in 0..len {
        state = state.wrapping_mul(6364136223846793005).wrapping_add(1442695040888963407);
        out.push((state >> 56) as u8);
    }
    out
}

/// A namespace of version 0: 18 zero bytes and 10 bytes of the user.
fn namespace(tag: &[u8; 10]) -> Vec<u8> {
    let mut bytes = vec![0u8; 29];
    bytes[19..].copy_from_slice(tag);
    bytes
}

fn block_of(payloads: Vec<Vec<u8>>) -> Block {
    Block::new(Id::new([1u8; 32]), 42, payloads.into_iter().map(Transaction::new).collect())
}

fn payloads_of(block: &Block) -> Vec<Vec<u8>> {
    block.transactions().iter().map(|t| t.data().clone()).collect()
}

fn sample_blob(data: &[u8]) -> Blob {
    Blob { blob_id: "id".to_string(), data: data.to_vec(), height: 3, timestamp: 9 }
}

#[test]
fn wrapped_block_blob_decompresses_to_the_encoded_block() {
    let block = block_of(vec![b"first".to_vec(), b"second".to_vec()]);
    let encoded = block.encode().unwrap();
    let wrapped = WrappedBlock::try_new(block, namespace(b"movement01")).unwrap();
    assert_eq!(wrapped.blob().namespace, namespace(b"movement01"));
    assert_eq!(zstd::decode_all(wrapped.blob().data.as_slice()).unwrap(), encoded);
    assert_eq!(wrapped.decompressed().unwrap(), encoded);
    assert_eq!(wrapped.blob().data, zstd::encode_all(encoded.as_slice(), 0).unwrap());
    assert_ne!(wrapped.blob().data, encoded);
    assert_eq!(wrapped.weight(), wrapped.blob().data.len());
    assert_eq!(payloads_of(wrapped.block()), vec![b"first".to_vec(), b"second".to_vec()]);
}

#[test]
fn wrapped_block_split_wraps_the_parts_of_the_block() {
    let block = block_of(vec![b"a".to_vec(), b"b".to_vec(), b"c".to_vec()]);
    let wrapped = WrappedBlock::try_new(block, namespace(b"movement02")).unwrap();
    let parts = match wrapped.split(2) {
        Ok(parts) => parts,
        Err(_) => panic!("a block of three transactions was not cut in two"),
    };
    assert_eq!(parts.len(), 2);
    assert_eq!(payloads_of(parts[0].block()), vec![b"a".to_vec(), b"b".to_vec()]);
    assert_eq!(payloads_of(parts[1].block()), vec![b"c".to_vec()]);
    for part in &parts {
        assert_eq!(part.blob().namespace, namespace(b"movement02"));
        assert_eq!(part.decompressed().unwrap(), part.block().encode().unwrap());
    }
}

#[test]
fn wrapped_block_that_cannot_be_cut_comes_back_whole() {
    let block = block_of(vec![b"a".to_vec()]);
    let id = block.id().0;
    let wrapped = WrappedBlock::try_new(block, namespace(b"movement02")).unwrap();
    match wrapped.split(2) {
        Err(whole) => assert_eq!(whole.block().id().0, id),
        Ok(_) => panic!("a block of one transaction was cut in two"),
    }
}

#[test]
fn wrap_blocks_keeps_order_and_namespace() {
    let node = LightNodeV1::new(namespace(b"movement03"), 1000);
    let blocks = vec![block_of(vec![b"a".to_vec()]), block_of(vec![b"b".to_vec()])];
    let ids: Vec<[u8; 32]> = blocks.iter().map(|b| b.id().0).collect();
    let wrapped = node.wrap_blocks(blocks).unwrap();
    assert_eq!(wrapped.iter().map(|w| w.block().id().0).collect::<Vec<_>>(), ids);
    assert!(wrapped.iter().all(|w| w.blob().namespace == namespace(b"movement03")));
    let blobs = LightNodeV1::blobs_of(&wrapped);
    assert_eq!(blobs.len(), 2);
    assert_eq!(blobs[0].data, wrapped[0].blob().data);
    assert_eq!(blobs[1].namespace, namespace(b"movement03"));
}

#[test]
fn remaining_wait_is_half_the_building_time_less_what_elapsed() {
    let node = LightNodeV1::new(namespace(b"movement05"), 1000);
    assert_eq!(node.read_budget_ms(), 500);
    assert_eq!(node.remaining_wait(0), Some(500));
    assert_eq!(node.remaining_wait(499), Some(1));
    assert_eq!(node.remaining_wait(500), Some(0));
    assert_eq!(node.remaining_wait(501), None);
    let odd = LightNodeV1::new(namespace(b"movement05"), 7);
    assert_eq!(odd.remaining_wait(3), Some(0));
    assert_eq!(odd.remaining_wait(4), None);
}

#[test]
fn split_on_oversize() {
    // one block of two transactions whose blob is about 3.2 MB
    let block = block_of(vec![noise(1_600_000, 1), noise(1_600_000, 2)]);
    let whole = payloads_of(&block);
    let node = LightNodeV1::new(namespace(b"movement02"), 1000);
    let wrapped = node.wrap_blocks(vec![block]).unwrap();
    assert!(wrapped[0].weight() > 3_100_000);
    let mut stack = LightNodeV1::publishing_stack();

    // first round: nothing is cut yet, and the block does not fit a blob
    let first = stack.distribute(GroupingOutcome::new_apply_distribution(wrapped));
    assert_eq!(first.len(), 1);
    assert_eq!(first[0].0.len(), 1);
    assert!(matches!(first[0].0[0], ElementalOutcome::Failure(_)));
    // the store refuses it
    let mut flag = false;
    let mut next = Vec::new();
    for (index, group) in first.into_iter().enumerate() {
        match LightNodeV1::plan_group(index, group, flag) {
            (GroupPlan::Submit(blocks), _) => {
                assert!(blocks[0].weight() > MAX_BLOB_BYTES);
                let (outcome, mark) = LightNodeV1::settle_group(blocks, false);
                flag = mark;
                next.push(outcome);
            }
            (GroupPlan::Settled(_), _) => panic!("the first group of a round was not offered"),
        }
    }
    assert!(flag);
    assert!(!all_done(&next));

    // second round: the block is cut in two, and each half fits
    let second = stack.distribute(next);
    assert_eq!(second.len(), 2);
    let mut halves: Vec<Vec<u8>> = Vec::new();
    let mut done = Vec::new();
    for (index, group) in second.into_iter().enumerate() {
        match LightNodeV1::plan_group(index, group, flag) {
            (GroupPlan::Submit(blocks), mark) => {
                assert!(!mark);
                assert_eq!(blocks.len(), 1);
                assert!(blocks[0].weight() <= MAX_BLOB_BYTES);
                assert_eq!(blocks[0].block().transactions().len(), 1);
                halves.extend(payloads_of(blocks[0].block()));
                let (outcome, mark) = LightNodeV1::settle_group(blocks, true);
                flag = mark;
                done.push(outcome);
            }
            (GroupPlan::Settled(_), _) => panic!("a group was held back without a refusal"),
        }
    }
    assert_eq!(halves, whole);
    assert!(all_done(&done));
    assert!(done.iter().all(|group| group.all_succeeded()));
}

#[test]
fn first_failure_is_sticky() {
    // three blocks, each more than half the largest blob, so that each is a group
    let blocks: Vec<Block> =
        (0..3).map(|i| block_of(vec![noise(900_000, 10 + i), vec![i as u8]])).collect();
    let ids: Vec<[u8; 32]> = blocks.iter().map(|b| b.id().0).collect();
    let node = LightNodeV1::new(namespace(b"movement02"), 1000);
    let wrapped = node.wrap_blocks(blocks).unwrap();
    let weights: Vec<usize> = wrapped.iter().map(|w| w.weight()).collect();
    assert!(weights.iter().all(|w| *w <= MAX_BLOB_BYTES && 2 * *w > MAX_BLOB_BYTES));
    let mut stack = LightNodeV1::publishing_stack();
    let round = stack.distribute(GroupingOutcome::new_apply_distribution(wrapped));
    assert_eq!(round.len(), 3);

    // the store takes the first group and refuses the second
    let mut flag = true;
    let mut submitted: Vec<[u8; 32]> = Vec::new();
    let mut outcomes = Vec::new();
    for (index, group) in round.into_iter().enumerate() {
        match LightNodeV1::plan_group(index, group, flag) {
            (GroupPlan::Submit(blocks), _) => {
                submitted.extend(blocks.iter().map(|b| b.block().id().0));
                let (outcome, mark) = LightNodeV1::settle_group(blocks, index != 1);
                flag = mark;
                outcomes.push(outcome);
            }
            (GroupPlan::Settled(outcome), mark) => {
                flag = mark;
                outcomes.push(outcome);
            }
        }
    }
    // only the first two groups were offered to the store
    assert_eq!(submitted.len(), 2);
    assert!(outcomes[0].all_succeeded());
    assert!(matches!(outcomes[1].0[0], ElementalOutcome::Apply(_)));
    assert!(matches!(outcomes[2].0[0], ElementalOutcome::Failure(_)));
    assert!(flag);

    // the next round offers the second and the third block again
    let again = stack.distribute(outcomes);
    let mut offered: Vec<usize> = Vec::new();
    for group in again {
        assert!(group.0.iter().all(|outcome| matches!(outcome, ElementalOutcome::Apply(_))));
        offered.extend(group.into_original().iter().map(|b| b.block().transactions().len()));
    }
    // each of the two blocks came back as its two halves, one transaction each
    assert_eq!(offered, vec![1, 1, 1, 1]);
    assert_eq!(submitted[0], ids[0]);
    assert_eq!(submitted[1], ids[1]);
}

#[test]
fn plan_group_clears_the_mark_on_the_first_group() {
    let wrapped = WrappedBlock::try_new(block_of(vec![b"a".to_vec()]), namespace(b"movement04")).unwrap();
    let group = GroupingOutcome::new_apply(vec![wrapped]);
    match LightNodeV1::plan_group(0, group, true) {
        (GroupPlan::Submit(blocks), mark) => {
            assert!(!mark);
            assert_eq!(blocks.len(), 1);
        }
        _ => panic!("the first group was held back"),
    }
    let wrapped = WrappedBlock::try_new(block_of(vec![b"a".to_vec()]), namespace(b"movement04")).unwrap();
    let group = GroupingOutcome::new_apply(vec![wrapped]);
    match LightNodeV1::plan_group(1, group, true) {
        (GroupPlan::Settled(outcome), mark) => {
            assert!(mark);
            assert!(matches!(outcome.0[0], ElementalOutcome::Failure(_)));
        }
        _ => panic!("a group was offered after a refusal"),
    }
    let wrapped = WrappedBlock::try_new(block_of(vec![b"a".to_vec()]), namespace(b"movement04")).unwrap();
    let group = GroupingOutcome::new_apply(vec![wrapped]);
    assert!(matches!(LightNodeV1::plan_group(1, group, false), (GroupPlan::Submit(_), false)));
}

#[test]
fn settle_group_marks_a_refusal() {
    let wrapped = WrappedBlock::try_new(block_of(vec![b"a".to_vec()]), namespace(b"movement04")).unwrap();
    let (outcome, mark) = LightNodeV1::settle_group(vec![wrapped], true);
    assert!(!mark);
    assert!(outcome.all_succeeded());
    assert_eq!(outcome.0.len(), 1);
    let wrapped = WrappedBlock::try_new(block_of(vec![b"a".to_vec()]), namespace(b"movement04")).unwrap();
    let (outcome, mark) = LightNodeV1::settle_group(vec![wrapped], false);
    assert!(mark);
    assert!(matches!(outcome.0[0], ElementalOutcome::Apply(_)));
}

#[test]
fn to_sequenced_blob_block_by_kind() {
    let passed = BlobResponse { blob_type: Some(BlobType::PassedThroughBlob(sample_blob(b"p"))) };
    match LightNodeV1::to_sequenced_blob_block(passed).unwrap().blob_type {
        Some(BlobType::SequencedBlobBlock(blob)) => {
            assert_eq!(blob.data, b"p".to_vec());
            assert_eq!(blob.blob_id, "id");
            assert_eq!(blob.height, 3);
            assert_eq!(blob.timestamp, 9);
        }
        _ => panic!("a passed through blob did not become a sequenced block"),
    }
    let block = BlobResponse { blob_type: Some(BlobType::SequencedBlobBlock(sample_blob(b"b"))) };
    assert!(matches!(
        LightNodeV1::to_sequenced_blob_block(block).unwrap().blob_type,
        Some(BlobType::SequencedBlobBlock(_))
    ));
    let intent = BlobResponse { blob_type: Some(BlobType::SequencedBlobIntent(sample_blob(b"i"))) };
    assert_eq!(
        LightNodeV1::to_sequenced_blob_block(intent).err(),
        Some(BlobError::InvalidBlobType)
    );
    let nothing = BlobResponse { blob_type: None };
    assert_eq!(LightNodeV1::to_sequenced_blob_block(nothing).err(), Some(BlobError::NoBlobType));
    assert_eq!(BlobError::NoBlobType.message(), "No blob type");
    assert_eq!(BlobError::InvalidBlobType.message(), "Invalid blob type");
}

#[test]
fn make_sequenced_blob_intent_fields() {
    let response = LightNodeV1::make_sequenced_blob_intent(vec![1, 2, 3], 17).unwrap();
    match response.blob_type {
        Some(BlobType::SequencedBlobIntent(blob)) => {
            assert_eq!(blob.data, vec![1, 2, 3]);
            assert_eq!(blob.blob_id, "");
            assert_eq!(blob.height, 17);
            assert_eq!(blob.timestamp, 0);
        }
        _ => panic!("the receipt is no intent"),
    }
}

#[test]
fn make_intents_one_for_each_payload() {
    let blobs = vec![BlobWrite { data: vec![1] }, BlobWrite { data: vec![2, 3] }];
    let intents = LightNodeV1::make_intents(blobs, 5);
    assert_eq!(intents.len(), 2);
    let data: Vec<Vec<u8>> = intents
        .into_iter()
        .map(|intent| match intent.blob_type {
            Some(BlobType::SequencedBlobIntent(blob)) => {
                assert_eq!(blob.height, 5);
                blob.data
            }
            _ => panic!("the receipt is no intent"),
        })
        .collect();
    assert_eq!(data, vec![vec![1], vec![2, 3]]);
    assert!(LightNodeV1::make_intents(Vec::new(), 5).is_empty());
}

#[test]
fn decode_transactions_reads_json_arrays_of_bytes() {
    let blobs = vec![
        BlobWrite { data: b"[1,2,3]".to_vec() },
        BlobWrite { data: b" [ ] ".to_vec() },
        BlobWrite { data: b"[255, 0]".to_vec() },
    ];
    let transactions = LightNodeV1::decode_transactions(&blobs).unwrap();
    let data: Vec<Vec<u8>> = transactions.iter().map(|t| t.data().clone()).collect();
    assert_eq!(data, vec![vec![1, 2, 3], vec![], vec![255, 0]]);
    assert!(LightNodeV1::decode_transactions(&Vec::new()).unwrap().is_empty());
}

#[test]
fn decode_transactions_refuses_the_request_on_one_bad_payload() {
    for bad in [&b"[1,2"[..], &b"[256]"[..], &b"{}"[..], &b""[..], &b"[1] x"[..]] {
        let blobs = vec![BlobWrite { data: b"[1]".to_vec() }, BlobWrite { data: bad.to_vec() }];
        match LightNodeV1::decode_transactions(&blobs) {
            Err(SequencerError::Internal(text)) => assert!(!text.is_empty()),
            Ok(_) => panic!("a payload that is no array of bytes was accepted"),
        }
    }
}

#[test]
fn wrapped_block_carries_the_commitment_of_its_blob() {
    let wrapped =
        WrappedBlock::try_new(block_of(vec![b"first".to_vec()]), namespace(b"movement06")).unwrap();
    let expected = celestia_types::Blob::new(
        celestia_types::nmt::Namespace::from_raw(&namespace(b"movement06")).unwrap(),
        wrapped.blob().data.clone(),
        None,
    )
    .unwrap();
    assert_eq!(&wrapped.blob().commitment, expected.commitment.hash());
    assert_ne!(wrapped.blob().commitment, [0u8; 32]);
    let blobs = LightNodeV1::blobs_of(&vec![wrapped]);
    assert_eq!(&blobs[0].commitment, expected.commitment.hash());
}

#[test]
fn wrapped_block_needs_a_namespace() {
    for bad in [Vec::new(), b"ns".to_vec(), vec![1u8; 29], vec![0u8; 30]] {
        match WrappedBlock::try_new(block_of(vec![b"a".to_vec()]), bad) {
            Err(WrapError::Blob(text)) => assert!(!text.is_empty()),
            other => panic!("a namespace that is none was taken: {:?}", other.map(|_| ())),
        }
    }
    let node = LightNodeV1::new(b"none".to_vec(), 1000);
    assert!(matches!(
        node.wrap_blocks(vec![block_of(vec![b"a".to_vec()])]),
        Err(WrapError::Blob(_))
    ));
}

#[test]
fn wrap_blocks_of_no_blocks_is_no_wrapped_blocks() {
    let node = LightNodeV1::new(namespace(b"movement09"), 1000);
    assert!(node.wrap_blocks(Vec::new()).unwrap().is_empty());
    let unnamed = LightNodeV1::new(b"none".to_vec(), 1000);
    assert!(unnamed.wrap_blocks(Vec::new()).unwrap().is_empty());
}

#[test]
fn wrap_blocks_stops_at_the_first_block_it_cannot_wrap() {
    let node = LightNodeV1::new(b"none".to_vec(), 1000);
    let blocks = vec![block_of(vec![b"a".to_vec()]), block_of(vec![b"b".to_vec()])];
    assert!(matches!(node.wrap_blocks(blocks), Err(WrapError::Blob(_))));
}

#[test]
fn from_frame_wraps_the_block_with_its_compressed_bytes() {
    let block = block_of(vec![b"a".to_vec(), b"bc".to_vec()]);
    let id = block.id().0;
    let frame = zstd::encode_all(block.encode().unwrap().as_slice(), 0).unwrap();
    let wrapped = WrappedBlock::from_frame(block, namespace(b"movement10"), frame.clone()).unwrap();
    assert_eq!(wrapped.block().id().0, id);
    assert_eq!(wrapped.blob().data, frame);
    assert_eq!(wrapped.blob().namespace, namespace(b"movement10"));
    let again = WrappedBlock::try_new(
        block_of(vec![b"a".to_vec(), b"bc".to_vec()]),
        namespace(b"movement10"),
    )
    .unwrap();
    assert_eq!(again.blob().data, wrapped.blob().data);
    assert_eq!(again.blob().commitment, wrapped.blob().commitment);
}

#[test]
fn from_frame_needs_a_namespace() {
    let block = block_of(vec![b"a".to_vec()]);
    let frame = zstd::encode_all(block.encode().unwrap().as_slice(), 0).unwrap();
    assert!(matches!(
        WrappedBlock::from_frame(block, b"none".to_vec(), frame),
        Err(WrapError::Blob(_))
    ));
}

#[test]
fn wrapped_block_splits_wherever_its_block_can_be_cut() {
    let block = block_of(vec![b"a".to_vec(), b"b".to_vec(), b"c".to_vec()]);
    for factor in 1..=3usize {
        let wrapped = WrappedBlock::try_new(
            block_of(vec![b"a".to_vec(), b"b".to_vec(), b"c".to_vec()]),
            namespace(b"movement11"),
        )
        .unwrap();
        let parts = wrapped.split(factor).unwrap();
        assert_eq!(parts.len(), factor);
        let joined: Vec<Vec<u8>> = parts.iter().flat_map(|p| payloads_of(p.block())).collect();
        assert_eq!(joined, payloads_of(&block));
    }
    for factor in [0usize, 4] {
        let wrapped = WrappedBlock::try_new(
            block_of(vec![b"a".to_vec(), b"b".to_vec(), b"c".to_vec()]),
            namespace(b"movement11"),
        )
        .unwrap();
        let whole = wrapped.split(factor).unwrap_err();
        assert_eq!(whole.block().id().0, block.id().0);
    }
}

fn three_groups(tag: &[u8; 10]) -> Vec<GroupingOutcome<WrappedBlock>> {
    (0..3u8)
        .map(|i| {
            let wrapped = WrappedBlock::try_new(block_of(vec![vec![i]]), namespace(tag)).unwrap();
            GroupingOutcome::new_apply(vec![wrapped])
        })
        .collect()
}

#[test]
fn round_offers_group_after_group_while_the_store_takes_them() {
    let mut round = Round::new(three_groups(b"movement12"));
    assert!(round.pending().is_none());
    let mut offered: Vec<Vec<u8>> = Vec::new();
    while round.next() {
        // a second look changes nothing
        assert!(round.next());
        let blocks = round.pending().unwrap();
        assert_eq!(blocks.len(), 1);
        offered.extend(payloads_of(blocks[0].block()));
        round.on_submitted(true);
        assert!(round.pending().is_none());
    }
    assert_eq!(offered, vec![vec![0u8], vec![1u8], vec![2u8]]);
    let (outcomes, done) = round.finish();
    assert!(done);
    assert_eq!(outcomes.len(), 3);
    assert!(outcomes.iter().all(|outcome| outcome.0.len() == 1 && outcome.all_succeeded()));
}

#[test]
fn round_holds_back_every_group_behind_a_refusal() {
    let mut round = Round::new(three_groups(b"movement13"));
    assert!(round.next());
    round.on_submitted(true);
    assert!(round.next());
    assert_eq!(payloads_of(round.pending().unwrap()[0].block()), vec![vec![1u8]]);
    round.on_submitted(false);
    // the third group never goes to the store
    assert!(!round.next());
    assert!(round.pending().is_none());
    let (outcomes, done) = round.finish();
    assert!(!done);
    assert_eq!(outcomes.len(), 3);
    assert!(matches!(outcomes[0].0[0], ElementalOutcome::Success));
    match &outcomes[1].0[0] {
        ElementalOutcome::Apply(block) => assert_eq!(payloads_of(block.block()), vec![vec![1u8]]),
        _ => panic!("the refused block is to apply again"),
    }
    match &outcomes[2].0[0] {
        ElementalOutcome::Failure(block) => assert_eq!(payloads_of(block.block()), vec![vec![2u8]]),
        _ => panic!("the block behind the refusal is held back"),
    }
}

#[test]
fn round_with_a_refused_first_group_holds_back_the_rest() {
    let mut round = Round::new(three_groups(b"movement14"));
    assert!(round.next());
    round.on_submitted(false);
    assert!(!round.next());
    let (outcomes, done) = round.finish();
    assert!(!done);
    assert!(matches!(outcomes[0].0[0], ElementalOutcome::Apply(_)));
    assert!(matches!(outcomes[1].0[0], ElementalOutcome::Failure(_)));
    assert!(matches!(outcomes[2].0[0], ElementalOutcome::Failure(_)));
}

#[test]
fn round_of_no_groups_is_done_at_once() {
    let mut round = Round::new(Vec::new());
    assert!(!round.next());
    // an answer that nothing waits for changes nothing
    round.on_submitted(false);
    assert!(!round.next());
    let (outcomes, done) = round.finish();
    assert!(outcomes.is_empty());
    assert!(done);
}

#[test]
fn round_settles_a_group_that_carries_nothing() {
    let groups: Vec<GroupingOutcome<WrappedBlock>> =
        vec![GroupingOutcome::new_all_success(2), GroupingOutcome::new_all_success(1)];
    let mut round = Round::new(groups);
    assert!(round.next());
    assert!(round.pending().unwrap().is_empty());
    round.on_submitted(true);
    assert!(round.next());
    round.on_submitted(true);
    assert!(!round.next());
    let (outcomes, done) = round.finish();
    assert!(done);
    assert_eq!(outcomes.iter().map(|outcome| outcome.0.len()).collect::<Vec<_>>(), vec![0, 0]);
}
