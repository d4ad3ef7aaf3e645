//! The decisions of the sequencer: how blocks are wrapped into blobs, how a
//! batch of blobs is offered to the store group by group, and how the write
//! path answers.

use crate::blob::Blob;
use crate::blob::BlobError;
use crate::blob::BlobResponse;
use crate::blob::BlobType;
use crate::blob::BlobWrite;
use crate::blob::NamespacedBlob;
use crate::block::cut_into;
use crate::block::cuttable;
use crate::block::joined;
use crate::block::lemma_one_cut;
use crate::block::lemma_parts_join;
use crate::block::views;
use crate::block::Block;
use crate::block::BlockError;
use crate::block::BlockView;
use crate::block::Transaction;
use crate::codec::celestia_commit;
use crate::codec::celestia_commitment;
use crate::codec::celestia_error_text;
use crate::codec::io_error_text;
use crate::codec::json_bytes;
use crate::codec::json_decode_bytes;
use crate::codec::json_error_text;
use crate::codec::zstd_compress;
use crate::codec::zstd_decompress;
use crate::codec::zstd_frame;
use crate::codec::zstd_plain;
use crate::grouping_heuristic::apply::ToApply;
use crate::grouping_heuristic::binpacking::BinpackingWeighted;
use crate::grouping_heuristic::binpacking::FirstFitBinpacking;
use crate::grouping_heuristic::drop_success::DropSuccess;
use crate::grouping_heuristic::lemma_originals_of_applied;
use crate::grouping_heuristic::originals;
use crate::grouping_heuristic::skip::SkipFor;
use crate::grouping_heuristic::splitting::split_pieces;
use crate::grouping_heuristic::splitting::Splitable;
use crate::grouping_heuristic::splitting::Splitting;
use crate::grouping_heuristic::stack::GroupingHeuristic;
use crate::grouping_heuristic::stack::GroupingHeuristicStack;
use crate::grouping_heuristic::ElementalOutcome;
use crate::grouping_heuristic::GroupingOutcome;
use vstd::prelude::*;

pub mod round;

verus! {

/// The largest blob, in bytes, that is offered to the store in one piece.
pub const MAX_BLOB_BYTES: usize = 1_700_000;

/// The number of parts that an item is cut into when a group was refused.
pub const SPLIT_FACTOR: usize = 2;

/// The number of rounds that pass before refused items are cut.
pub const ROUNDS_BEFORE_SPLITTING: usize = 1;

/// Why a block could not be wrapped.
#[derive(Debug)]
pub enum WrapError {
    /// The block could not be serialized.
    Encoding(String),
    /// The serialized block could not be compressed.
    Compression(String),
    /// The namespace is none, or the compressed block makes no blob under it.
    Blob(String),
}

/// A block together with the blob that stores it: the serialized block,
/// compressed, under a namespace.
#[derive(Debug)]
pub struct WrappedBlock {
    block: Block,
    blob: NamespacedBlob,
}

/// A wrapped block as a mathematical value.
pub struct WrappedBlockView {
    /// The block.
    pub block: BlockView,
    /// The namespace of the blob.
    pub namespace: Seq<u8>,
    /// The payload of the blob.
    pub data: Seq<u8>,
    /// The hash of the share commitment of the blob.
    pub commitment: Seq<u8>,
}

impl WrappedBlockView {
    /// Whether the blob is the compressed serialized block, decompresses to
    /// it, and carries the commitment to it under its namespace.
    pub open spec fn consistent(self) -> bool {
        &&& frame_of(self.block) == Some(self.data)
        &&& zstd_plain(self.data) == Some(self.block.encoding())
        &&& celestia_commitment(self.namespace, self.data) == Some(self.commitment)
    }
}

/// The serialized block, compressed, if the block serializes and what it
/// serializes to compresses.
pub open spec fn frame_of(block: BlockView) -> Option<Seq<u8>> {
    if block.encodable() {
        zstd_frame(block.encoding())
    } else {
        None
    }
}

/// Whether a block can be wrapped under a namespace: it serializes, what it
/// serializes to compresses, and the compressed block makes a blob under the
/// namespace.
pub open spec fn wraps(block: BlockView, namespace: Seq<u8>) -> bool {
    frame_of(block) matches Some(frame) && celestia_commitment(namespace, frame) is Some
}

/// Whether `error` says at which step wrapping a block under a namespace
/// stops: at serializing; at compressing what it serializes to; or at making
/// a blob of the compressed block.
pub open spec fn refused_as(block: BlockView, namespace: Seq<u8>, error: WrapError) -> bool {
    match error {
        WrapError::Encoding(_) => !block.encodable(),
        WrapError::Compression(_) => block.encodable() && frame_of(block) is None,
        WrapError::Blob(_) => frame_of(block) matches Some(frame) && celestia_commitment(
            namespace,
            frame,
        ) is None,
    }
}

/// Whether every one of some blocks can be wrapped under a namespace.
pub open spec fn all_wrap(blocks: Seq<BlockView>, namespace: Seq<u8>) -> bool {
    forall|i: int| 0 <= i < blocks.len() ==> wraps(#[trigger] blocks[i], namespace)
}

/// Whether block `at` is the first of some blocks that cannot be wrapped
/// under a namespace, and `error` says at which step wrapping it stops.
pub open spec fn first_refused_as(
    blocks: Seq<BlockView>,
    namespace: Seq<u8>,
    at: int,
    error: WrapError,
) -> bool {
    &&& 0 <= at < blocks.len()
    &&& all_wrap(blocks.take(at), namespace)
    &&& refused_as(blocks[at], namespace, error)
}

impl View for WrappedBlock {
    type V = WrappedBlockView;

    closed spec fn view(&self) -> WrappedBlockView {
        WrappedBlockView {
            block: self.block@,
            namespace: self.blob.namespace@,
            data: self.blob.data@,
            commitment: self.blob.commitment@,
        }
    }
}

/// Wrapped blocks as mathematical values.
pub open spec fn wrapped_views(blocks: Seq<WrappedBlock>) -> Seq<WrappedBlockView> {
    blocks.map_values(|block: WrappedBlock| block@)
}

/// The blocks inside some wrapped blocks.
pub open spec fn unwrapped(blocks: Seq<WrappedBlockView>) -> Seq<BlockView> {
    blocks.map_values(|block: WrappedBlockView| block.block)
}

fn copy_bytes(bytes: &Vec<u8>) -> (r: Vec<u8>)
    ensures
        r@ == bytes@,
{
    let copy = bytes.clone();
    proof {
        assert(copy@ =~= bytes@);
    }
    copy
}

impl WrappedBlock {
    #[verifier::type_invariant]
    spec fn blob_holds_block(&self) -> bool {
        &&& frame_of(self.block@) == Some(self.blob.data@)
        &&& zstd_plain(self.blob.data@) == Some(self.block@.encoding())
        &&& celestia_commitment(self.blob.namespace@, self.blob.data@) == Some(
            self.blob.commitment@,
        )
    }

    /// Serializes and compresses the block and makes a blob of the result under
    /// the namespace. This succeeds on the blocks that can be wrapped under the
    /// namespace, and on no others: the wrapped block then holds the block and
    /// the namespace as given, and its blob is the compressed serialized
    /// block. Otherwise the error says at which step wrapping stopped.
    pub fn try_new(block: Block, namespace: Vec<u8>) -> (r: Result<Self, WrapError>)
        ensures
            r is Ok <==> wraps(block@, namespace@),
            r matches Ok(wrapped) ==> {
                &&& wrapped@.block == block@
                &&& wrapped@.namespace == namespace@
                &&& wrapped@.consistent()
            },
            r matches Err(error) ==> refused_as(block@, namespace@, error),
    {
        let block_bytes = match block.encode() {
            Ok(bytes) => bytes,
            Err(error) => {
                return Err(
                    match error {
                        BlockError::Encoding(text) => WrapError::Encoding(text),
                        BlockError::IdMismatch => WrapError::Encoding(String::new()),
                    },
                );
            },
        };
        let compressed_block_bytes = match zstd_compress(block_bytes.as_slice()) {
            Ok(bytes) => bytes,
            Err(error) => {
                return Err(WrapError::Compression(io_error_text(&error)));
            },
        };
        WrappedBlock::from_frame(block, namespace, compressed_block_bytes)
    }

    /// Makes a blob of a compressed serialized block under the namespace and
    /// wraps the block with it. This succeeds where the compressed block makes
    /// a blob under the namespace, and nowhere else: the wrapped block then
    /// holds the block and the namespace as given, and its blob holds the
    /// frame.
    pub fn from_frame(block: Block, namespace: Vec<u8>, frame: Vec<u8>) -> (r: Result<
        Self,
        WrapError,
    >)
        requires
            frame_of(block@) == Some(frame@),
            zstd_plain(frame@) == Some(block@.encoding()),
        ensures
            r is Ok <==> celestia_commitment(namespace@, frame@) is Some,
            r matches Ok(wrapped) ==> {
                &&& wrapped@.block == block@
                &&& wrapped@.namespace == namespace@
                &&& wrapped@.data == frame@
                &&& wrapped@.consistent()
            },
            r matches Err(error) ==> error is Blob,
    {
        let commitment = match celestia_commit(namespace.as_slice(), frame.as_slice()) {
            Ok(commitment) => commitment,
            Err(error) => {
                return Err(WrapError::Blob(celestia_error_text(&error)));
            },
        };
        let blob = NamespacedBlob { namespace, data: frame, commitment };
        Ok(WrappedBlock { block, blob })
    }

    /// The block.
    pub fn block(&self) -> (r: &Block)
        ensures
            r@ == self@.block,
            self@.consistent(),
    {
        proof {
            use_type_invariant(self);
        }
        &self.block
    }

    /// The blob.
    pub fn blob(&self) -> (r: &NamespacedBlob)
        ensures
            r.namespace@ == self@.namespace,
            r.data@ == self@.data,
            r.commitment@ == self@.commitment,
            self@.consistent(),
    {
        proof {
            use_type_invariant(self);
        }
        &self.blob
    }

    /// Decompresses the blob, which gives the serialized block.
    pub fn decompressed(&self) -> (r: Result<Vec<u8>, WrapError>)
        ensures
            r matches Ok(bytes) && bytes@ == self@.block.encoding(),
    {
        proof {
            use_type_invariant(self);
        }
        match zstd_decompress(self.blob.data.as_slice()) {
            Ok(bytes) => Ok(bytes),
            Err(error) => Err(WrapError::Compression(io_error_text(&error))),
        }
    }

    /// Wraps each of some blocks under the namespace of this one, all or none.
    fn wrap_parts(&self, parts: Vec<Block>) -> (r: Option<Vec<WrappedBlock>>)
        ensures
            r is Some <==> all_wrap(views(parts@), self@.namespace),
            r matches Some(wrapped) ==> {
                &&& unwrapped(wrapped_views(wrapped@)) == views(parts@)
                &&& forall|i: int|
                    0 <= i < wrapped@.len() ==> (#[trigger] wrapped@[i])@.namespace
                        == self@.namespace && wrapped@[i]@.consistent()
            },
    {
        match wrap_all(&self.blob.namespace, parts) {
            Ok(wrapped) => Some(wrapped),
            Err(_) => None,
        }
    }
}

/// Wraps blocks under a namespace, in order, up to the first that cannot be
/// wrapped. This succeeds where every block can be wrapped, and nowhere else:
/// each wrapped block then holds the block at its place. Otherwise the error
/// is that of the first block that cannot be wrapped.
fn wrap_all(namespace: &Vec<u8>, blocks: Vec<Block>) -> (r: Result<Vec<WrappedBlock>, WrapError>)
    ensures
        r is Ok <==> all_wrap(views(blocks@), namespace@),
        r matches Ok(wrapped) ==> {
            &&& unwrapped(wrapped_views(wrapped@)) == views(blocks@)
            &&& forall|i: int|
                0 <= i < wrapped@.len() ==> (#[trigger] wrapped@[i])@.namespace == namespace@
                    && wrapped@[i]@.consistent()
        },
        r matches Err(error) ==> exists|at: int| #[trigger]
            first_refused_as(views(blocks@), namespace@, at, error),
{
    let ghost given = blocks@;
    let mut wrapped: Vec<WrappedBlock> = Vec::new();
    for block in it: blocks.into_iter()
        invariant
            it.seq() == given,
            unwrapped(wrapped_views(wrapped@)) == views(given.take(it.index())),
            forall|i: int|
                0 <= i < wrapped@.len() ==> (#[trigger] wrapped@[i])@.namespace == namespace@
                    && wrapped@[i]@.consistent(),
            all_wrap(views(given).take(it.index()), namespace@),
    {
        let ghost before = wrapped@;
        let ghost at = it.index();
        proof {
            assert(views(given)[at] == block@);
        }
        match WrappedBlock::try_new(block, copy_bytes(namespace)) {
            Ok(one) => {
                wrapped.push(one);
                proof {
                    assert(unwrapped(wrapped_views(wrapped@)) =~= unwrapped(
                        wrapped_views(before),
                    ).push(block@));
                    assert(views(given.take(at + 1)) =~= views(given.take(at)).push(block@));
                    assert(views(given).take(at + 1) =~= views(given).take(at).push(block@));
                }
            },
            Err(error) => {
                proof {
                    assert(first_refused_as(views(given), namespace@, at, error));
                    assert(!wraps(views(given)[at], namespace@));
                }
                return Err(error);
            },
        }
    }
    proof {
        assert(given.take(given.len() as int) =~= given);
        assert(views(given).take(given.len() as int) =~= views(given));
    }
    Ok(wrapped)
}

impl Splitable for WrappedBlock {
    /// A wrapped block can be cut where its block can and each part of the
    /// block can be wrapped under the namespace.
    open spec fn divisible(&self, factor: usize) -> bool {
        &&& cuttable(self@.block, factor)
        &&& forall|parts: Seq<BlockView>| #[trigger]
            cut_into(self@.block, factor, parts) ==> all_wrap(parts, self@.namespace)
    }

    /// The parts of a wrapped block wrap the parts of its block, under the
    /// same namespace, each with a blob of its own.
    open spec fn splits_into(&self, factor: usize, parts: Vec<Self>) -> bool {
        &&& cut_into(self@.block, factor, unwrapped(wrapped_views(parts@)))
        &&& forall|i: int|
            0 <= i < parts@.len() ==> {
                &&& (#[trigger] parts@[i])@.namespace == self@.namespace
                &&& parts@[i]@.consistent()
            }
    }

    fn split(self, factor: usize) -> (r: Result<Vec<Self>, Self>) {
        let parts = match self.block.parts(factor) {
            Some(parts) => parts,
            None => {
                return Err(self);
            },
        };
        let ghost cut = views(parts@);
        match self.wrap_parts(parts) {
            Some(wrapped) => {
                proof {
                    assert forall|other: Seq<BlockView>| #[trigger]
                        cut_into(self@.block, factor, other) implies all_wrap(
                        other,
                        self@.namespace,
                    ) by {
                        lemma_one_cut(self@.block, factor, cut, other);
                    }
                }
                Ok(wrapped)
            },
            None => Err(self),
        }
    }
}

/// Splitting cuts every wrapped block whose block can be cut and whose parts
/// can be wrapped: in the place of such a block to apply stand as many
/// wrapped parts as the factor says, each to apply, under the namespace of
/// the block, and the transactions of their blocks joined in order are the
/// transactions of the block. Any other wrapped block to apply comes back
/// whole, as a failure.
pub proof fn lemma_split_wrapped_block(
    block: WrappedBlock,
    factor: usize,
    pieces: Seq<ElementalOutcome<WrappedBlock>>,
)
    requires
        split_pieces(ElementalOutcome::Apply(block), factor, pieces),
    ensures
        block.divisible(factor) ==> {
            &&& pieces.len() == factor
            &&& forall|i: int| 0 <= i < pieces.len() ==> #[trigger] pieces[i] is Apply
            &&& forall|i: int|
                0 <= i < originals(pieces).len() ==> (#[trigger] originals(pieces)[i])@.namespace
                    == block@.namespace
            &&& joined(unwrapped(wrapped_views(originals(pieces)))) == block@.block.transactions
        },
        !block.divisible(factor) ==> pieces == seq![ElementalOutcome::Failure(block)],
{
    if block.divisible(factor) {
        let parts = choose|parts: Vec<WrappedBlock>| #[trigger]
            block.splits_into(factor, parts) && pieces == parts@.map_values(
                |part: WrappedBlock| ElementalOutcome::Apply(part),
            );
        lemma_originals_of_applied(parts@);
        lemma_parts_join(block@.block, factor, unwrapped(wrapped_views(parts@)));
    }
}

impl BinpackingWeighted for WrappedBlock {
    /// A wrapped block weighs as many bytes as its blob holds.
    open spec fn weight_spec(&self) -> usize {
        self@.data.len() as usize
    }

    fn weight(&self) -> (w: usize) {
        self.blob.data.len()
    }
}

fn intent_for(data: Vec<u8>, height: u64) -> (r: BlobResponse)
    ensures
        r.blob_type matches Some(BlobType::SequencedBlobIntent(blob)) && blob.data@ == data@
            && blob.height == height && blob.timestamp == 0 && blob.blob_id@
            == Seq::<char>::empty(),
{
    BlobResponse {
        blob_type: Some(
            BlobType::SequencedBlobIntent(
                Blob { data, blob_id: String::new(), height, timestamp: 0 },
            ),
        ),
    }
}

/// Why the write path refused a request.
#[derive(Debug)]
pub enum SequencerError {
    /// The request could not be served; the text says why.
    Internal(String),
}

/// What is to be done with one group of a round.
pub enum GroupPlan {
    /// Nothing is offered to the store; the group comes back with this outcome.
    Settled(GroupingOutcome<WrappedBlock>),
    /// These blocks are offered to the store in one submission.
    Submit(Vec<WrappedBlock>),
}

/// What the sequencer in sequencer mode reads of its setup: the namespace
/// that its blobs are stored under and the time that building a block may
/// take.
pub struct LightNodeV1 {
    namespace: Vec<u8>,
    building_time_ms: u64,
}

/// The blob that an answer is turned into when it is handed on as a sequenced
/// block, if it may be handed on.
pub open spec fn sequenced_block_of(blob_type: Option<BlobType>) -> Option<Blob> {
    match blob_type {
        Some(BlobType::PassedThroughBlob(blob)) => Some(blob),
        Some(BlobType::SequencedBlobBlock(blob)) => Some(blob),
        _ => None,
    }
}

/// The time that is left of a budget after some has elapsed, if any is.
pub open spec fn time_left(budget_ms: u64, elapsed_ms: u64) -> Option<u64> {
    if elapsed_ms <= budget_ms {
        Some((budget_ms - elapsed_ms) as u64)
    } else {
        None
    }
}

/// Whether group `index` of a round is held back, given the mark that the
/// groups before it left: the first group never is, and any other is where a
/// group before it was refused.
pub open spec fn held_back(index: usize, flag: bool) -> bool {
    index != 0 && flag
}

/// The mark that group `index` of a round leaves, given the mark before it and
/// whether the store takes what the group submits: set where the group was
/// held back or refused.
pub open spec fn mark_left(index: usize, flag: bool, taken: bool) -> bool {
    held_back(index, flag) || !taken
}

/// The mark before group `index` of a round in which the store takes the
/// submission of each group or refuses it as `taken` says.
pub open spec fn mark_before(taken: Seq<bool>, index: usize) -> bool
    decreases index,
{
    if index == 0 {
        false
    } else {
        let before = (index - 1) as usize;
        mark_left(before, mark_before(taken, before), taken[before as int])
    }
}

/// The first refusal of a round is sticky: no group up to the first that the
/// store refuses is held back, and every group after it is.
pub proof fn lemma_first_refusal_is_sticky(taken: Seq<bool>, first: usize, index: usize)
    requires
        first < taken.len(),
        index <= taken.len(),
        !taken[first as int],
        forall|i: int| 0 <= i < first ==> taken[i],
    ensures
        index <= first ==> !held_back(index, mark_before(taken, index)),
        index > first ==> held_back(index, mark_before(taken, index)),
    decreases index,
{
    if index > 0 {
        lemma_first_refusal_is_sticky(taken, first, (index - 1) as usize);
    }
}

/// The heuristics of a submission: drop what succeeded, offer failures again,
/// cut refused items in two from the second round on, and pack groups that fit
/// the largest blob.
pub open spec fn publishing_heuristics() -> Seq<GroupingHeuristic> {
    seq![
        GroupingHeuristic::DropSuccess(DropSuccess),
        GroupingHeuristic::ToApply(ToApply),
        GroupingHeuristic::SkipFor(
            SkipFor {
                skip: ROUNDS_BEFORE_SPLITTING,
                inner: Box::new(GroupingHeuristic::Splitting(Splitting { factor: SPLIT_FACTOR })),
            },
        ),
        GroupingHeuristic::FirstFitBinpacking(FirstFitBinpacking { capacity: MAX_BLOB_BYTES }),
    ]
}

impl LightNodeV1 {
    /// The sequencer's setup.
    pub fn new(namespace: Vec<u8>, building_time_ms: u64) -> (r: Self)
        ensures
            r.namespace_spec() == namespace@,
            r.building_time_spec() == building_time_ms,
    {
        LightNodeV1 { namespace, building_time_ms }
    }

    /// The namespace that blobs are stored under.
    pub closed spec fn namespace_spec(&self) -> Seq<u8> {
        self.namespace@
    }

    /// The time that building a block may take, in milliseconds.
    pub closed spec fn building_time_spec(&self) -> u64 {
        self.building_time_ms
    }

    /// The time for which the publisher collects blocks before it submits
    /// them: half the time that building a block may take.
    pub fn read_budget_ms(&self) -> (r: u64)
        ensures
            r == self.building_time_spec() / 2,
    {
        self.building_time_ms / 2
    }

    /// How long the publisher may still wait for a block when `elapsed_ms` of
    /// its budget have passed, or nothing when the budget is spent.
    pub fn remaining_wait(&self, elapsed_ms: u64) -> (r: Option<u64>)
        ensures
            r == time_left((self.building_time_spec() / 2) as u64, elapsed_ms),
    {
        let budget = self.read_budget_ms();
        if elapsed_ms <= budget {
            Some(budget - elapsed_ms)
        } else {
            None
        }
    }

    /// Wraps blocks for submission under the sequencer's namespace, in order,
    /// up to the first that cannot be wrapped. This succeeds where every block
    /// can be wrapped under the namespace, and nowhere else: each wrapped
    /// block then holds the block at its place. Otherwise the error is that of
    /// the first block that cannot be wrapped, and says at which step wrapping
    /// it stopped.
    pub fn wrap_blocks(&self, blocks: Vec<Block>) -> (r: Result<Vec<WrappedBlock>, WrapError>)
        ensures
            r is Ok <==> all_wrap(views(blocks@), self.namespace_spec()),
            r matches Ok(wrapped) ==> {
                &&& unwrapped(wrapped_views(wrapped@)) == views(blocks@)
                &&& forall|i: int|
                    0 <= i < wrapped@.len() ==> (#[trigger] wrapped@[i])@.namespace
                        == self.namespace_spec() && wrapped@[i]@.consistent()
            },
            r matches Err(error) ==> exists|at: int| #[trigger]
                first_refused_as(views(blocks@), self.namespace_spec(), at, error),
    {
        wrap_all(&self.namespace, blocks)
    }

    /// The stack of heuristics that a submission runs round after round.
    pub fn publishing_stack() -> (r: GroupingHeuristicStack)
        ensures
            r.heuristics@ == publishing_heuristics(),
    {
        let mut heuristics: Vec<GroupingHeuristic> = Vec::new();
        heuristics.push(DropSuccess::boxed());
        heuristics.push(ToApply::boxed());
        heuristics.push(SkipFor::boxed(ROUNDS_BEFORE_SPLITTING, Splitting::boxed(SPLIT_FACTOR)));
        heuristics.push(FirstFitBinpacking::boxed(MAX_BLOB_BYTES));
        proof {
            assert(heuristics@ =~= publishing_heuristics());
        }
        GroupingHeuristicStack::new(heuristics)
    }

    /// Decides what to do with group `index` of a round, given whether an
    /// earlier group of the round was refused. The first group of a round
    /// clears that mark. With the mark set, nothing is submitted and the items
    /// of the group that were to apply come back as failures; otherwise the
    /// items that the group carries are submitted together. The second result
    /// is the mark as it stands before the submission.
    pub fn plan_group(index: usize, grouping: GroupingOutcome<WrappedBlock>, flag: bool) -> (r: (
        GroupPlan,
        bool,
    ))
        ensures
            r.1 == held_back(index, flag),
            r.1 ==> (r.0 matches GroupPlan::Settled(outcome) && outcome@ == grouping@.map_values(
                |item: ElementalOutcome<WrappedBlock>| item.failed(),
            )),
            !r.1 ==> (r.0 matches GroupPlan::Submit(blocks) && blocks@ == originals(grouping@)),
    {
        let flag = if index == 0 {
            false
        } else {
            flag
        };
        if flag {
            (GroupPlan::Settled(grouping.to_failures()), flag)
        } else {
            (GroupPlan::Submit(grouping.into_original()), flag)
        }
    }

    /// Decides what becomes of a group after its submission. Where the store
    /// took the blocks, each is a success and the mark stays clear; where it
    /// refused them, each is to apply again and the mark is set.
    pub fn settle_group(blocks: Vec<WrappedBlock>, submitted: bool) -> (r: (
        GroupingOutcome<WrappedBlock>,
        bool,
    ))
        ensures
            r.1 == !submitted,
            submitted ==> r.0@ == Seq::new(
                blocks@.len(),
                |i: int| ElementalOutcome::<WrappedBlock>::Success,
            ),
            !submitted ==> r.0@ == blocks@.map_values(
                |block: WrappedBlock| ElementalOutcome::Apply(block),
            ),
    {
        if submitted {
            (GroupingOutcome::new_all_success(blocks.len()), false)
        } else {
            (GroupingOutcome::new_apply(blocks), true)
        }
    }

    /// The blobs of some wrapped blocks, in order, as they go to the store.
    pub fn blobs_of(blocks: &Vec<WrappedBlock>) -> (r: Vec<NamespacedBlob>)
        ensures
            r@.len() == blocks@.len(),
            forall|i: int|
                0 <= i < r@.len() ==> (#[trigger] r@[i]).namespace@ == blocks@[i]@.namespace
                    && r@[i].data@ == blocks@[i]@.data && r@[i].commitment@
                    == blocks@[i]@.commitment,
    {
        let mut blobs: Vec<NamespacedBlob> = Vec::new();
        let mut i: usize = 0;
        while i < blocks.len()
            invariant
                i <= blocks.len(),
                blobs@.len() == i,
                forall|j: int|
                    0 <= j < i ==> (#[trigger] blobs@[j]).namespace@ == blocks@[j]@.namespace
                        && blobs@[j].data@ == blocks@[j]@.data && blobs@[j].commitment@
                        == blocks@[j]@.commitment,
            decreases blocks.len() - i,
        {
            let blob = blocks[i].blob();
            blobs.push(
                NamespacedBlob {
                    namespace: copy_bytes(&blob.namespace),
                    data: copy_bytes(&blob.data),
                    commitment: blob.commitment,
                },
            );
            i += 1;
        }
        blobs
    }

    /// Hands an answer on as a sequenced block: a blob that was passed through
    /// or that is a sequenced block already becomes a sequenced block; an
    /// answer without a blob, or with an intent, is refused.
    pub fn to_sequenced_blob_block(blob_response: BlobResponse) -> (r: Result<
        BlobResponse,
        BlobError,
    >)
        ensures
            match sequenced_block_of(blob_response.blob_type) {
                Some(blob) => r matches Ok(response) && response.blob_type == Some(
                    BlobType::SequencedBlobBlock(blob),
                ),
                None => r matches Err(error) && error == if blob_response.blob_type is None {
                    BlobError::NoBlobType
                } else {
                    BlobError::InvalidBlobType
                },
            },
    {
        let blob_type = match blob_response.blob_type {
            Some(blob_type) => blob_type,
            None => {
                return Err(BlobError::NoBlobType);
            },
        };
        let sequenced_block = match blob_type {
            BlobType::PassedThroughBlob(blob) => BlobType::SequencedBlobBlock(blob),
            BlobType::SequencedBlobBlock(blob) => BlobType::SequencedBlobBlock(blob),
            _ => {
                return Err(BlobError::InvalidBlobType);
            },
        };
        Ok(BlobResponse { blob_type: Some(sequenced_block) })
    }

    /// The receipt for a payload that was accepted at `height`: an intent with
    /// that payload and height, no identifier and no timestamp.
    pub fn make_sequenced_blob_intent(data: Vec<u8>, height: u64) -> (r: Result<
        BlobResponse,
        BlobError,
    >)
        ensures
            r matches Ok(response) && response.blob_type matches Some(
                BlobType::SequencedBlobIntent(blob),
            ) && blob.data@ == data@ && blob.height == height && blob.timestamp == 0
                && blob.blob_id@ == Seq::<char>::empty(),
    {
        Ok(intent_for(data, height))
    }

    /// Reads the transaction that each payload of a write request holds. This
    /// succeeds where every payload is a JSON array of bytes, and gives those
    /// bytes as the transactions, in the order of the payloads; otherwise the
    /// request is refused.
    pub fn decode_transactions(blobs: &Vec<BlobWrite>) -> (r: Result<
        Vec<Transaction>,
        SequencerError,
    >)
        ensures
            r is Ok <==> forall|i: int|
                0 <= i < blobs@.len() ==> json_bytes((#[trigger] blobs@[i]).data@) is Some,
            r matches Ok(transactions) ==> {
                &&& transactions@.len() == blobs@.len()
                &&& forall|i: int|
                    0 <= i < blobs@.len() ==> json_bytes(blobs@[i].data@) == Some(
                        (#[trigger] transactions@[i])@,
                    )
            },
    {
        let mut transactions: Vec<Transaction> = Vec::new();
        let mut i: usize = 0;
        while i < blobs.len()
            invariant
                i <= blobs.len(),
                transactions@.len() == i,
                forall|j: int| 0 <= j < i ==> json_bytes((#[trigger] blobs@[j]).data@) is Some,
                forall|j: int|
                    0 <= j < i ==> json_bytes(blobs@[j].data@) == Some(
                        (#[trigger] transactions@[j])@,
                    ),
            decreases blobs.len() - i,
        {
            match json_decode_bytes(blobs[i].data.as_slice()) {
                Ok(data) => {
                    transactions.push(Transaction::new(data));
                },
                Err(error) => {
                    return Err(SequencerError::Internal(json_error_text(&error)));
                },
            }
            i += 1;
        }
        Ok(transactions)
    }

    /// The receipts for the payloads of a write request that was accepted at
    /// `height`, one for each payload, in order.
    pub fn make_intents(blobs: Vec<BlobWrite>, height: u64) -> (r: Vec<BlobResponse>)
        ensures
            r@.len() == blobs@.len(),
            forall|i: int|
                0 <= i < r@.len() ==> ((#[trigger] r@[i]).blob_type matches Some(
                    BlobType::SequencedBlobIntent(blob),
                ) && blob.data@ == blobs@[i].data@ && blob.height == height && blob.timestamp
                    == 0 && blob.blob_id@ == Seq::<char>::empty()),
    {
        let ghost given = blobs@;
        let mut intents: Vec<BlobResponse> = Vec::new();
        for blob in it: blobs.into_iter()
            invariant
                it.seq() == given,
                intents@.len() == it.index(),
                forall|i: int|
                    0 <= i < intents@.len() ==> ((#[trigger] intents@[i]).blob_type matches Some(
                        BlobType::SequencedBlobIntent(intent),
                    ) && intent.data@ == given[i].data@ && intent.height == height
                        && intent.timestamp == 0 && intent.blob_id@ == Seq::<char>::empty()),
        {
            intents.push(intent_for(blob.data, height));
        }
        intents
    }
}

} // verus!
