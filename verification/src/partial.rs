//! The decisions of the node driver: how transactions are gathered into write
//! batches, how a blob of the stream becomes a block to execute, and what a
//! settlement event makes the node do.

use crate::blob::Blob;
use crate::blob::BlobResponse;
use crate::blob::BlobType;
use crate::blob::BlobWrite;
use crate::block::payloads;
use crate::block::Block;
use crate::block::BlockError;
use crate::block::BlockView;
use crate::block::Id;
use crate::codec::io_error_text;
use crate::codec::sha256;
use crate::codec::sha256_digest;
use crate::codec::zstd_decompress;
use crate::codec::zstd_plain;
use vstd::prelude::*;

verus! {

/// The time, in milliseconds, for which one write batch gathers transactions.
pub const WRITE_WINDOW_MS: u64 = 100;

/// The time, in milliseconds, that one wait for a transaction may take.
pub const RECEIVE_TIMEOUT_MS: u64 = 100;

/// What a wait for the next transaction brought.
pub enum Received {
    /// A transaction, serialized.
    Transaction(Vec<u8>),
    /// The channel is closed.
    Closed,
    /// The wait timed out.
    TimedOut,
}

/// The transactions gathered for one write batch, and when gathering ends.
pub struct WriteWindow {
    end_time_ms: u64,
    transactions: Vec<BlobWrite>,
}

/// The payloads of some writes.
pub open spec fn written(writes: Seq<BlobWrite>) -> Seq<Seq<u8>> {
    writes.map_values(|write: BlobWrite| write.data@)
}

/// The payloads that a window holds after a wait that brought `received`: one
/// more where the wait brought a transaction, and the same otherwise.
pub open spec fn joined_by(gathered: Seq<Seq<u8>>, received: Received) -> Seq<Seq<u8>> {
    match received {
        Received::Transaction(data) => gathered.push(data@),
        _ => gathered,
    }
}

/// Whether a window that ends at `end_time_ms` waits again after a wait that
/// brought `received` at `now_ms`: it does after a transaction, unless its
/// time is over.
pub open spec fn waits_on(end_time_ms: u64, received: Received, now_ms: u64) -> bool {
    received is Transaction && now_ms <= end_time_ms
}

/// The payloads that a window holds when it stops waiting, if it held
/// `gathered` and its waits bring what `waits` says, each with the time at
/// which it came back: the window takes in one wait after the other, up to
/// the first after which it does not wait again.
pub open spec fn gathered_over(
    gathered: Seq<Seq<u8>>,
    end_time_ms: u64,
    waits: Seq<(Received, u64)>,
) -> Seq<Seq<u8>>
    decreases waits.len(),
{
    if waits.len() == 0 {
        gathered
    } else {
        let next = joined_by(gathered, waits[0].0);
        if waits_on(end_time_ms, waits[0].0, waits[0].1) {
            gathered_over(next, end_time_ms, waits.skip(1))
        } else {
            next
        }
    }
}

/// The batch that a window that holds `gathered` gives when it closes: nothing
/// where it holds nothing, and what it holds otherwise.
pub open spec fn batch_of(gathered: Seq<Seq<u8>>) -> Option<Seq<Seq<u8>>> {
    if gathered.len() == 0 {
        None
    } else {
        Some(gathered)
    }
}

/// The waits that bring some transactions, one each, at the times given with
/// them.
pub open spec fn arrivals(transactions: Seq<(Vec<u8>, u64)>) -> Seq<(Received, u64)> {
    transactions.map_values(
        |arrival: (Vec<u8>, u64)| (Received::Transaction(arrival.0), arrival.1),
    )
}

/// The payloads of some transactions that came in.
pub open spec fn arrived(transactions: Seq<(Vec<u8>, u64)>) -> Seq<Seq<u8>> {
    transactions.map_values(|arrival: (Vec<u8>, u64)| arrival.0@)
}

/// A window gathers what arrives in its time, in the order of arrival: where
/// transactions come in before the window ends and the next wait brings none,
/// the window then holds what it held before and behind that the payloads of
/// those transactions, in the order in which they came.
pub proof fn lemma_gathers_in_arrival_order(
    gathered: Seq<Seq<u8>>,
    end_time_ms: u64,
    transactions: Seq<(Vec<u8>, u64)>,
    last: (Received, u64),
)
    requires
        forall|i: int| 0 <= i < transactions.len() ==> (#[trigger] transactions[i]).1 <= end_time_ms,
        !(last.0 is Transaction),
    ensures
        gathered_over(gathered, end_time_ms, arrivals(transactions).push(last)) == gathered
            + arrived(transactions),
    decreases transactions.len(),
{
    let waits = arrivals(transactions).push(last);
    if transactions.len() == 0 {
        assert(gathered + arrived(transactions) =~= gathered);
        assert(waits[0] == last);
    } else {
        let rest = transactions.skip(1);
        let next = gathered.push(transactions[0].0@);
        assert(waits[0] == (Received::Transaction(transactions[0].0), transactions[0].1));
        assert(waits.skip(1) =~= arrivals(rest).push(last));
        assert forall|i: int| 0 <= i < rest.len() implies (#[trigger] rest[i]).1
            <= end_time_ms by {
            assert(rest[i] == transactions[i + 1]);
        }
        lemma_gathers_in_arrival_order(next, end_time_ms, rest, last);
        assert(next + arrived(rest) =~= gathered + arrived(transactions));
    }
}

/// The transactions that arrive in the time of one window are written as one
/// batch, in the order of arrival, and a window in which none arrives writes
/// nothing: where a fresh window takes in transactions that come before it
/// ends and then a wait that brings none, closing it gives nothing if there
/// was no transaction, and otherwise one batch of as many payloads as there
/// were transactions, each in its place.
pub proof fn lemma_one_batch_in_arrival_order(
    end_time_ms: u64,
    transactions: Seq<(Vec<u8>, u64)>,
    last: (Received, u64),
)
    requires
        forall|i: int| 0 <= i < transactions.len() ==> (#[trigger] transactions[i]).1 <= end_time_ms,
        !(last.0 is Transaction),
    ensures
        batch_of(
            gathered_over(Seq::empty(), end_time_ms, arrivals(transactions).push(last)),
        ) == if transactions.len() == 0 {
            None
        } else {
            Some(arrived(transactions))
        },
{
    lemma_gathers_in_arrival_order(Seq::empty(), end_time_ms, transactions, last);
    assert(Seq::<Seq<u8>>::empty() + arrived(transactions) =~= arrived(transactions));
}

impl WriteWindow {
    /// The payloads gathered so far, in order.
    pub closed spec fn gathered(&self) -> Seq<Seq<u8>> {
        written(self.transactions@)
    }

    /// The time after which no further transaction is waited for.
    pub closed spec fn end_time(&self) -> u64 {
        self.end_time_ms
    }

    /// Opens a window at `start_ms`. It ends after the time of one write
    /// window, or at the end of time.
    pub fn open(start_ms: u64) -> (r: Self)
        ensures
            r.gathered() == Seq::<Seq<u8>>::empty(),
            r.end_time() == if start_ms + WRITE_WINDOW_MS <= u64::MAX {
                (start_ms + WRITE_WINDOW_MS) as u64
            } else {
                u64::MAX
            },
    {
        let end_time_ms = if start_ms <= u64::MAX - WRITE_WINDOW_MS {
            start_ms + WRITE_WINDOW_MS
        } else {
            u64::MAX
        };
        let transactions: Vec<BlobWrite> = Vec::new();
        proof {
            assert(written(transactions@) =~= Seq::<Seq<u8>>::empty());
        }
        WriteWindow { end_time_ms, transactions }
    }

    /// Takes in what a wait brought at `now_ms` and says whether to wait
    /// again. A transaction joins the batch, and the window goes on unless its
    /// time is over; a timeout or a closed channel ends the window and leaves
    /// the batch as it is.
    pub fn on_received(&mut self, received: Received, now_ms: u64) -> (again: bool)
        ensures
            final(self).end_time() == old(self).end_time(),
            final(self).gathered() == joined_by(old(self).gathered(), received),
            again == waits_on(old(self).end_time(), received, now_ms),
    {
        match received {
            Received::Transaction(data) => {
                let ghost before = self.transactions@;
                self.transactions.push(BlobWrite { data });
                proof {
                    assert(written(self.transactions@) =~= written(before).push(data@));
                }
                now_ms <= self.end_time_ms
            },
            Received::Closed => false,
            Received::TimedOut => false,
        }
    }

    /// Closes the window. A window that gathered nothing gives nothing to
    /// write; any other gives its transactions, in order, as one batch.
    pub fn close(self) -> (r: Option<Vec<BlobWrite>>)
        ensures
            match batch_of(self.gathered()) {
                Some(gathered) => r matches Some(batch) && written(batch@) == gathered,
                None => r is None,
            },
    {
        if self.transactions.len() > 0 {
            Some(self.transactions)
        } else {
            None
        }
    }
}

/// One answer of the stream of blobs.
pub struct StreamReadResponse {
    /// The blob, if the answer holds one.
    pub blob: Option<BlobResponse>,
}

/// Why the node could not go on.
#[derive(Debug)]
pub enum DriverError {
    /// An answer of the stream holds no blob.
    NoBlob,
    /// An answer of the stream holds a blob of no kind.
    NoBlobType,
    /// An answer of the stream holds a blob that is no sequenced block.
    InvalidBlobType,
    /// A blob could not be decompressed.
    Compression(String),
    /// A blob does not hold a block.
    Block(BlockError),
}

impl DriverError {
    /// The error in words.
    pub open spec fn words(self) -> Seq<char> {
        match self {
            DriverError::NoBlob => "No blob in response"@,
            DriverError::NoBlobType => "No blob type in response"@,
            DriverError::InvalidBlobType => "Invalid blob type in response"@,
            DriverError::Compression(_) => "Blob is not compressed data"@,
            DriverError::Block(_) => "Blob holds no block"@,
        }
    }

    /// The error in words.
    pub fn message(&self) -> (r: &'static str)
        ensures
            r@ == self.words(),
    {
        match self {
            DriverError::NoBlob => "No blob in response",
            DriverError::NoBlobType => "No blob type in response",
            DriverError::InvalidBlobType => "Invalid blob type in response",
            DriverError::Compression(_) => "Blob is not compressed data",
            DriverError::Block(_) => "Blob holds no block",
        }
    }
}

/// The sequenced block that an answer of the stream holds, if it holds one.
pub open spec fn sequenced_blob(response: StreamReadResponse) -> Option<Blob> {
    match response.blob {
        Some(BlobResponse { blob_type: Some(BlobType::SequencedBlobBlock(blob)) }) => Some(blob),
        _ => None,
    }
}

/// The sequenced block of an answer of the stream; any other answer is
/// refused, with the reason.
pub fn sequenced_block(response: StreamReadResponse) -> (r: Result<Blob, DriverError>)
    ensures
        match sequenced_blob(response) {
            Some(blob) => r == Ok::<Blob, DriverError>(blob),
            None => r matches Err(error) && match response.blob {
                None => error is NoBlob,
                Some(BlobResponse { blob_type: None }) => error is NoBlobType,
                Some(_) => error is InvalidBlobType,
            },
        },
{
    let blob = match response.blob {
        Some(blob) => blob,
        None => {
            return Err(DriverError::NoBlob);
        },
    };
    let blob_type = match blob.blob_type {
        Some(blob_type) => blob_type,
        None => {
            return Err(DriverError::NoBlobType);
        },
    };
    match blob_type {
        BlobType::SequencedBlobBlock(blob) => Ok(blob),
        _ => Err(DriverError::InvalidBlobType),
    }
}

/// A transaction of a block as the executor takes it.
#[derive(Debug)]
pub enum ExecutableTransaction {
    /// The pseudo-transaction that opens a block. It is made from the
    /// identifier that the store gave the blob and from the time of storing.
    /// The identifier stands here as the store gave it: the executor takes
    /// its digest when it builds the metadata of its own kind.
    BlockMetadata {
        /// The identifier that the store gave the blob.
        blob_id: String,
        /// The time of storing.
        timestamp: u64,
    },
    /// A transaction of a user, serialized.
    UserTransaction(Vec<u8>),
}

/// A block as the executor takes it.
#[derive(Debug)]
pub struct ExecutableBlock {
    /// The identifier of the block for the executor: the digest of the bytes
    /// of the blob as the store holds them.
    pub block_id: Id,
    /// The transactions: the metadata of the block, then those of the users.
    pub transactions: Vec<ExecutableTransaction>,
}

/// Whether `executable` is the block to execute for the block `block` that
/// came in a blob with these bytes, identifier and timestamp: it stands under
/// the digest of the blob's bytes, opens with the metadata, and goes on with
/// the transactions of the block in order. The metadata carries the
/// identifier of the blob undigested; its digest is left to the executor.
pub open spec fn executes(
    executable: ExecutableBlock,
    block: BlockView,
    data: Seq<u8>,
    blob_id: String,
    timestamp: u64,
) -> bool {
    &&& executable.block_id@ == sha256_digest(data)
    &&& executable.transactions@.len() == block.transactions.len() + 1
    &&& executable.transactions@[0] == (ExecutableTransaction::BlockMetadata { blob_id, timestamp })
    &&& forall|i: int|
        0 <= i < block.transactions.len() ==> (
        #[trigger] executable.transactions@[i + 1] matches ExecutableTransaction::UserTransaction(
            data,
        ) && data@ == block.transactions[i])
}

/// The block to execute for a block that came in a blob: the metadata first,
/// then every transaction of the block in order, under the digest of the
/// blob's bytes.
pub fn executable_block(block: Block, blob: &Blob) -> (r: ExecutableBlock)
    ensures
        executes(r, block@, blob.data@, blob.blob_id, blob.timestamp),
{
    let mut transactions: Vec<ExecutableTransaction> = Vec::new();
    transactions.push(
        ExecutableTransaction::BlockMetadata {
            blob_id: blob.blob_id.clone(),
            timestamp: blob.timestamp,
        },
    );
    let users = block.transactions();
    let mut i: usize = 0;
    while i < users.len()
        invariant
            i <= users.len(),
            payloads(users@) == block@.transactions,
            transactions@.len() == i + 1,
            transactions@[0] == (ExecutableTransaction::BlockMetadata {
                blob_id: blob.blob_id,
                timestamp: blob.timestamp,
            }),
            forall|j: int|
                0 <= j < i ==> (
                #[trigger] transactions@[j + 1] matches ExecutableTransaction::UserTransaction(
                    data,
                ) && data@ == block@.transactions[j]),
        decreases users.len() - i,
    {
        let copy = users[i].duplicate();
        proof {
            assert(payloads(users@)[i as int] == users@[i as int]@);
        }
        transactions.push(ExecutableTransaction::UserTransaction(copy.0));
        i += 1;
    }
    let block_id = Id::new(sha256(blob.data.as_slice()));
    ExecutableBlock { block_id, transactions }
}

/// Turns a sequenced blob of the stream into the block to execute. The blob
/// is decompressed and read as a block. This succeeds exactly where the blob
/// decompresses to the encoding of a valid block, and then gives the block to
/// execute for that block: a blob that wraps a block gives the transactions
/// of that block, in their order.
pub fn read_block(blob: &Blob) -> (r: Result<ExecutableBlock, DriverError>)
    ensures
        r is Ok <==> exists|block: BlockView|
            block.valid() && block.encodable() && zstd_plain(blob.data@) == Some(
                #[trigger] block.encoding(),
            ),
        forall|block: BlockView|
            block.valid() && block.encodable() && zstd_plain(blob.data@) == Some(
                #[trigger] block.encoding(),
            ) ==> (r matches Ok(executable) && executes(
                executable,
                block,
                blob.data@,
                blob.blob_id,
                blob.timestamp,
            )),
        r matches Err(error) ==> error is Compression || error is Block,
        r matches Err(DriverError::Compression(_)) <==> zstd_plain(blob.data@) is None,
{
    let block_bytes = match zstd_decompress(blob.data.as_slice()) {
        Ok(bytes) => bytes,
        Err(error) => {
            return Err(DriverError::Compression(io_error_text(&error)));
        },
    };
    match Block::decode(block_bytes.as_slice()) {
        Ok(block) => {
            let ghost decoded = block@;
            let executable = executable_block(block, blob);
            proof {
                assert(decoded.valid() && decoded.encodable() && zstd_plain(blob.data@) == Some(
                    decoded.encoding(),
                ));
            }
            Ok(executable)
        },
        Err(error) => {
            proof {
                assert forall|block: BlockView|
                    !(block.valid() && block.encodable() && zstd_plain(blob.data@) == Some(
                        #[trigger] block.encoding(),
                    )) by {
                    if block.valid() && block.encodable() && block_bytes@ == block.encoding() {
                        assert(false);
                    }
                }
            }
            Err(DriverError::Block(error))
        },
    }
}

/// What the executor made of a block.
#[derive(Clone, Copy, Debug)]
pub struct BlockCommitment {
    /// The height of the block.
    pub height: u64,
    /// The identifier of the block.
    pub block_id: Id,
    /// The root of the state after the block.
    pub state_root: Id,
}

/// What the settlement layer said of a commitment.
#[derive(Debug)]
pub enum BlockCommitmentEvent {
    /// The commitment was accepted.
    Accepted(BlockCommitment),
    /// The commitment at a height was rejected.
    Rejected {
        /// The height.
        height: u64,
        /// Why.
        reason: String,
    },
}

/// What the node does about a settlement event.
#[derive(Debug)]
pub enum SettlementAction {
    /// Tell the executor that blocks up to this height are final.
    SetFinalizedBlockHeight(u64),
    /// Note that the commitment at a height was rejected; nothing is reverted.
    NoteRejection {
        /// The height.
        height: u64,
        /// Why.
        reason: String,
    },
}

/// Decides what a settlement event makes the node do: an accepted commitment
/// finalizes its height, and nothing else does.
pub fn on_commitment_event(event: BlockCommitmentEvent) -> (r: SettlementAction)
    ensures
        match event {
            BlockCommitmentEvent::Accepted(commitment) => r
                == SettlementAction::SetFinalizedBlockHeight(commitment.height),
            BlockCommitmentEvent::Rejected { height, reason } => r
                == (SettlementAction::NoteRejection { height, reason }),
        },
{
    match event {
        BlockCommitmentEvent::Accepted(commitment) => SettlementAction::SetFinalizedBlockHeight(
            commitment.height,
        ),
        BlockCommitmentEvent::Rejected { height, reason } => SettlementAction::NoteRejection {
            height,
            reason,
        },
    }
}

} // verus!
