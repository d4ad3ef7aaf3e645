//! Blocks of transactions and their identifiers.

use crate::codec::bcs_block;
use crate::codec::bcs_decode_block;
use crate::codec::bcs_encode_block;
use crate::codec::bcs_error_text;
use crate::codec::bcs_serializable;
use crate::codec::sha256;
use crate::codec::sha256_digest;
use crate::grouping_heuristic::lemma_originals_of_applied;
use crate::grouping_heuristic::originals;
use crate::grouping_heuristic::splitting::split_pieces;
use crate::grouping_heuristic::splitting::Splitable;
use crate::grouping_heuristic::ElementalOutcome;
use vstd::prelude::*;

verus! {

/// A 32-byte digest that names a block.
#[derive(Clone, Copy, Debug)]
pub struct Id(pub [u8; 32]);

impl View for Id {
    type V = Seq<u8>;

    open spec fn view(&self) -> Seq<u8> {
        self.0@
    }
}

impl Id {
    /// The identifier with these bytes.
    pub fn new(bytes: [u8; 32]) -> (r: Self)
        ensures
            r@ == bytes@,
    {
        Id(bytes)
    }

    /// The bytes of the identifier.
    pub fn as_bytes(&self) -> (r: &[u8; 32])
        ensures
            r@ == self@,
    {
        &self.0
    }

    /// Whether two identifiers hold the same bytes.
    pub fn same(&self, other: &Id) -> (r: bool)
        ensures
            r == (self@ == other@),
    {
        let mut i: usize = 0;
        while i < 32
            invariant
                i <= 32,
                forall|j: int| 0 <= j < i ==> self@[j] == other@[j],
            decreases 32 - i,
        {
            if self.0[i] != other.0[i] {
                return false;
            }
            i += 1;
        }
        proof {
            assert(self@ =~= other@);
        }
        true
    }
}

/// An opaque user payload.
#[derive(Debug)]
pub struct Transaction(pub Vec<u8>);

impl View for Transaction {
    type V = Seq<u8>;

    open spec fn view(&self) -> Seq<u8> {
        self.0@
    }
}

impl Transaction {
    /// The transaction with this payload.
    pub fn new(data: Vec<u8>) -> (r: Self)
        ensures
            r@ == data@,
    {
        Transaction(data)
    }

    /// The payload.
    pub fn data(&self) -> (r: &Vec<u8>)
        ensures
            r@ == self@,
    {
        &self.0
    }

    /// A transaction with the same payload.
    pub fn duplicate(&self) -> (r: Self)
        ensures
            r@ == self@,
    {
        let data = self.0.clone();
        proof {
            assert(data@ =~= self.0@);
        }
        Transaction(data)
    }
}

/// The payloads of some transactions.
pub open spec fn payloads(transactions: Seq<Transaction>) -> Seq<Seq<u8>> {
    transactions.map_values(|transaction: Transaction| transaction@)
}

/// The eight bytes of a number, most significant first.
pub open spec fn be64(value: u64) -> Seq<u8> {
    seq![
        ((value / 0x100_0000_0000_0000) % 0x100) as u8,
        ((value / 0x1_0000_0000_0000) % 0x100) as u8,
        ((value / 0x100_0000_0000) % 0x100) as u8,
        ((value / 0x1_0000_0000) % 0x100) as u8,
        ((value / 0x100_0000) % 0x100) as u8,
        ((value / 0x1_0000) % 0x100) as u8,
        ((value / 0x100) % 0x100) as u8,
        (value % 0x100) as u8,
    ]
}

/// The payloads one after the other, each behind its length.
pub open spec fn framed(transactions: Seq<Seq<u8>>) -> Seq<u8>
    decreases transactions.len(),
{
    if transactions.len() == 0 {
        Seq::empty()
    } else {
        framed(transactions.drop_last()) + be64(transactions.last().len() as u64)
            + transactions.last()
    }
}

/// What a block's identifier is the digest of: the identifier of the parent,
/// the timestamp, the number of transactions and the framed payloads.
pub open spec fn id_preimage(parent_id: Seq<u8>, timestamp: u64, transactions: Seq<Seq<u8>>) -> Seq<
    u8,
> {
    parent_id + be64(timestamp) + be64(transactions.len() as u64) + framed(transactions)
}

/// The identifier of the block with this content.
pub open spec fn block_id(parent_id: Seq<u8>, timestamp: u64, transactions: Seq<Seq<u8>>) -> Seq<
    u8,
> {
    sha256_digest(id_preimage(parent_id, timestamp, transactions))
}

/// A block as a mathematical value.
pub struct BlockView {
    /// The identifier.
    pub id: Seq<u8>,
    /// The identifier of the parent.
    pub parent_id: Seq<u8>,
    /// The time of building, in milliseconds.
    pub timestamp: u64,
    /// The payloads of the transactions, in order.
    pub transactions: Seq<Seq<u8>>,
}

impl BlockView {
    /// Whether the identifier is the one that the content gives.
    pub open spec fn valid(self) -> bool {
        self.id == block_id(self.parent_id, self.timestamp, self.transactions)
    }

    /// The serialization of the block.
    pub open spec fn encoding(self) -> Seq<u8> {
        bcs_block(self.id, self.parent_id, self.timestamp, self.transactions)
    }

    /// Whether the block can be serialized: its identifiers are 32 bytes long,
    /// and neither its transactions nor the bytes of any payload are more than
    /// the longest sequence that the serializer takes.
    pub open spec fn encodable(self) -> bool {
        bcs_serializable(self.id, self.parent_id, self.transactions)
    }
}

/// Why bytes could not be turned into a block, or a block into bytes.
#[derive(Debug)]
pub enum BlockError {
    /// The serialization failed, or the bytes are no serialization of a block.
    Encoding(String),
    /// The bytes hold a block whose identifier is not that of its content.
    IdMismatch,
}

/// An ordered batch of transactions with an identifier derived from its
/// content.
#[derive(Debug)]
pub struct Block {
    id: Id,
    parent_id: Id,
    timestamp: u64,
    transactions: Vec<Transaction>,
}

impl View for Block {
    type V = BlockView;

    closed spec fn view(&self) -> BlockView {
        BlockView {
            id: self.id@,
            parent_id: self.parent_id@,
            timestamp: self.timestamp,
            transactions: payloads(self.transactions@),
        }
    }
}

fn push_be64(out: &mut Vec<u8>, value: u64)
    ensures
        final(out)@ == old(out)@ + be64(value),
{
    let ghost before = out@;
    out.push(((value / 0x100_0000_0000_0000) % 0x100) as u8);
    out.push(((value / 0x1_0000_0000_0000) % 0x100) as u8);
    out.push(((value / 0x100_0000_0000) % 0x100) as u8);
    out.push(((value / 0x1_0000_0000) % 0x100) as u8);
    out.push(((value / 0x100_0000) % 0x100) as u8);
    out.push(((value / 0x1_0000) % 0x100) as u8);
    out.push(((value / 0x100) % 0x100) as u8);
    out.push((value % 0x100) as u8);
    proof {
        assert(out@ =~= before + be64(value));
    }
}

fn push_all(out: &mut Vec<u8>, bytes: &[u8])
    ensures
        final(out)@ == old(out)@ + bytes@,
{
    let ghost before = out@;
    out.extend_from_slice(bytes);
    proof {
        assert(out@ =~= before + bytes@);
    }
}

/// The identifier that a content gives.
fn derive_id(parent_id: &Id, timestamp: u64, transactions: &Vec<Transaction>) -> (r: Id)
    ensures
        r@ == block_id(parent_id@, timestamp, payloads(transactions@)),
{
    let mut preimage: Vec<u8> = Vec::new();
    push_all(&mut preimage, parent_id.0.as_slice());
    push_be64(&mut preimage, timestamp);
    push_be64(&mut preimage, transactions.len() as u64);
    let ghost head = preimage@;
    let mut i: usize = 0;
    while i < transactions.len()
        invariant
            i <= transactions.len(),
            preimage@ == head + framed(payloads(transactions@).take(i as int)),
        decreases transactions.len() - i,
    {
        let data = transactions[i].data();
        proof {
            let all = payloads(transactions@);
            assert(all.take(i + 1).drop_last() =~= all.take(i as int));
            assert(all.take(i + 1).last() == data@);
        }
        push_be64(&mut preimage, data.len() as u64);
        push_all(&mut preimage, data.as_slice());
        proof {
            let all = payloads(transactions@);
            assert(preimage@ =~= head + framed(all.take(i + 1)));
        }
        i += 1;
    }
    proof {
        let all = payloads(transactions@);
        assert(all.take(all.len() as int) =~= all);
        assert(preimage@ =~= id_preimage(parent_id@, timestamp, all));
    }
    Id(sha256(preimage.as_slice()))
}

impl Block {
    #[verifier::type_invariant]
    spec fn id_of_content(&self) -> bool {
        self.id@ == block_id(self.parent_id@, self.timestamp, payloads(self.transactions@))
    }

    /// Builds the block with this content and derives its identifier.
    pub fn new(parent_id: Id, timestamp: u64, transactions: Vec<Transaction>) -> (r: Self)
        ensures
            r@.parent_id == parent_id@,
            r@.timestamp == timestamp,
            r@.transactions == payloads(transactions@),
            r@.valid(),
    {
        let id = derive_id(&parent_id, timestamp, &transactions);
        Block { id, parent_id, timestamp, transactions }
    }

    /// The identifier, which is the one that the content gives.
    pub fn id(&self) -> (r: Id)
        ensures
            r@ == self@.id,
            self@.valid(),
    {
        proof {
            use_type_invariant(self);
        }
        self.id
    }

    /// The identifier of the parent.
    pub fn parent_id(&self) -> (r: Id)
        ensures
            r@ == self@.parent_id,
    {
        self.parent_id
    }

    /// The time of building, in milliseconds.
    pub fn timestamp(&self) -> (r: u64)
        ensures
            r == self@.timestamp,
    {
        self.timestamp
    }

    /// The transactions, in order.
    pub fn transactions(&self) -> (r: &Vec<Transaction>)
        ensures
            payloads(r@) == self@.transactions,
    {
        &self.transactions
    }

    /// The block with these fields, if the identifier is the one that the
    /// content gives.
    pub fn from_parts(
        id: Id,
        parent_id: Id,
        timestamp: u64,
        transactions: Vec<Transaction>,
    ) -> (r: Result<Self, BlockError>)
        ensures
            r is Ok <==> id@ == block_id(parent_id@, timestamp, payloads(transactions@)),
            r matches Ok(block) ==> block@ == (BlockView {
                id: id@,
                parent_id: parent_id@,
                timestamp,
                transactions: payloads(transactions@),
            }),
            r matches Err(error) ==> error is IdMismatch,
    {
        let derived = derive_id(&parent_id, timestamp, &transactions);
        if derived.same(&id) {
            Ok(Block { id, parent_id, timestamp, transactions })
        } else {
            Err(BlockError::IdMismatch)
        }
    }

    /// Serializes the block. This succeeds exactly on the blocks that can be
    /// serialized, and gives the encoding of the block.
    pub fn encode(&self) -> (r: Result<Vec<u8>, BlockError>)
        ensures
            r is Ok <==> self@.encodable(),
            r matches Ok(bytes) ==> bytes@ == self@.encoding(),
            r matches Err(error) ==> error is Encoding,
    {
        match bcs_encode_block(&self.id.0, &self.parent_id.0, self.timestamp, &self.transactions) {
            Ok(bytes) => Ok(bytes),
            Err(error) => Err(BlockError::Encoding(bcs_error_text(&error))),
        }
    }

    /// Reads a block back from its encoding. This succeeds exactly on the
    /// encodings of valid blocks that can be serialized, and gives the block
    /// that was encoded.
    pub fn decode(bytes: &[u8]) -> (r: Result<Self, BlockError>)
        ensures
            r matches Ok(block) ==> block@.valid() && block@.encodable() && bytes@
                == block@.encoding(),
            forall|block: BlockView|
                block.valid() && block.encodable() && bytes@ == #[trigger] block.encoding() ==> (
                r matches Ok(decoded) && decoded@ == block),
            r matches Err(BlockError::Encoding(_)) ==> forall|block: BlockView|
                block.encodable() ==> bytes@ != #[trigger] block.encoding(),
            r matches Err(BlockError::IdMismatch) ==> exists|block: BlockView|
                !block.valid() && block.encodable() && bytes@ == #[trigger] block.encoding(),
    {
        match bcs_decode_block(bytes) {
            Ok(fields) => {
                let (id, parent_id, timestamp, data) = fields;
                let ghost read = data@.map_values(|payload: Vec<u8>| payload@);
                let transactions = wrap_payloads(data);
                proof {
                    assert(payloads(transactions@) =~= read);
                }
                let ghost decoded = BlockView {
                    id: id@,
                    parent_id: parent_id@,
                    timestamp,
                    transactions: read,
                };
                assert(bytes@ == decoded.encoding() && decoded.encodable());
                Block::from_parts(Id(id), Id(parent_id), timestamp, transactions)
            },
            Err(error) => {
                proof {
                    assert forall|block: BlockView| block.encodable() implies bytes@
                        != #[trigger] block.encoding() by {
                        assert(bytes@ != bcs_block(
                            block.id,
                            block.parent_id,
                            block.timestamp,
                            block.transactions,
                        ));
                    }
                }
                Err(BlockError::Encoding(bcs_error_text(&error)))
            },
        }
    }

    /// The parts that cutting the block into `factor` gives, or nothing where
    /// `factor` is zero or the block has fewer transactions than that. Each
    /// part holds a run of the transactions, the runs in order and as even as
    /// can be, the longer ones first; the first part has the parent of the
    /// block, and every other part the part before it.
    pub fn parts(&self, factor: usize) -> (r: Option<Vec<Block>>)
        ensures
            r is Some <==> cuttable(self@, factor),
            r matches Some(parts) ==> cut_into(self@, factor, views(parts@)),
    {
        let count = self.transactions.len();
        if factor == 0 || count < factor {
            return None;
        }
        let base = count / factor;
        let more = count % factor;
        let mut parts: Vec<Block> = Vec::new();
        let mut parent = self.parent_id;
        let mut start: usize = 0;
        let mut i: usize = 0;
        while i < factor
            invariant
                i <= factor,
                1 <= factor <= count,
                count == self.transactions@.len(),
                base == count / factor,
                more == count % factor,
                start == chunk_start(i as int, count as int, factor as int),
                parts@.len() == i,
                parent@ == if i == 0 {
                    self@.parent_id
                } else {
                    parts@[i - 1]@.id
                },
                forall|j: int| 0 <= j < i ==> is_part(self@, factor, views(parts@), j),
            decreases factor - i,
        {
            proof {
                lemma_chunks(i as int, count as int, factor as int);
            }
            let len = if i < more {
                base + 1
            } else {
                base
            };
            let mut chunk: Vec<Transaction> = Vec::new();
            let mut j: usize = 0;
            while j < len
                invariant
                    j <= len,
                    start + len <= count,
                    count == self.transactions@.len(),
                    chunk@.len() == j,
                    forall|k: int| 0 <= k < j ==> chunk@[k]@ == self.transactions@[start + k]@,
                decreases len - j,
            {
                chunk.push(self.transactions[start + j].duplicate());
                j += 1;
            }
            let ghost before = views(parts@);
            let part = Block::new(parent, self.timestamp, chunk);
            parent = part.id();
            parts.push(part);
            proof {
                let after = views(parts@);
                assert(payloads(chunk@) =~= self@.transactions.subrange(
                    start as int,
                    start + len,
                ));
                assert forall|j: int| 0 <= j < i + 1 implies is_part(self@, factor, after, j) by {
                    if j < i {
                        assert(is_part(self@, factor, before, j));
                        assert(after[j] == before[j]);
                        if j > 0 {
                            assert(after[j - 1] == before[j - 1]);
                        }
                    }
                }
            }
            start = start + len;
            i += 1;
        }
        Some(parts)
    }
}

/// Blocks as mathematical values.
pub open spec fn views(blocks: Seq<Block>) -> Seq<BlockView> {
    blocks.map_values(|block: Block| block@)
}

/// Where part `i` begins when `count` transactions are cut into `factor` runs
/// that are as even as can be, the longer ones first.
pub open spec fn chunk_start(i: int, count: int, factor: int) -> int {
    i * (count / factor) + if i < count % factor {
        i
    } else {
        count % factor
    }
}

/// Whether a block can be cut into `factor` parts.
pub open spec fn cuttable(block: BlockView, factor: usize) -> bool {
    1 <= factor <= block.transactions.len()
}

/// Whether `parts[i]` is part `i` of `block` cut into `factor`.
pub open spec fn is_part(block: BlockView, factor: usize, parts: Seq<BlockView>, i: int) -> bool {
    let count = block.transactions.len() as int;
    &&& 0 <= i < parts.len()
    &&& parts[i].valid()
    &&& parts[i].timestamp == block.timestamp
    &&& parts[i].parent_id == if i == 0 {
        block.parent_id
    } else {
        parts[i - 1].id
    }
    &&& parts[i].transactions == block.transactions.subrange(
        chunk_start(i, count, factor as int),
        chunk_start(i + 1, count, factor as int),
    )
}

/// Whether `parts` are the parts of `block` cut into `factor`.
pub open spec fn cut_into(block: BlockView, factor: usize, parts: Seq<BlockView>) -> bool {
    &&& parts.len() == factor
    &&& forall|i: int| 0 <= i < factor ==> is_part(block, factor, parts, i)
}

/// The runs lie in the block, one behind the other.
pub proof fn lemma_chunks(i: int, count: int, factor: int)
    requires
        0 <= i < factor <= count,
    ensures
        0 <= chunk_start(i, count, factor) <= chunk_start(i + 1, count, factor) <= count,
        chunk_start(i + 1, count, factor) - chunk_start(i, count, factor) == count / factor + if i
            < count % factor {
            1int
        } else {
            0int
        },
        chunk_start(0, count, factor) == 0,
        chunk_start(factor, count, factor) == count,
{
    let base = count / factor;
    let more = count % factor;
    assert(count == factor * base + more) by {
        vstd::arithmetic::div_mod::lemma_fundamental_div_mod(count, factor);
    }
    assert(0 <= more < factor) by {
        vstd::arithmetic::div_mod::lemma_mod_bound(count, factor);
    }
    assert(base >= 0) by {
        vstd::arithmetic::div_mod::lemma_div_pos_is_pos(count, factor);
    }
    assert((i + 1) * base == i * base + base) by (nonlinear_arith);
    assert(i * base >= 0) by (nonlinear_arith)
        requires
            i >= 0,
            base >= 0,
    ;
    assert((i + 1) * base <= factor * base) by (nonlinear_arith)
        requires
            i + 1 <= factor,
            base >= 0,
    ;
    assert(0 * base == 0) by (nonlinear_arith);
}

/// The parts of a block are its parts alone: two cuts of a block into as many
/// parts are the same.
pub proof fn lemma_one_cut(
    block: BlockView,
    factor: usize,
    one: Seq<BlockView>,
    other: Seq<BlockView>,
)
    requires
        cut_into(block, factor, one),
        cut_into(block, factor, other),
    ensures
        one == other,
{
    lemma_same_parts(block, factor, one, other, factor as int);
    assert(one =~= other);
}

proof fn lemma_same_parts(
    block: BlockView,
    factor: usize,
    one: Seq<BlockView>,
    other: Seq<BlockView>,
    upto: int,
)
    requires
        cut_into(block, factor, one),
        cut_into(block, factor, other),
        0 <= upto <= factor,
    ensures
        forall|i: int| 0 <= i < upto ==> one[i] == other[i],
    decreases upto,
{
    if upto > 0 {
        lemma_same_parts(block, factor, one, other, upto - 1);
        assert(is_part(block, factor, one, upto - 1));
        assert(is_part(block, factor, other, upto - 1));
    }
}

/// The payloads of the blocks' transactions, block after block.
pub open spec fn joined(blocks: Seq<BlockView>) -> Seq<Seq<u8>> {
    blocks.map_values(|block: BlockView| block.transactions).flatten()
}

/// The parts of a block hold its transactions: joined in order they are the
/// transactions of the block, and there are `factor` of them.
pub proof fn lemma_parts_join(block: BlockView, factor: usize, parts: Seq<BlockView>)
    requires
        cuttable(block, factor),
        cut_into(block, factor, parts),
    ensures
        parts.len() == factor,
        joined(parts) == block.transactions,
{
    let count = block.transactions.len() as int;
    lemma_joined_prefix(block, factor, parts, factor as int);
    lemma_chunks(0, count, factor as int);
    assert(parts.take(factor as int) =~= parts);
    assert(block.transactions.subrange(0, count) =~= block.transactions);
}

proof fn lemma_joined_prefix(block: BlockView, factor: usize, parts: Seq<BlockView>, upto: int)
    requires
        cuttable(block, factor),
        cut_into(block, factor, parts),
        0 <= upto <= factor,
    ensures
        joined(parts.take(upto)) == block.transactions.subrange(
            0,
            chunk_start(upto, block.transactions.len() as int, factor as int),
        ),
    decreases upto,
{
    let count = block.transactions.len() as int;
    let runs = |part: BlockView| part.transactions;
    if upto == 0 {
        lemma_chunks(0, count, factor as int);
        assert(joined(parts.take(0)) =~= Seq::<Seq<u8>>::empty());
        assert(block.transactions.subrange(0, 0) =~= Seq::<Seq<u8>>::empty());
    } else {
        lemma_joined_prefix(block, factor, parts, upto - 1);
        lemma_chunks(upto - 1, count, factor as int);
        assert(is_part(block, factor, parts, upto - 1));
        let earlier = parts.take(upto - 1).map_values(runs);
        assert(parts.take(upto).map_values(runs) =~= earlier.push(parts[upto - 1].transactions));
        earlier.lemma_flatten_push(parts[upto - 1].transactions);
        let low = chunk_start(upto - 1, count, factor as int);
        let high = chunk_start(upto, count, factor as int);
        assert(block.transactions.subrange(0, low) + block.transactions.subrange(low, high)
            =~= block.transactions.subrange(0, high));
    }
}

/// Splitting cuts every block that can be cut: in the place of a block to
/// apply stand as many parts as the factor says, each to apply, and their
/// transactions joined in order are the transactions of the block.
pub proof fn lemma_split_block(block: Block, factor: usize, pieces: Seq<ElementalOutcome<Block>>)
    requires
        cuttable(block@, factor),
        split_pieces(ElementalOutcome::Apply(block), factor, pieces),
    ensures
        pieces.len() == factor,
        forall|i: int| 0 <= i < pieces.len() ==> #[trigger] pieces[i] is Apply,
        joined(views(originals(pieces))) == block@.transactions,
{
    let parts = choose|parts: Vec<Block>| #[trigger]
        block.splits_into(factor, parts) && pieces == parts@.map_values(
            |part: Block| ElementalOutcome::Apply(part),
        );
    lemma_originals_of_applied(parts@);
    lemma_parts_join(block@, factor, views(parts@));
}

fn wrap_payloads(data: Vec<Vec<u8>>) -> (r: Vec<Transaction>)
    ensures
        payloads(r@) == data@.map_values(|payload: Vec<u8>| payload@),
{
    let ghost read = data@;
    let ghost view = |payload: Vec<u8>| payload@;
    let mut transactions: Vec<Transaction> = Vec::new();
    for payload in it: data.into_iter()
        invariant
            it.seq() == read,
            view == |payload: Vec<u8>| payload@,
            payloads(transactions@) == read.take(it.index()).map_values(view),
    {
        let ghost before = transactions@;
        transactions.push(Transaction(payload));
        proof {
            assert(payloads(transactions@) =~= payloads(before).push(payload@));
            assert(read.take(it.index() + 1).map_values(view) =~= read.take(
                it.index(),
            ).map_values(view).push(view(payload)));
        }
    }
    proof {
        assert(read.take(read.len() as int) =~= read);
    }
    transactions
}

impl Splitable for Block {
    open spec fn divisible(&self, factor: usize) -> bool {
        cuttable(self@, factor)
    }

    open spec fn splits_into(&self, factor: usize, parts: Vec<Self>) -> bool {
        cut_into(self@, factor, views(parts@))
    }

    fn split(self, factor: usize) -> (r: Result<Vec<Self>, Self>) {
        match self.parts(factor) {
            Some(parts) => Ok(parts),
            None => Err(self),
        }
    }
}

} // verus!
