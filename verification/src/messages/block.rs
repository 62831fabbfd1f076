use vstd::prelude::*;
use vstd::slice::{slice_subrange, slice_to_vec};
use crate::error::CustomError;
use crate::messages::transaction::{Transaction, TransactionView};
use crate::parser::{
    lemma_parse_list_failure, parse_counted_list, parse_list, parse_varint, rejected_with,
    serialize_counted_list, serialize_list, varint_bytes, BufferParser, Parsed,
};
use crate::structs::block_header::{BlockHeader, BlockHeaderView};

verus! {

/// A block: its header and its transactions, in their order.
#[derive(Debug, Clone)]
pub struct Block {
    pub header: BlockHeader,
    pub transactions: Vec<Transaction>,
}

/// A block as plain values.
pub struct BlockView {
    pub header: BlockHeaderView,
    pub transactions: Seq<TransactionView>,
}

/// The transactions as plain values, in their order.
pub open spec fn transactions_view(transactions: Seq<Transaction>) -> Seq<TransactionView> {
    transactions.map_values(|transaction: Transaction| transaction@)
}

impl View for Block {
    type V = BlockView;

    open spec fn view(&self) -> BlockView {
        BlockView { header: self.header@, transactions: transactions_view(self.transactions@) }
    }
}

/// The blocks as plain values, in their order.
pub open spec fn blocks_view(blocks: Seq<Block>) -> Seq<BlockView> {
    blocks.map_values(|block: Block| block@)
}

/// How one transaction is written.
pub open spec fn transaction_encoder() -> spec_fn(TransactionView) -> Seq<u8> {
    |transaction: TransactionView| transaction.serialize()
}

/// How one transaction is read.
pub open spec fn transaction_decoder() -> spec_fn(Seq<u8>) -> Parsed<TransactionView> {
    |s: Seq<u8>| TransactionView::parse(s)
}

impl BlockView {
    /// The bytes of the block on the wire and in the store: the 80 bytes
    /// of the header, the number of transactions as a compact size, the
    /// transactions.
    pub open spec fn serialize(self) -> Seq<u8> {
        self.header.serialize() + serialize_counted_list(transaction_encoder(), self.transactions)
    }

    /// What reading a block from `s` gives: the header is read from the
    /// first 80 bytes and its proof of work checked, then the transactions
    /// are read; bytes after them are not looked at.
    pub open spec fn parse(s: Seq<u8>) -> Result<BlockView, CustomError> {
        if s.len() < 80 {
            Err(CustomError::SerializedBufferIsInvalid)
        } else {
            match BlockHeaderView::parse(s.take(80)) {
                Err(e) => Err(e),
                Ok(header) => match parse_counted_list(transaction_decoder(), s.skip(80)) {
                    Parsed::Done { value, used } => Ok(BlockView { header, transactions: value }),
                    _ => Err(CustomError::SerializedBufferIsInvalid),
                },
            }
        }
    }
}

/// A block whose header has its proof of work and the hash of its own
/// bytes is read back from its bytes as it was, the notes of its header
/// cleared.
pub proof fn lemma_block_roundtrip(block: BlockView)
    requires
        block.header.wf(),
        block.header.hash == crate::hashing::sha256d_digest(block.header.serialize()),
        crate::structs::block_header::meets_target(block.header.hash, block.header.bits),
        block.transactions.len() <= u64::MAX,
        forall|i: int| 0 <= i < block.transactions.len() ==> (#[trigger] block.transactions[i]).wf(),
    ensures
        BlockView::parse(block.serialize()) == Ok::<BlockView, CustomError>(
            BlockView {
                header: BlockHeaderView {
                    broadcasted: false,
                    block_downloaded: false,
                    ..block.header
                },
                transactions: block.transactions,
            },
        ),
{
    let s = block.serialize();
    let body = serialize_counted_list(transaction_encoder(), block.transactions);
    block.header.lemma_fields_roundtrip(Seq::empty(), Seq::empty(), false);
    block.header.lemma_roundtrip();
    assert(s.take(80) =~= block.header.serialize());
    assert(s.skip(80) =~= body + Seq::<u8>::empty());
    assert forall|i: int, tail: Seq<u8>|
        0 <= i < block.transactions.len() implies #[trigger] transaction_decoder()(
        transaction_encoder()(block.transactions[i]) + tail,
    ) == (Parsed::Done {
        value: block.transactions[i],
        used: transaction_encoder()(block.transactions[i]).len(),
    }) by {
        block.transactions[i].lemma_roundtrip(tail);
    }
    crate::parser::lemma_counted_list_roundtrip(
        transaction_encoder(),
        transaction_decoder(),
        block.transactions,
        Seq::empty(),
    );
}

impl Block {
    /// The bytes of the block.
    pub fn serialize(&self) -> (buffer: Vec<u8>)
        ensures
            buffer@ == self@.serialize(),
    {
        let mut buffer = self.header.serialize();
        let mut count = varint_bytes(self.transactions.len() as u64);
        buffer.append(&mut count);
        let ghost head = buffer@;
        let ghost items = transactions_view(self.transactions@);
        let mut i: usize = 0;
        assert(buffer@ =~= head + serialize_list(transaction_encoder(), items.take(0)));
        while i < self.transactions.len()
            invariant
                i <= self.transactions@.len(),
                items == transactions_view(self.transactions@),
                buffer@ == head + serialize_list(transaction_encoder(), items.take(i as int)),
            decreases self.transactions@.len() - i,
        {
            let mut bytes = self.transactions[i].serialize();
            buffer.append(&mut bytes);
            proof {
                let next = items.take(i + 1);
                assert(next.drop_last() =~= items.take(i as int));
                assert(next.last() == self.transactions@[i as int]@);
            }
            i = i + 1;
        }
        assert(items.take(i as int) =~= items);
        buffer
    }

    /// Reads a block: its header, with the proof of work checked, and its
    /// transactions.
    pub fn parse(buffer: Vec<u8>) -> (r: Result<Self, CustomError>)
        ensures
            match BlockView::parse(buffer@) {
                Ok(block) => r is Ok && r->Ok_0@ == block,
                Err(e) => r is Err && r->Err_0 == e,
            },
    {
        if buffer.len() < 80 {
            return Err(CustomError::SerializedBufferIsInvalid);
        }
        let header_bytes = slice_to_vec(slice_subrange(buffer.as_slice(), 0, 80));
        assert(header_bytes@ =~= buffer@.take(80));
        let header = match BlockHeader::parse(header_bytes) {
            Ok(header) => header,
            Err(e) => { return Err(e); },
        };
        let mut parser = BufferParser::new(buffer);
        let _ = parser.extract_buffer(80);
        proof {
            assert forall|t: Seq<u8>| !(#[trigger] transaction_decoder()(t) is Rejected) by {
                crate::messages::transaction::lemma_transaction_not_rejected(t);
            }
            crate::parser::lemma_parse_list_not_rejected(
                transaction_decoder(),
                buffer@.skip(80),
                0,
            );
        }
        match parse_transactions(&mut parser) {
            Ok(transactions) => Ok(Self { header, transactions }),
            Err(e) => Err(e),
        }
    }

    /// The hash of the block: that of its header.
    pub fn hash(&self) -> (hash: &Vec<u8>)
        ensures
            hash@ == self@.header.hash,
    {
        self.header.hash()
    }
}

/// Reads a count and that many transactions at the cursor.
pub fn parse_transactions(parser: &mut BufferParser) -> (r: Result<Vec<Transaction>, CustomError>)
    ensures
        match parse_counted_list(transaction_decoder(), old(parser).remaining()) {
            Parsed::Done { value, used } => r is Ok && transactions_view(r->Ok_0@) == value,
            Parsed::Failed { used } => r is Err && r->Err_0
                == CustomError::SerializedBufferIsInvalid,
            Parsed::Rejected { used, message } => r is Err && rejected_with(r->Err_0, message),
        },
        parse_counted_list(transaction_decoder(), old(parser).remaining()).used() <= old(parser).remaining().len(),
        final(parser).remaining() == old(parser).remaining().skip(
            parse_counted_list(transaction_decoder(), old(parser).remaining()).used() as int,
        ),
{
    let ghost start = parser.remaining();
    let count = match parser.extract_varint() {
        Ok(count) => count,
        Err(e) => { return Err(e); },
    };
    let ghost head = parse_varint(start).used() as int;
    let ghost before = parser.remaining();
    let ghost mut used: int = 0;
    let mut transactions: Vec<Transaction> = Vec::new();
    let mut i: u64 = 0;
    assert(before.skip(0) =~= before);
    assert(transactions_view(transactions@) =~= Seq::empty());
    while i < count
        invariant
            i <= count,
            0 <= used <= before.len(),
            0 <= head <= start.len(),
            start == old(parser).remaining(),
            before == start.skip(head),
            parse_varint(start) == (Parsed::Done { value: count as nat, used: head as nat }),
            parse_list(transaction_decoder(), before, i as nat) == (Parsed::Done {
                value: transactions_view(transactions@),
                used: used as nat,
            }),
            parser.remaining() == before.skip(used),
        decreases count - i,
    {
        let ghost more = TransactionView::parse(before.skip(used)).used() as int;
        let transaction = Transaction::parse_from_parser(parser);
        assert(before.skip(used).skip(more) =~= before.skip(used + more));
        match transaction {
            Ok(transaction) => {
                proof {
                    assert(transactions_view(transactions@.push(transaction)) =~= transactions_view(
                        transactions@,
                    ).push(transaction@));
                }
                transactions.push(transaction);
            },
            Err(e) => {
                proof {
                    lemma_parse_list_failure(
                        transaction_decoder(),
                        before,
                        (i + 1) as nat,
                        count as nat,
                    );
                    assert(start.skip(head).skip(used + more) =~= start.skip(head + used + more));
                }
                return Err(e);
            },
        }
        proof {
            used = used + more;
        }
        i = i + 1;
    }
    assert(start.skip(head).skip(used) =~= start.skip(head + used));
    Ok(transactions)
}

} // verus!
