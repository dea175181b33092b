//! Blocks: a header and its ordered, duplicate-free transactions.

use vstd::prelude::*;

use crate::block_header::{lemma_header_round_trip, BlockHeader};
use crate::sequence::{lemma_list_each, lemma_list_unique, list_bytes, read_list, write_list};
use crate::serialization::{
    holds_at, lemma_holds_at_concat, ErrorSerialization, SerializableInternalOrder,
};
use crate::transaction::Transaction;

verus! {

/// Why a block could not take a transaction.
#[derive(Debug, Clone, Copy, PartialEq, Eq, Structural)]
pub enum ErrorBlock {
    TransactionAlreadyInBlock,
}

/// A header and its transactions, in order.
#[derive(Debug, Clone)]
pub struct Block {
    pub header: BlockHeader,
    pub transactions: Vec<Transaction>,
}

/// Whether `s` holds a transaction with the same encoding as `t`.
pub open spec fn contains_tx(s: Seq<Transaction>, t: Transaction) -> bool {
    exists|j: int| 0 <= j < s.len() && (#[trigger] s[j]).io_bytes() == t.io_bytes()
}

/// No two transactions of `s` have the same encoding.
pub open spec fn distinct_encodings(s: Seq<Transaction>) -> bool {
    forall|i: int, j: int|
        0 <= i < j < s.len() ==> (#[trigger] s[i]).io_bytes() != (#[trigger] s[j]).io_bytes()
}

/// What appending the transactions of `s` in turn to an empty block keeps:
/// each one whose encoding is not already there.
pub open spec fn dedup(s: Seq<Transaction>) -> Seq<Transaction>
    decreases s.len(),
{
    if s.len() == 0 {
        Seq::empty()
    } else {
        let d = dedup(s.drop_last());
        if contains_tx(d, s.last()) {
            d
        } else {
            d.push(s.last())
        }
    }
}

/// A block on the wire: its header in internal order (which ends with the
/// header's own transaction count), then the transaction count as a compact
/// size, then each transaction in order.
pub open spec fn block_bytes(header: BlockHeader, transactions: Seq<Transaction>) -> Seq<u8> {
    header.io_bytes() + list_bytes(transactions)
}

/// `b` was read from the bytes of `data` between `pos` and `end`: they
/// encode its header and a list `w` of transactions, and the block keeps `w`
/// without repeated encodings.
pub open spec fn block_read_at(data: Seq<u8>, pos: int, b: Block, end: int) -> bool {
    exists|w: Seq<Transaction>|
        w.len() <= u64::MAX && holds_at(data, pos, #[trigger] block_bytes(b.header, w)) && end == pos
            + block_bytes(b.header, w).len() && b.transactions@ == dedup(w)
}

/// How many transactions of `s` have the encoding of `t`.
pub open spec fn encoding_count(s: Seq<Transaction>, t: Transaction) -> nat
    decreases s.len(),
{
    if s.len() == 0 {
        0
    } else {
        encoding_count(s.drop_last(), t) + if s.last().io_bytes() == t.io_bytes() {
            1nat
        } else {
            0nat
        }
    }
}

proof fn lemma_count_absent(s: Seq<Transaction>, t: Transaction)
    requires
        !contains_tx(s, t),
    ensures
        encoding_count(s, t) == 0,
    decreases s.len(),
{
    if s.len() > 0 {
        let d = s.drop_last();
        assert(!contains_tx(d, t)) by {
            if contains_tx(d, t) {
                let j = choose|j: int| 0 <= j < d.len() && (#[trigger] d[j]).io_bytes() == t.io_bytes();
                assert(s[j] == d[j]);
            }
        }
        lemma_count_absent(d, t);
        assert(s[s.len() - 1] == s.last());
    }
}

/// Appending a transaction twice: the second append finds it already there
/// (and so leaves the list as the first append made it), and when it was new
/// the list then holds exactly one transaction with its encoding.
pub proof fn lemma_append_twice(s: Seq<Transaction>, t: Transaction)
    ensures
        contains_tx(s.push(t), t),
        !contains_tx(s, t) ==> encoding_count(s.push(t), t) == 1,
{
    assert(s.push(t)[s.len() as int] == t);
    assert(s.push(t).drop_last() =~= s);
    if !contains_tx(s, t) {
        lemma_count_absent(s, t);
    }
}

proof fn lemma_dedup_distinct(s: Seq<Transaction>)
    requires
        distinct_encodings(s),
    ensures
        dedup(s) == s,
    decreases s.len(),
{
    if s.len() > 0 {
        let d = s.drop_last();
        assert(distinct_encodings(d)) by {
            assert forall|i: int, j: int| 0 <= i < j < d.len() implies (#[trigger] d[i]).io_bytes()
                != (#[trigger] d[j]).io_bytes() by {
                assert(d[i] == s[i] && d[j] == s[j]);
            }
        }
        lemma_dedup_distinct(d);
        if contains_tx(d, s.last()) {
            let j = choose|j: int| 0 <= j < d.len() && (#[trigger] d[j]).io_bytes() == s.last().io_bytes();
            assert(d[j] == s[j]);
            assert(s[s.len() - 1] == s.last());
        }
        assert(d.push(s.last()) =~= s);
    }
}

/// Reading back a written block whose transactions have distinct encodings
/// gives the same header and, in order, transactions with the same encodings.
pub proof fn lemma_block_round_trip(b: Block, r: Block, end: int)
    requires
        b.transactions@.len() <= u64::MAX,
        distinct_encodings(b.transactions@),
        block_read_at(block_bytes(b.header, b.transactions@), 0, r, end),
    ensures
        r.header == b.header,
        end == block_bytes(b.header, b.transactions@).len(),
        r.transactions@.len() == b.transactions@.len(),
        forall|i: int|
            0 <= i < r.transactions@.len() ==> (#[trigger] r.transactions@[i]).io_bytes()
                == b.transactions@[i].io_bytes(),
{
    let data = block_bytes(b.header, b.transactions@);
    let w = choose|w: Seq<Transaction>|
        w.len() <= u64::MAX && holds_at(data, 0, #[trigger] block_bytes(r.header, w)) && end == 0
            + block_bytes(r.header, w).len() && r.transactions@ == dedup(w);
    assert(data.subrange(0, data.len() as int) =~= data);
    lemma_holds_at_concat(data, 0, b.header.io_bytes(), list_bytes(b.transactions@));
    lemma_holds_at_concat(data, 0, r.header.io_bytes(), list_bytes(w));
    BlockHeader::lemma_io_unique(data, 0, b.header, r.header);
    lemma_header_round_trip(b.header, r.header);
    let p = b.header.io_bytes().len() as int;
    lemma_list_unique(data, p, w, b.transactions@);
    lemma_list_each(w, b.transactions@);
    assert(distinct_encodings(w)) by {
        assert forall|i: int, j: int| 0 <= i < j < w.len() implies (#[trigger] w[i]).io_bytes()
            != (#[trigger] w[j]).io_bytes() by {
            assert(w[i].io_bytes() == b.transactions@[i].io_bytes());
            assert(w[j].io_bytes() == b.transactions@[j].io_bytes());
        }
    }
    lemma_dedup_distinct(w);
}

fn bytes_eq(a: &Vec<u8>, b: &Vec<u8>) -> (r: bool)
    ensures
        r == (a@ == b@),
{
    if a.len() != b.len() {
        return false;
    }
    let mut i: usize = 0;
    while i < a.len()
        invariant
            a@.len() == b@.len(),
            0 <= i <= a@.len(),
            forall|j: int| 0 <= j < i ==> a@[j] == b@[j],
        decreases a@.len() - i,
    {
        if a[i] != b[i] {
            return false;
        }
        i += 1;
    }
    assert(a@ =~= b@);
    true
}

impl Block {
    pub fn new(header: BlockHeader) -> (r: Self)
        ensures
            r.header == header,
            r.transactions@.len() == 0,
    {
        Block { header, transactions: vec![] }
    }

    /// Whether the transactions belong under the header (see
    /// `BlockHeader::proof_of_inclusion`).
    pub fn proof_of_inclusion(&self) -> (r: bool)
        ensures
            r == self.header.spec_proof_of_inclusion(self.transactions@),
    {
        self.header.proof_of_inclusion(self.transactions.as_slice())
    }

    /// Adds `transaction` at the end unless a transaction with the same
    /// encoding is already in the block.
    pub fn append_transaccion(&mut self, transaction: Transaction) -> (r: Result<(), ErrorBlock>)
        ensures
            final(self).header == old(self).header,
            contains_tx(old(self).transactions@, transaction) <==> r is Err,
            r is Err ==> r == Err::<(), ErrorBlock>(ErrorBlock::TransactionAlreadyInBlock)
                && final(self).transactions@ == old(self).transactions@,
            r is Ok ==> final(self).transactions@ == old(self).transactions@.push(transaction),
            distinct_encodings(old(self).transactions@) ==> distinct_encodings(
                final(self).transactions@,
            ),
    {
        let mut encoded: Vec<u8> = Vec::new();
        transaction.io_serialize(&mut encoded);
        let mut i: usize = 0;
        while i < self.transactions.len()
            invariant
                self.transactions@ == old(self).transactions@,
                self.header == old(self).header,
                encoded@ == transaction.io_bytes(),
                0 <= i <= self.transactions@.len(),
                forall|j: int|
                    0 <= j < i ==> (#[trigger] self.transactions@[j]).io_bytes() != transaction.io_bytes(),
            decreases self.transactions@.len() - i,
        {
            let mut other: Vec<u8> = Vec::new();
            self.transactions[i].io_serialize(&mut other);
            if bytes_eq(&other, &encoded) {
                return Err(ErrorBlock::TransactionAlreadyInBlock);
            }
            i += 1;
        }
        let ghost before = self.transactions@;
        self.transactions.push(transaction);
        proof {
            assert forall|i: int, j: int|
                distinct_encodings(before) && 0 <= i < j < self.transactions@.len() implies (
                #[trigger] self.transactions@[i]).io_bytes() != (
                #[trigger] self.transactions@[j]).io_bytes() by {
                assert(self.transactions@[i] == before[i]);
                if j < before.len() {
                    assert(self.transactions@[j] == before[j]);
                }
            }
        }
        Ok(())
    }

    /// Appends the encoding of this block: the header in internal order, then
    /// the transactions as a list.
    pub fn serialize(&self, stream: &mut Vec<u8>)
        ensures
            final(stream)@ == old(stream)@ + block_bytes(self.header, self.transactions@),
    {
        self.header.io_serialize(stream);
        write_list(&self.transactions, stream);
        assert(final(stream)@ =~= old(stream)@ + block_bytes(self.header, self.transactions@));
    }

    /// Reads a block at `pos`. It succeeds exactly when the encoding of some
    /// header and list of transactions starts there; the header is kept as
    /// read, and a transaction whose encoding came before is kept once.
    pub fn deserialize(data: &[u8], pos: usize) -> (r: Result<(Self, usize), ErrorSerialization>)
        ensures
            r is Ok <==> exists|h: BlockHeader, w: Seq<Transaction>|
                w.len() <= u64::MAX && holds_at(data@, pos as int, #[trigger] block_bytes(h, w)),
            r matches Ok((b, end)) ==> block_read_at(data@, pos as int, b, end as int),
            r matches Err(e) ==> e is ErrorInDeserialization,
    {
        let ghost d = data@;
        let (header, p) = match BlockHeader::io_deserialize(data, pos) {
            Ok(x) => x,
            Err(_) => {
                proof {
                    assert forall|h: BlockHeader, w: Seq<Transaction>|
                        w.len() <= u64::MAX implies !holds_at(d, pos as int, #[trigger] block_bytes(h, w)) by {
                        lemma_holds_at_concat(d, pos as int, h.io_bytes(), list_bytes(w));
                    }
                }
                return Err(ErrorSerialization::ErrorInDeserialization("Block.header".to_string()));
            },
        };
        let (items, end) = match read_list::<Transaction>(data, p) {
            Ok(x) => x,
            Err(_) => {
                proof {
                    assert forall|h: BlockHeader, w: Seq<Transaction>|
                        w.len() <= u64::MAX implies !holds_at(d, pos as int, #[trigger] block_bytes(h, w)) by {
                        lemma_holds_at_concat(d, pos as int, h.io_bytes(), list_bytes(w));
                        if holds_at(d, pos as int, block_bytes(h, w)) {
                            BlockHeader::lemma_io_unique(d, pos as int, header, h);
                        }
                    }
                }
                return Err(ErrorSerialization::ErrorInDeserialization("Block.transactions".to_string()));
            },
        };
        let ghost w = items@;
        let n = items.len();
        // Take the items out in their order: first reverse them, then pop.
        let mut items = items;
        let mut reversed_items: Vec<Transaction> = Vec::new();
        while items.len() > 0
            invariant
                reversed_items@.len() + items@.len() == w.len(),
                items@ == w.subrange(0, items@.len() as int),
                forall|j: int|
                    0 <= j < reversed_items@.len() ==> #[trigger] reversed_items@[j] == w[w.len() - 1
                        - j],
            decreases items@.len(),
        {
            let t = items.pop().unwrap();
            reversed_items.push(t);
            assert(items@ =~= w.subrange(0, items@.len() as int));
        }
        let mut block = Block::new(header);
        let mut i: usize = 0;
        while reversed_items.len() > 0
            invariant
                w.len() == n,
                block.header == header,
                i + reversed_items@.len() == w.len(),
                forall|j: int|
                    0 <= j < reversed_items@.len() ==> #[trigger] reversed_items@[j] == w[w.len() - 1
                        - j],
                block.transactions@ == dedup(w.subrange(0, i as int)),
            decreases reversed_items@.len(),
        {
            let t = reversed_items.pop().unwrap();
            proof {
                assert(t == w[i as int]);
                assert(w.subrange(0, i + 1).drop_last() =~= w.subrange(0, i as int));
                assert(w.subrange(0, i + 1).last() == t);
            }
            match block.append_transaccion(t) {
                Ok(_) | Err(ErrorBlock::TransactionAlreadyInBlock) => {},
            }
            i += 1;
        }
        proof {
            assert(w.subrange(0, w.len() as int) =~= w);
            lemma_holds_at_concat(d, pos as int, header.io_bytes(), list_bytes(w));
            assert(holds_at(d, pos as int, block_bytes(header, w)));
            assert(block.header == header);
            assert(end == pos + block_bytes(header, w).len());
            assert(block.transactions@ == dedup(w));
            assert(holds_at(d, pos as int, block_bytes(block.header, w)));
            assert(block_read_at(d, pos as int, block, end as int));
        }
        Ok((block, end))
    }
}

} // verus!
