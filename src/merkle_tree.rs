//! Merkle trees over a block's transactions.

use vstd::prelude::*;

use crate::hash::{hash256d, sha256d_of, HashType};
use crate::serialization::SerializableBigEndian;
use crate::transaction::Transaction;
use crate::serialization::SerializableInternalOrder;

verus! {

/// The next layer up: each pair of neighbours is hashed together; a last
/// node without a neighbour is paired with itself.
pub open spec fn merkle_level(hs: Seq<Seq<u8>>) -> Seq<Seq<u8>> {
    Seq::new(
        ((hs.len() + 1) / 2) as nat,
        |i: int|
            sha256d_of(
                hs[2 * i] + if 2 * i + 1 < hs.len() {
                    hs[2 * i + 1]
                } else {
                    hs[2 * i]
                },
            ),
    )
}

/// The root over a layer of node hashes: a single node is its own root.
pub open spec fn merkle_root(hs: Seq<Seq<u8>>) -> Seq<u8>
    decreases hs.len(),
{
    if hs.len() == 0 {
        Seq::empty()
    } else if hs.len() == 1 {
        hs[0]
    } else {
        merkle_root(merkle_level(hs))
    }
}

/// The identifiers of a list of transactions, in order.
pub open spec fn tx_ids(txs: Seq<Transaction>) -> Seq<Seq<u8>> {
    Seq::new(txs.len(), |i: int| sha256d_of(txs[i].io_bytes()))
}

pub open spec fn hash_views(hs: Seq<HashType>) -> Seq<Seq<u8>> {
    Seq::new(hs.len(), |i: int| hs[i]@)
}

/// Why a tree could not be built.
#[derive(Debug, Clone, Copy, PartialEq, Eq, Structural)]
pub enum ErrorMerkleTree {
    NoTransactions,
}

/// A Merkle tree over at least one transaction: its leaves are the
/// transaction identifiers.
pub struct MerkleTree {
    pub leaves: Vec<HashType>,
    pub root: HashType,
}

/// Hashes each pair of neighbours of `level`.
fn next_level(level: &Vec<HashType>) -> (r: Vec<HashType>)
    requires
        level@.len() >= 1,
    ensures
        hash_views(r@) == merkle_level(hash_views(level@)),
        r@.len() == (level@.len() + 1) / 2,
{
    let n = level.len();
    let half = n / 2 + n % 2;
    let mut out: Vec<HashType> = Vec::new();
    let mut k: usize = 0;
    while k < half
        invariant
            n == level@.len(),
            half == (n + 1) / 2,
            k <= half,
            out@.len() == k,
            forall|j: int|
                0 <= j < out@.len() ==> #[trigger] out@[j]@ == merkle_level(hash_views(level@))[j],
        decreases half - k,
    {
        let i = 2 * k;
        let left = level[i];
        let right = if i < n - 1 {
            level[i + 1]
        } else {
            level[i]
        };
        let mut buffer: Vec<u8> = Vec::new();
        left.be_serialize(&mut buffer);
        right.be_serialize(&mut buffer);
        let parent = hash256d(buffer.as_slice());
        proof {
            assert(buffer@ =~= left@ + right@);
            assert(hash_views(level@)[i as int] == left@);
            assert(i + 1 < n ==> hash_views(level@)[i + 1] == right@);
        }
        out.push(parent);
        k += 1;
    }
    assert(hash_views(out@) =~= merkle_level(hash_views(level@)));
    out
}

impl MerkleTree {
    /// Builds the tree over `transactions`; there must be at least one.
    pub fn new(transactions: &[Transaction]) -> (r: Result<MerkleTree, ErrorMerkleTree>)
        ensures
            transactions@.len() == 0 <==> r is Err,
            r matches Ok(t) ==> hash_views(t.leaves@) == tx_ids(transactions@) && t.root@
                == merkle_root(tx_ids(transactions@)),
    {
        if transactions.len() == 0 {
            return Err(ErrorMerkleTree::NoTransactions);
        }
        let mut leaves: Vec<HashType> = Vec::new();
        let mut level: Vec<HashType> = Vec::new();
        let mut i: usize = 0;
        while i < transactions.len()
            invariant
                i <= transactions@.len(),
                leaves@.len() == i,
                level@ == leaves@,
                forall|j: int|
                    0 <= j < i ==> #[trigger] leaves@[j]@ == sha256d_of(transactions@[j].io_bytes()),
            decreases transactions@.len() - i,
        {
            let id = transactions[i].get_tx_id();
            leaves.push(id);
            level.push(id);
            i += 1;
        }
        assert(hash_views(leaves@) =~= tx_ids(transactions@));
        while level.len() > 1
            invariant
                level@.len() >= 1,
                merkle_root(hash_views(level@)) == merkle_root(tx_ids(transactions@)),
            decreases level@.len(),
        {
            level = next_level(&level);
        }
        let root = level[0];
        Ok(MerkleTree { leaves, root })
    }

    pub fn get_root(&self) -> (r: HashType)
        ensures
            r == self.root,
    {
        self.root
    }
}

} // verus!
