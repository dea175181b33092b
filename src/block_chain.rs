//! The locally accepted chain of blocks.

use vstd::prelude::*;

use crate::block::Block;
use crate::block_header::header_hash;
use crate::hash::hash_eq;

verus! {

/// Why a block was not accepted onto the chain.
#[derive(Debug, Clone, Copy, PartialEq, Eq, Structural)]
pub enum ErrorBlockChain {
    /// The block does not name the chain's last block as its predecessor.
    NotLinkedToTip,
    /// The block's hash is not below its target.
    InvalidProofOfWork,
    /// The block's transactions do not give its stored Merkle root.
    InvalidProofOfInclusion,
}

/// A non-empty sequence of blocks, each naming the hash of the one before.
pub struct BlockChain {
    pub blocks: Vec<Block>,
}

impl BlockChain {
    /// The chain has a first block and each later block names its predecessor.
    pub open spec fn wf(&self) -> bool {
        &&& self.blocks@.len() >= 1
        &&& forall|i: int|
            1 <= i < self.blocks@.len() ==> (#[trigger] self.blocks@[i]).header.previous_block_header_hash@
                == header_hash(self.blocks@[i - 1].header)
    }

    /// Whether `block` names the last block's hash as its predecessor, has
    /// proof of work and includes its transactions.
    pub open spec fn accepts(&self, block: Block) -> bool {
        &&& block.header.previous_block_header_hash@ == header_hash(self.blocks@.last().header)
        &&& block.header.spec_proof_of_work()
        &&& block.header.spec_proof_of_inclusion(block.transactions@)
    }

    /// A chain that starts at `first`.
    pub fn new(first: Block) -> (r: BlockChain)
        ensures
            r.wf(),
            r.blocks@ == seq![first],
    {
        let blocks = vec![first];
        assert(blocks@ =~= seq![first]);
        BlockChain { blocks }
    }

    /// Whether the chain is non-empty and each block names its predecessor.
    pub fn is_linked(&self) -> (r: bool)
        ensures
            r == self.wf(),
    {
        if self.blocks.len() == 0 {
            return false;
        }
        let mut i: usize = 1;
        while i < self.blocks.len()
            invariant
                1 <= i <= self.blocks@.len(),
                forall|j: int|
                    1 <= j < i ==> (#[trigger] self.blocks@[j]).header.previous_block_header_hash@
                        == header_hash(self.blocks@[j - 1].header),
            decreases self.blocks@.len() - i,
        {
            let h = match self.blocks[i - 1].header.get_hash256d() {
                Ok(h) => h,
                Err(_) => return false,
            };
            if !hash_eq(&h, &self.blocks[i].header.previous_block_header_hash) {
                return false;
            }
            i += 1;
        }
        true
    }

    /// The index of the last block.
    pub fn best_height(&self) -> (r: usize)
        requires
            self.wf(),
        ensures
            r == self.blocks@.len() - 1,
    {
        self.blocks.len() - 1
    }

    /// The last block.
    pub fn latest(&self) -> (r: &Block)
        requires
            self.wf(),
        ensures
            *r == self.blocks@.last(),
    {
        &self.blocks[self.blocks.len() - 1]
    }

    /// Accepts `block` on top of the chain when it names the last block's
    /// hash as its predecessor, has proof of work and includes its
    /// transactions; the checks are made in that order.
    pub fn append_block(&mut self, block: Block) -> (r: Result<(), ErrorBlockChain>)
        requires
            old(self).wf(),
        ensures
            final(self).wf(),
            ({
                let linked = block.header.previous_block_header_hash@ == header_hash(
                    old(self).blocks@.last().header,
                );
                let work = block.header.spec_proof_of_work();
                let inclusion = block.header.spec_proof_of_inclusion(block.transactions@);
                &&& !linked ==> r == Err::<(), ErrorBlockChain>(ErrorBlockChain::NotLinkedToTip)
                &&& linked && !work ==> r == Err::<(), ErrorBlockChain>(
                    ErrorBlockChain::InvalidProofOfWork,
                )
                &&& linked && work && !inclusion ==> r == Err::<(), ErrorBlockChain>(
                    ErrorBlockChain::InvalidProofOfInclusion,
                )
                &&& linked && work && inclusion ==> r is Ok
            }),
            r is Ok <==> old(self).accepts(block),
            r is Ok ==> final(self).blocks@ == old(self).blocks@.push(block),
            r is Err ==> final(self).blocks@ == old(self).blocks@,
    {
        let tip_hash = match self.blocks[self.blocks.len() - 1].header.get_hash256d() {
            Ok(h) => h,
            Err(_) => return Err(ErrorBlockChain::NotLinkedToTip),
        };
        if !hash_eq(&tip_hash, &block.header.previous_block_header_hash) {
            return Err(ErrorBlockChain::NotLinkedToTip);
        }
        if !block.header.proof_of_work() {
            return Err(ErrorBlockChain::InvalidProofOfWork);
        }
        if !block.proof_of_inclusion() {
            return Err(ErrorBlockChain::InvalidProofOfInclusion);
        }
        let ghost before = self.blocks@;
        self.blocks.push(block);
        proof {
            assert forall|i: int|
                1 <= i < self.blocks@.len() implies (#[trigger] self.blocks@[i]).header.previous_block_header_hash@
                == header_hash(self.blocks@[i - 1].header) by {
                if i < before.len() {
                    assert(self.blocks@[i] == before[i]);
                }
                assert(self.blocks@[i - 1] == before[i - 1]);
            }
        }
        Ok(())
    }
}

} // verus!
