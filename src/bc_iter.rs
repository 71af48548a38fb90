//! A walk over a chain from a given block back towards genesis, following
//! each block's link to its predecessor.
use vstd::prelude::*;
use crate::block::{Block, BlockView};
use crate::block_chain::BlockChain;
use crate::functions::bytes_equal;

verus! {

/// The newest position in `bs` of a block with hash `h`, searching the first
/// `n` blocks.
pub open spec fn newest_with_hash(bs: Seq<BlockView>, h: Seq<u8>, n: int) -> Option<int>
    decreases n,
{
    if n <= 0 {
        None
    } else if bs[n - 1].hash == h {
        Some(n - 1)
    } else {
        newest_with_hash(bs, h, n - 1)
    }
}

/// A position in a chain's walk back towards genesis.
pub struct BlockchainIterator<'a> {
    pub current_hash: Vec<u8>,
    pub chain: &'a BlockChain,
}

impl<'a> BlockchainIterator<'a> {
    /// A walk over `chain` that starts at the block with hash `start_hash`.
    pub fn new(chain: &'a BlockChain, start_hash: Vec<u8>) -> (r: BlockchainIterator<'a>)
        ensures
            r.chain == chain,
            r.current_hash@ == start_hash@,
    {
        BlockchainIterator { current_hash: start_hash, chain }
    }

    /// The block at the current hash, after which the walk moves to its
    /// predecessor; `None`, with nothing changed, where the chain holds no
    /// block with that hash (past genesis, whose link is empty).
    pub fn next(&mut self) -> (r: Option<Block>)
        ensures
            final(self).chain == old(self).chain,
            match newest_with_hash(old(self).chain@, old(self).current_hash@, old(self).chain@.len() as int) {
                Some(k) => r matches Some(b) && b@ == old(self).chain@[k]
                    && final(self).current_hash@ == old(self).chain@[k].previous_block_hash,
                None => r is None && final(self).current_hash@ == old(self).current_hash@,
            },
    {
        let blocks = self.chain.blocks();
        let ghost bs = self.chain@;
        let mut k: usize = blocks.len();
        while k > 0
            invariant
                k <= blocks@.len(),
                bs == crate::block_chain::blocks_view(blocks@),
                bs == self.chain@,
                self.chain == old(self).chain,
                self.current_hash@ == old(self).current_hash@,
                newest_with_hash(bs, self.current_hash@, bs.len() as int) == newest_with_hash(bs, self.current_hash@, k as int),
            decreases k,
        {
            let b = &blocks[k - 1];
            assert(bs[k - 1] == b@);
            if bytes_equal(&b.hash, &self.current_hash) {
                let found = b.copy();
                self.current_hash = b.previous_block_hash.clone();
                return Some(found);
            }
            k = k - 1;
        }
        None
    }
}

impl BlockChain {
    /// A walk from the tip back to genesis.
    pub fn iterator(&self) -> (r: BlockchainIterator<'_>)
        ensures
            r.chain == self,
            self@.len() > 0 ==> r.current_hash@ == self@.last().hash,
    {
        BlockchainIterator::new(self, self.tip())
    }
}

} // verus!
