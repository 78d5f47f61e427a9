//! The blockchain: an append-only ordered sequence of blocks starting at a
//! genesis block.
use vstd::prelude::*;

use crate::block::{Block, spec_leading_u64};

verus! {

/// An append-only chain of blocks. Only genesis creation and appending are
/// offered: no reorganisation, no fork choice, no deletion.
pub struct Blockchain {
    pub chain: Vec<Block>,
}

impl Blockchain {
    /// What every reachable chain satisfies: it starts at a genesis block,
    /// block `i` carries index `i`, every non-genesis block links to the hash
    /// of its predecessor, and every non-genesis block's hash meets its
    /// proof-of-work target.
    pub open spec fn well_formed(&self) -> bool {
        &&& self.chain@.len() >= 1
        &&& forall|i: int| 0 <= i < self.chain@.len() ==> (#[trigger] self.chain@[i].index) == i
        &&& forall|i: int|
            1 <= i < self.chain@.len() ==> (#[trigger] self.chain@[i].previous_hash)@
                == self.chain@[i - 1].hash@
        &&& forall|i: int|
            1 <= i < self.chain@.len() ==> spec_leading_u64((#[trigger] self.chain@[i].hash)@)
                <= self.chain@[i].target
    }

    /// The index of the last block of the chain.
    pub fn get_height(&self) -> (r: u32)
        requires
            self.well_formed(),
        ensures
            r == self.chain@.len() - 1,
            r == self.chain@.last().index,
    {
        self.chain[self.chain.len() - 1].index
    }

    /// The hash of the last block of the chain.
    pub fn get_current_hash(&self) -> (r: [u8; 32])
        requires
            self.chain@.len() >= 1,
        ensures
            r == self.chain@.last().hash,
    {
        self.chain[self.chain.len() - 1].hash
    }

    /// Appends a candidate block. The caller extends the chain consistently:
    /// the candidate continues the index sequence, links to the current tip,
    /// and meets its proof-of-work target.
    pub fn add_block(&mut self, candidate_block: Block)
        requires
            old(self).well_formed(),
            candidate_block.index == old(self).chain@.len(),
            candidate_block.previous_hash@ == old(self).chain@.last().hash@,
            spec_leading_u64(candidate_block.hash@) <= candidate_block.target,
        ensures
            final(self).well_formed(),
            final(self).chain@ == old(self).chain@.push(candidate_block),
    {
        self.chain.push(candidate_block);
    }

    /// A chain holding only the given genesis block.
    pub fn create_from_genesis(genesis: Block) -> (r: Blockchain)
        requires
            genesis.index == 0,
        ensures
            r.well_formed(),
            r.chain@ == seq![genesis],
    {
        let mut chain = Vec::new();
        chain.push(genesis);
        proof {
            assert(chain@ =~= seq![genesis]);
        }
        Blockchain { chain }
    }

    /// Chain monotonicity and proof-of-work validity: in a well-formed chain
    /// the block at position `i` carries index `i`, and every non-genesis
    /// block links to its predecessor's hash and has a hash whose leading
    /// 64 bits are bounded by its target.
    pub proof fn lemma_chain_invariants(&self, i: int)
        requires
            self.well_formed(),
            0 <= i < self.chain@.len(),
        ensures
            self.chain@[i].index == i,
            i >= 1 ==> self.chain@[i].previous_hash@ == self.chain@[i - 1].hash@,
            i >= 1 ==> spec_leading_u64(self.chain@[i].hash@) <= self.chain@[i].target,
    {
    }
}

} // verus!
