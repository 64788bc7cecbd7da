//! Pure chain rules: pairwise block validation and the cumulative
//! complexity score of a chain.

use vstd::prelude::*;
use crate::block::{Block, block_hash};

verus! {

/// The ways a candidate block can fail against its predecessor, in the
/// order the checks run.
#[derive(Debug, Clone, Copy, PartialEq, Eq, Structural)]
pub enum BlockValidationError {
    InvalidIndex,
    InvalidPreviousHash,
    InvalidHash,
}

/// The validation outcome: the first failing test decides, in the
/// order index, link, seal.
pub open spec fn spec_validate(b: Block, p: Block) -> Result<(), BlockValidationError> {
    if b.index as int != p.index as int + 1 {
        Err(BlockValidationError::InvalidIndex)
    } else if b.previous_hash@ != p.hash@ {
        Err(BlockValidationError::InvalidPreviousHash)
    } else if b.hash@ != block_hash(b) {
        Err(BlockValidationError::InvalidHash)
    } else {
        Ok(())
    }
}

/// The sum of the mining-address lengths over a chain: the total
/// subdivision depth reached, a proxy for cumulative work.
pub open spec fn spec_score(chain: Seq<Block>) -> int
    decreases chain.len(),
{
    if chain.len() == 0 {
        0
    } else {
        spec_score(chain.drop_last()) + chain.last().mining_result.address@.len()
    }
}

pub broadcast proof fn lemma_score_nonneg(chain: Seq<Block>)
    ensures
        #[trigger] spec_score(chain) >= 0,
    decreases chain.len(),
{
    if chain.len() > 0 {
        lemma_score_nonneg(chain.drop_last());
    }
}

/// A prefix never scores more than the whole chain.
proof fn lemma_score_prefix(chain: Seq<Block>, i: int)
    requires
        0 <= i <= chain.len(),
    ensures
        spec_score(chain.subrange(0, i)) <= spec_score(chain),
    decreases chain.len() - i,
{
    if i == chain.len() {
        assert(chain.subrange(0, i) =~= chain);
    } else {
        lemma_score_prefix(chain, i + 1);
        assert(chain.subrange(0, i + 1).drop_last() =~= chain.subrange(0, i));
        assert(spec_score(chain.subrange(0, i + 1)) == spec_score(chain.subrange(0, i))
            + chain.subrange(0, i + 1).last().mining_result.address@.len());
    }
}

/// Appending a block never decreases the complexity score: the new
/// score is the old one plus the new block's address length.
pub proof fn lemma_complexity_monotonic(chain: Seq<Block>, b: Block)
    ensures
        spec_score(chain.push(b)) >= spec_score(chain),
        spec_score(chain.push(b)) == spec_score(chain) + b.mining_result.address@.len(),
{
    assert(chain.push(b).drop_last() =~= chain);
}

/// The default consensus rules.
pub struct DefaultConsensus;

impl DefaultConsensus {
    /// Validates a block against its predecessor: the index must step by
    /// one, the link must name the predecessor's hash, and the stored
    /// hash must match the recomputed one; the first failing check is
    /// reported.
    pub fn validate_block(&self, block: &Block, previous_block: &Block) -> (r: Result<
        (),
        BlockValidationError,
    >)
        ensures
            r == spec_validate(*block, *previous_block),
    {
        if previous_block.index == u64::MAX || block.index != previous_block.index + 1 {
            return Err(BlockValidationError::InvalidIndex);
        }
        if !(block.previous_hash == previous_block.hash) {
            return Err(BlockValidationError::InvalidPreviousHash);
        }
        let recomputed = block.calculate_hash();
        if !(block.hash == recomputed) {
            return Err(BlockValidationError::InvalidHash);
        }
        Ok(())
    }

    /// The complexity score of a chain: the summed address lengths.
    pub fn chain_complexity_score(&self, chain: &Vec<Block>) -> (r: u64)
        requires
            spec_score(chain@) <= u64::MAX,
        ensures
            r as int == spec_score(chain@),
    {
        let mut acc: u64 = 0;
        let mut i: usize = 0;
        while i < chain.len()
            invariant
                i <= chain.len(),
                spec_score(chain@) <= u64::MAX,
                acc as int == spec_score(chain@.subrange(0, i as int)),
            decreases chain.len() - i,
        {
            proof {
                lemma_score_prefix(chain@, i + 1);
                lemma_score_nonneg(chain@.subrange(0, i as int));
                assert(chain@.subrange(0, i + 1).drop_last() =~= chain@.subrange(0, i as int));
                assert(chain@.subrange(0, i + 1).last() == chain@[i as int]);
            }
            acc = acc + chain[i].mining_result.address.0.len() as u64;
            i = i + 1;
        }
        proof {
            assert(chain@.subrange(0, chain@.len() as int) =~= chain@);
        }
        acc
    }
}

/// Whether a block is valid against its predecessor.
pub fn validate_block(block: &Block, previous_block: &Block) -> (r: bool)
    ensures
        r == (spec_validate(*block, *previous_block) == Ok::<(), BlockValidationError>(())),
{
    DefaultConsensus.validate_block(block, previous_block).is_ok()
}

} // verus!
