//! The chain container: an append-only list of blocks whose first entry
//! is the mined genesis block.

use vstd::prelude::*;
use vstd::string::StringExecFns;
use crate::block::{Block, block_hash, hash_record};
use crate::dec::Dec;
use crate::mining::{MiningResult, genesis_leaves, mine_genesis};
use crate::subdivision::{FractalAddress, leaves, lemma_leaves_count, pow4};
use crate::triangle::{
    area_below, genesis_triangle, genesis_triangle_s, lemma_genesis_unit, lemma_subdivide_unit,
    subdivide_r,
};

verus! {

/// The threshold the genesis block is mined under: one, generous enough
/// that the very first depth-one leaf qualifies.
pub open spec fn genesis_threshold_s() -> Dec {
    Dec { mantissa: 1, scale: 0 }
}

/// The genesis mining result is lawful: the first depth-one leaf whose
/// area is below the genesis threshold or, were none to qualify, the
/// first leaf outright.
pub open spec fn genesis_pick_ok(mr: MiningResult) -> bool {
    ||| exists|i: int|
        {
            &&& 0 <= i < genesis_leaves(1).len()
            &&& #[trigger] area_below(genesis_leaves(1)[i].0, genesis_threshold_s())
            &&& mr.triangle == genesis_leaves(1)[i].0
            &&& mr.address@ == genesis_leaves(1)[i].1
            &&& forall|j: int|
                0 <= j < i ==> !area_below(#[trigger] genesis_leaves(1)[j].0, genesis_threshold_s())
        }
    ||| {
        &&& (forall|i: int|
            0 <= i < genesis_leaves(1).len() ==> !area_below(
                #[trigger] genesis_leaves(1)[i].0,
                genesis_threshold_s(),
            ))
        &&& mr.triangle == genesis_leaves(1)[0].0
        &&& mr.address@ == genesis_leaves(1)[0].1
    }
}

/// A lawful genesis block: index zero, no transactions, the root marker
/// as predecessor, a seal that matches the record, and a lawful mining
/// result.
pub open spec fn genesis_block_wf(b: Block) -> bool {
    &&& b.index == 0
    &&& b.transactions@.len() == 0
    &&& b.previous_hash@ == seq!['0']
    &&& b.hash@ == block_hash(b)
    &&& genesis_pick_ok(b.mining_result)
}

/// Relies on std::time::SystemTime::now and duration_since: the whole
/// seconds since the epoch, or zero for a clock before it. Nothing more
/// is promised of the clock.
#[verifier::external_body]
fn now_secs() -> u64 {
    match std::time::SystemTime::now().duration_since(std::time::UNIX_EPOCH) {
        Ok(d) => d.as_secs(),
        Err(_) => 0,
    }
}

/// An append-only list of blocks; entry zero is the genesis block.
pub struct Blockchain {
    pub blocks: Vec<Block>,
}

impl Blockchain {
    /// Builds a chain holding only a freshly mined, sealed genesis block.
    pub fn new() -> (r: Blockchain)
        ensures
            r.blocks@.len() == 1,
            genesis_block_wf(r.blocks@[0]),
    {
        let mining_result = match mine_genesis(1, Dec { mantissa: 1, scale: 0 }) {
            Some(m) => m,
            None => Self::first_leaf(),
        };
        let timestamp = now_secs();
        proof {
            reveal_strlit("0");
        }
        let mut block = Block {
            index: 0,
            timestamp,
            transactions: Vec::new(),
            previous_hash: String::from_str("0"),
            hash: String::new(),
            mining_result,
        };
        let ghost before = block;
        let sealed = block.calculate_hash();
        block.hash = sealed;
        proof {
            assert(hash_record(block) =~= hash_record(before));
            assert(block.previous_hash@ =~= seq!['0']);
        }
        Blockchain { blocks: vec![block] }
    }

    /// The first depth-one leaf of the canonical expansion, with its
    /// address: the fallback pick should no leaf pass the threshold.
    fn first_leaf() -> (r: MiningResult)
        ensures
            r.triangle == genesis_leaves(1)[0].0,
            r.address@ == genesis_leaves(1)[0].1,
    {
        let root = genesis_triangle();
        proof {
            lemma_genesis_unit();
            lemma_subdivide_unit(genesis_triangle_s(), 11);
        }
        let children = root.subdivide();
        let mut digits: Vec<u8> = Vec::new();
        digits.push(0);
        proof {
            let c = subdivide_r(genesis_triangle_s());
            let l0 = leaves(c[0], 0, Seq::<u8>::empty().push(0));
            let l1 = leaves(c[1], 0, Seq::<u8>::empty().push(1));
            let l2 = leaves(c[2], 0, Seq::<u8>::empty().push(2));
            let l3 = leaves(c[3], 0, Seq::<u8>::empty().push(3));
            assert(genesis_leaves(1) == l0 + l1 + l2 + l3);
            assert(l0 == seq![(c[0], Seq::<u8>::empty().push(0))]);
            assert(genesis_leaves(1)[0] == (c[0], Seq::<u8>::empty().push(0)));
            assert(digits@ =~= Seq::<u8>::empty().push(0));
        }
        MiningResult { address: FractalAddress(digits), triangle: children[0] }
    }

    /// Appends a block unconditionally; validation is the caller's duty.
    pub fn add_block(&mut self, new_block: Block)
        ensures
            final(self).blocks@ == old(self).blocks@.push(new_block),
    {
        self.blocks.push(new_block);
    }
}

} // verus!
