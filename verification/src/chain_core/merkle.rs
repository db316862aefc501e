use vstd::prelude::*;
use crate::chain_core::block::Block;

verus! {

pub struct MerkleTree {
    pub root: Block,
    pub nodes: Vec<Block>,
    pub size: usize,
    pub capacity: usize,
}

} // verus!
