use vstd::prelude::*;

verus! {

#[derive(Debug, Clone)]
pub struct Block {
    pub id: [u8; 16],
    pub timestamp: i64,
    pub data: Vec<u8>,
    pub hash: usize,
    pub prev_hash: [u8; 16],
    pub signature: [u8; 16],
}

pub struct OneChain {
    pub blocks: Vec<Block>,
    pub created_at: i64,
}

} // verus!
