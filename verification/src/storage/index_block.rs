use vstd::prelude::*;

verus! {

#[derive(Debug, Clone)]
pub struct IndexBlock {
    pub index: [u8; 8],
    pub hashed_data: [u8; 16],
    pub offset: usize,
}

impl IndexBlock {
    /// An index entry with every field zero.
    pub fn new() -> (block: IndexBlock)
        ensures
            block.index@ == Seq::new(8, |i: int| 0u8),
            block.hashed_data@ == Seq::new(16, |i: int| 0u8),
            block.offset == 0,
    {
        let block = IndexBlock { index: [0; 8], hashed_data: [0; 16], offset: 0 };
        proof {
            assert(block.index@ =~= Seq::new(8, |i: int| 0u8));
            assert(block.hashed_data@ =~= Seq::new(16, |i: int| 0u8));
        }
        block
    }
}

} // verus!
