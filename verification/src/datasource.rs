use vstd::prelude::*;

verus! {

/// Where a block comes from: the tier of the storage engine that hands it on.
#[derive(Debug, Clone, Copy)]
pub enum DataSource {
    RingBuffer,
    MemTable,
    SSTable,
}

} // verus!
