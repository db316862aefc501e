use vstd::prelude::*;
use crate::chain_core::skip_list::{
    SkipList, SkipListOps, CAPACITY, MAX_LEVEL, with_inserted, placed_node, scan_stop, bit_set,
};

verus! {

pub struct MemTable {
    /// stores 10 ringbuffers worth data
    pub blocks: SkipList,
    pub last_flushed: i64,
}

pub trait MemTableOps: Sized {
    /// The table can take another block without a flush.
    spec fn has_room(&self) -> bool;

    fn new() -> Self;

    fn add(&mut self, phone_number: &[u8; 16], tombstone_marker: bool) -> (inserted: bool)
        requires
            old(self).has_room(),
    ;
}

impl MemTableOps for MemTable {
    open spec fn has_room(&self) -> bool {
        self.blocks.well_formed() && self.blocks.occupied() < CAPACITY
    }

    /// An empty table over an empty skip list, never flushed.
    fn new() -> (table: Self)
        ensures
            forall|i: int| 0 <= i < MAX_LEVEL ==> table.blocks.heads@[i] == usize::MAX,
            forall|k: int| 0 <= k < CAPACITY ==> table.blocks.blocks@[k] is None,
            table.blocks.occupied() == 0,
            table.last_flushed == 0,
            table.has_room(),
    {
        MemTable { blocks: SkipList::_new(), last_flushed: 0 }
    }

    /// Adds the hashed phone number to the skip list, in order of data.
    fn add(&mut self, phone_number: &[u8; 16], tombstone_marker: bool) -> (inserted: bool)
        ensures
            inserted,
            final(self).last_flushed == old(self).last_flushed,
            final(self).blocks.heads == old(self).blocks.heads,
            exists|level: nat|
                1 <= level <= MAX_LEVEL && final(self).blocks.blocks@ == with_inserted(
                    old(self).blocks.blocks@,
                    scan_stop(old(self).blocks.blocks@, 0, phone_number@),
                    #[trigger] placed_node(
                        *phone_number,
                        tombstone_marker,
                        level,
                        scan_stop(old(self).blocks.blocks@, 0, phone_number@),
                        old(self).blocks.heads@,
                    ),
                ) && forall|b: u8|
                    b < 4 ==> (#[trigger] bit_set(
                        final(self).blocks.blocks@[scan_stop(
                            old(self).blocks.blocks@,
                            0,
                            phone_number@,
                        )]->Some_0.layer_next@[0] >> 4u8,
                        b,
                    ) <==> b < level),
            final(self).blocks.well_formed(),
            final(self).blocks.occupied() == old(self).blocks.occupied() + 1,
    {
        self.blocks.add(phone_number, tombstone_marker)
    }
}

} // verus!
