use vstd::prelude::*;
use crate::bits::{bit_is_set, with_bit_set, xor_bytes, lemma_with_bit_set};
use crate::chain_core::block::{sha256, now_millis};

verus! {

/// Default hasher for the linked list: the first 16 bytes of the SHA-256 digest.
pub fn sha_hash(data: &[u8; 10]) -> (hash: [u8; 16])
    ensures
        sha256(data@).len() == 32,
        hash@ == sha256(data@).take(16),
{
    crate::chain_core::block::sha_hash(data)
}

/// Node struct for building hand-rolled linked list.
#[derive(Debug, Clone, Copy)]
pub struct Block {
    pub data: [u8; 16],
    pub timestamp: i64,
    pub next: Option<usize>,
}

impl Block {
    /// A block for a phone number made at time `timestamp` (milliseconds): its data is
    /// the number's hash and it links nowhere.
    pub fn new_at(phone_number: [u8; 10], timestamp: i64) -> (block: Block)
        ensures
            block.data@ == sha256(phone_number@).take(16),
            block.next is None,
            block.timestamp == timestamp,
    {
        let hash: [u8; 16] = sha_hash(&phone_number);
        Block { data: hash, next: None, timestamp }
    }

    /// A block for a phone number, made now: `new_at` with the clock's time.
    pub fn new(phone_number: [u8; 10]) -> (block: Block)
        ensures
            block.data@ == sha256(phone_number@).take(16),
            block.next is None,
    {
        let now = now_millis();
        Block::new_at(phone_number, now)
    }
}

pub struct BlockRingBuffer {
    pub cumulative_hash: [u8; 16],
    pub bitmap: [u8; 13],
    /// fixed length array of blocks
    pub blocks: [Option<Block>; 100],
    pub head: Option<usize>,
    pub tail: Option<usize>,
    pub size: usize,
    pub capacity: usize,
}

/// The block with its link set to `next`.
pub open spec fn linked_to(block: Block, next: usize) -> Block {
    Block { data: block.data, timestamp: block.timestamp, next: Some(next) }
}

pub trait BlockRingBufferOps {
    /// The buffer's fields agree with each other.
    spec fn well_formed(&self) -> bool;

    fn new() -> BlockRingBuffer;

    fn add(&mut self, phone_number: [u8; 10])
        requires
            old(self).well_formed(),
    ;

    fn length(&self) -> usize;
}

impl BlockRingBufferOps for BlockRingBuffer {
    /// The buffer holds `size` blocks in slots `0..size`, head at slot 0, tail at the
    /// last slot written; the bitmap marks exactly the occupied slots; an empty buffer
    /// has a zero cumulative hash.
    open spec fn well_formed(&self) -> bool {
        &&& self.capacity == 100
        &&& self.size <= 100
        &&& (self.size == 0) == (self.head is None)
        &&& (self.size == 0) == (self.tail is None)
        &&& self.head is Some ==> self.head->Some_0 == 0
        &&& self.tail is Some ==> self.tail->Some_0 < 100
        &&& 0 < self.size < 100 ==> self.tail == Some((self.size - 1) as usize)
        &&& forall|i: int| 0 <= i < 100 ==> ((#[trigger] self.blocks@[i]) is Some <==> i < self.size)
        &&& forall|i: int| 0 <= i < 104 ==> (#[trigger] bit_is_set(self.bitmap@, i) <==> i < self.size)
        &&& self.size == 0 ==> forall|k: int| 0 <= k < 16 ==> #[trigger] self.cumulative_hash@[k] == 0u8
    }

    fn new() -> (buffer: Self)
        ensures
            buffer.well_formed(),
            buffer.size == 0,
            buffer.capacity == 100,
            buffer.head is None,
            buffer.tail is None,
            buffer.cumulative_hash@ == Seq::new(16, |k: int| 0u8),
            buffer.bitmap@ == Seq::new(13, |k: int| 0u8),
            buffer.blocks@ == Seq::new(100, |k: int| None::<Block>),
    {
        let buffer = BlockRingBuffer {
            cumulative_hash: [0; 16],
            bitmap: [0; 13],
            blocks: [None; 100],
            head: None,
            tail: None,
            size: 0,
            capacity: 100,
        };
        proof {
            assert(buffer.cumulative_hash@ =~= Seq::new(16, |k: int| 0u8));
            assert(buffer.bitmap@ =~= Seq::new(13, |k: int| 0u8));
            assert(buffer.blocks@ =~= Seq::new(100, |k: int| None::<Block>));
            assert forall|i: int| 0 <= i < 104 implies !bit_is_set(buffer.bitmap@, i) by {
                assert(buffer.bitmap@[i / 8] == 0u8);
                let s = (i % 8) as u8;
                assert((0u8 >> s) & 1u8 == 0u8) by (bit_vector);
            }
        }
        buffer
    }

    /// Appends a block for the phone number after the tail, wrapping round to slot 0
    /// after the last slot, marks its slot in the bitmap and folds its hash into the
    /// cumulative hash.
    fn add(&mut self, phone_number: [u8; 10])
        ensures
            final(self).well_formed(),
            final(self).capacity == old(self).capacity,
            final(self).size == if old(self).size < 100 { old(self).size + 1 } else { 100 },
            final(self).cumulative_hash@ == xor_bytes(old(self).cumulative_hash@, sha256(phone_number@).take(16)),
            final(self).head == Some(0usize),
            old(self).size == 0 ==> {
                &&& final(self).tail == Some(0usize)
                &&& final(self).bitmap@ == with_bit_set(old(self).bitmap@, 0)
                &&& final(self).blocks@ == old(self).blocks@.update(0, final(self).blocks@[0])
            },
            old(self).size > 0 ==> {
                let tail = old(self).tail->Some_0;
                let new_tail = (tail + 1) % 100;
                let tail_block = old(self).blocks@[tail as int]->Some_0;
                &&& final(self).tail == Some(new_tail as usize)
                &&& final(self).bitmap@ == with_bit_set(old(self).bitmap@, new_tail)
                &&& final(self).blocks@ == old(self).blocks@.update(tail as int, Some(linked_to(tail_block, new_tail as usize))).update(
                    new_tail,
                    final(self).blocks@[new_tail],
                )
            },
            ({
                let slot = final(self).tail->Some_0;
                let block = final(self).blocks@[slot as int]->Some_0;
                &&& final(self).blocks@[slot as int] is Some
                &&& block.data@ == sha256(phone_number@).take(16)
                &&& block.next is None
            }),
    {
        let new_block = Block::new(phone_number);
        if self.size == 0 {
            self.head = Some(0);
            self.tail = Some(0);
            self.blocks[0] = Some(new_block);
            self.size = self.size + 1;
            self.bitmap[0] = self.bitmap[0] | 1;
            self.cumulative_hash = sha_hash(&phone_number);
            proof {
                assert(self.bitmap@ =~= with_bit_set(old(self).bitmap@, 0)) by {
                    assert((1u8 << 0u8) == 1u8) by (bit_vector);
                }
                assert forall|i: int| 0 <= i < 104 implies (bit_is_set(self.bitmap@, i) <==> i < self.size) by {
                    lemma_with_bit_set(old(self).bitmap@, 0, i);
                }
                assert(self.cumulative_hash@ =~= xor_bytes(old(self).cumulative_hash@, sha256(phone_number@).take(16))) by {
                    assert forall|k: int| 0 <= k < 16 implies self.cumulative_hash@[k] == #[trigger] (old(self).cumulative_hash@[k] ^ sha256(phone_number@).take(16)[k]) by {
                        let h = sha256(phone_number@).take(16)[k];
                        assert(old(self).cumulative_hash@[k] == 0u8);
                        assert(0u8 ^ h == h) by (bit_vector);
                    }
                }
            }
        } else {
            let hashed = sha_hash(&phone_number);
            let mut k: usize = 0;
            while k < 16
                invariant
                    k <= 16,
                    self.cumulative_hash@.len() == 16,
                    hashed@ == sha256(phone_number@).take(16),
                    forall|j: int| 0 <= j < k ==> self.cumulative_hash@[j] == old(self).cumulative_hash@[j] ^ hashed@[j],
                    forall|j: int| k <= j < 16 ==> self.cumulative_hash@[j] == old(self).cumulative_hash@[j],
                    self.bitmap == old(self).bitmap,
                    self.blocks == old(self).blocks,
                    self.head == old(self).head,
                    self.tail == old(self).tail,
                    self.size == old(self).size,
                    self.capacity == old(self).capacity,
                decreases 16 - k,
            {
                self.cumulative_hash[k] = self.cumulative_hash[k] ^ hashed[k];
                k = k + 1;
            }
            proof {
                assert(self.cumulative_hash@ =~= xor_bytes(old(self).cumulative_hash@, sha256(phone_number@).take(16)));
            }
            let tail_index = self.tail.unwrap();
            // update tail block to point to new block
            let mut current_tail_block = self.blocks[tail_index].unwrap();
            // for new block to be added, current_tail_block -> next
            // needs to be updated to point to new block
            // but it needs to be mod capacity to wrap around
            // e.g. if capacity is 12, tail_index is 11, then new block should be at 0
            let new_tail_index = (tail_index + 1) % self.capacity;
            let new_byte_index = new_tail_index / 8;
            let bit_offset = new_tail_index % 8;
            self.bitmap[new_byte_index] = self.bitmap[new_byte_index] | (1u8 << (bit_offset as u8));
            current_tail_block.next = Some(new_tail_index);
            // set tail block back to tail_index
            self.blocks[tail_index] = Some(current_tail_block);
            // new tail block is the new block
            self.blocks[new_tail_index] = Some(new_block);
            self.tail = Some(new_tail_index);
            if self.size < self.capacity {
                self.size = self.size + 1;
            } else {
                self.size = self.capacity;
            }
            proof {
                assert(self.bitmap@ =~= with_bit_set(old(self).bitmap@, new_tail_index as int));
                let ghost old_blocks = old(self).blocks@;
                assert(self.blocks@ =~= old_blocks.update(tail_index as int, Some(linked_to(old_blocks[tail_index as int]->Some_0, new_tail_index))).update(new_tail_index as int, Some(new_block)));
                assert forall|i: int| 0 <= i < 104 implies (bit_is_set(self.bitmap@, i) <==> i < self.size) by {
                    lemma_with_bit_set(old(self).bitmap@, new_tail_index as int, i);
                }
                assert forall|i: int| 0 <= i < 100 implies (self.blocks@[i] is Some <==> i < self.size) by {
                    if i != tail_index && i != new_tail_index {
                        assert(self.blocks@[i] == old_blocks[i]);
                    }
                }
            }
        }
    }

    fn length(&self) -> (n: usize)
        ensures
            n == self.size,
    {
        self.size
    }
}

} // verus!
