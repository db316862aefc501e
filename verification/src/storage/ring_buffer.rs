use vstd::prelude::*;
use vstd::seq_lib::group_to_multiset_ensures;
use crate::bits::{
    bit_is_set, with_bit_set, xor_bytes, lemma_with_bit_set, lemma_clear_then_set, lemma_xor_bytes_commute,
    lemma_xor_bytes_cancel,
};
use crate::chain_core::block::{Block, sha256, sha_hash};
use crate::chain_core::skip_list::{SkipListOps, SkipNode, CAPACITY, MAX_LEVEL, with_inserted, placed_node, scan_stop};
use crate::chain_core::{quick_sort, all_present, sorted_by_data, lemma_permutation_member};
use crate::storage::mem_table::{MemTable, MemTableOps};

verus! {

pub struct AlignedPosition {
    pub data: Option<usize>,
    /// prevents false sharing
    pub padding: [u8; 56],
}

pub struct BlockRingBuffer {
    pub cumulative_hash: [u8; 16],
    pub bitmap: [u8; 13],
    /// pre-allocate fixed length array of blocks
    pub blocks: [Option<Block>; 100],
    pub head: AlignedPosition,
    pub tail: AlignedPosition,
    pub size: usize,
    pub capacity: usize,
    /// The hashes of the phone numbers added so far, oldest first.
    pub history: Ghost<Seq<Seq<u8>>>,
}

/// The hash that the ring buffer folds into its cumulative hash for a phone number.
pub open spec fn phone_hash(phone_number: [u8; 10]) -> Seq<u8> {
    sha256(phone_number@).take(16)
}

/// The exclusive or of all the hashes, starting from sixteen zero bytes.
pub open spec fn xor_fold(hashes: Seq<Seq<u8>>) -> Seq<u8>
    decreases hashes.len(),
{
    if hashes.len() == 0 {
        Seq::new(16, |k: int| 0u8)
    } else {
        xor_bytes(xor_fold(hashes.drop_last()), hashes.last())
    }
}

/// A position with the given index and zero padding.
pub open spec fn position(data: Option<usize>) -> AlignedPosition {
    AlignedPosition { data, padding: [0u8; 56usize] }
}

/// The block with its link set to `next`.
pub open spec fn linked_to(block: Block, next: usize) -> Block {
    Block { data: block.data, timestamp: block.timestamp, disabled: block.disabled, next: Some(next) }
}

/// `new` is `old` with `block`, made for `phone_number`, appended after the tail.
pub open spec fn appended(old: BlockRingBuffer, new: BlockRingBuffer, phone_number: [u8; 10], block: Block) -> bool {
    &&& new.capacity == old.capacity
    &&& new.history@ == old.history@.push(phone_hash(phone_number))
    &&& new.cumulative_hash@ == xor_bytes(old.cumulative_hash@, phone_hash(phone_number))
    &&& new.size == if old.size < 100 { old.size + 1 } else { 100 }
    &&& old.size == 0 ==> {
        &&& new.head == position(Some(0))
        &&& new.tail == position(Some(0))
        &&& new.blocks@ == old.blocks@.update(0, Some(block))
        &&& new.bitmap@ == with_bit_set(old.bitmap@, 0)
    }
    &&& old.size > 0 ==> {
        let tail = old.tail.data->Some_0;
        let new_tail = (tail + 1) % 100;
        let tail_block = old.blocks@[tail as int]->Some_0;
        &&& new.head == old.head
        &&& new.tail == position(Some(new_tail as usize))
        &&& new.blocks@ == old.blocks@.update(tail as int, Some(linked_to(tail_block, new_tail as usize))).update(
            new_tail,
            Some(block),
        )
        &&& new.bitmap@ == with_bit_set(old.bitmap@, new_tail)
    }
}

/// The memtable's slots after the blocks `entries` are added to it in turn, each with
/// its level from `levels`.
pub open spec fn flushed_into(
    list: Seq<Option<SkipNode>>,
    heads: Seq<usize>,
    entries: Seq<Option<Block>>,
    levels: Seq<nat>,
) -> Seq<Option<SkipNode>>
    decreases entries.len(),
{
    if entries.len() == 0 || levels.len() != entries.len() {
        list
    } else {
        let before = flushed_into(list, heads, entries.drop_last(), levels.drop_last());
        let block = entries.last()->Some_0;
        let pos = scan_stop(before, 0, block.data@);
        with_inserted(before, pos, placed_node(block.data, block.disabled, levels.last(), pos, heads))
    }
}

/// The cumulative hash does not depend on the order of additions: adding `first`
/// then `second` leaves the same cumulative hash as adding `second` then `first`.
pub proof fn lemma_cumulative_hash_order_independent(cumulative: Seq<u8>, first: [u8; 10], second: [u8; 10])
    ensures
        xor_bytes(xor_bytes(cumulative, phone_hash(first)), phone_hash(second)) == xor_bytes(
            xor_bytes(cumulative, phone_hash(second)),
            phone_hash(first),
        ),
{
    lemma_xor_bytes_commute(cumulative, phone_hash(first), phone_hash(second));
}

/// Comparing cumulative hashes finds the difference: the exclusive or of the
/// cumulative hash before and after adding a number is that number's hash, and adding
/// the same number again (a tombstone for it) restores the cumulative hash.
pub proof fn lemma_cumulative_hash_diff(cumulative: Seq<u8>, phone_number: [u8; 10])
    ensures
        forall|k: int|
            0 <= k < cumulative.len() ==> #[trigger] xor_bytes(
                xor_bytes(cumulative, phone_hash(phone_number)),
                cumulative,
            )[k] == phone_hash(phone_number)[k],
        xor_bytes(xor_bytes(cumulative, phone_hash(phone_number)), phone_hash(phone_number)) == cumulative,
{
    lemma_xor_bytes_cancel(cumulative, phone_hash(phone_number));
}

proof fn lemma_xor_fold_remove(hashes: Seq<Seq<u8>>, i: int)
    requires
        0 <= i < hashes.len(),
    ensures
        xor_fold(hashes) == xor_bytes(xor_fold(hashes.remove(i)), hashes[i]),
    decreases hashes.len(),
{
    let last = hashes.len() - 1;
    if i == last {
        assert(hashes.remove(i) =~= hashes.drop_last());
    } else {
        let dl = hashes.drop_last();
        let r = hashes.remove(i);
        assert(dl.remove(i) =~= r.drop_last());
        assert(r.last() == hashes.last());
        assert(dl[i] == hashes[i]);
        lemma_xor_fold_remove(dl, i);
        lemma_xor_bytes_commute(xor_fold(dl.remove(i)), hashes[i], hashes.last());
    }
}

/// The cumulative hash is the same for every order of the same additions: two
/// histories with the same hashes, each as often, fold to the same value.
pub proof fn lemma_cumulative_hash_any_order(h1: Seq<Seq<u8>>, h2: Seq<Seq<u8>>)
    requires
        h1.to_multiset() == h2.to_multiset(),
    ensures
        xor_fold(h1) == xor_fold(h2),
    decreases h2.len(),
{
    broadcast use group_to_multiset_ensures;

    if h2.len() == 0 {
        assert(h1.len() == h1.to_multiset().len());
        assert(h2.len() == h2.to_multiset().len());
        assert(h1.len() == 0);
        assert(h1 =~= h2);
    } else {
        let x = h2.last();
        let dl = h2.drop_last();
        assert(h2 =~= dl.push(x));
        assert(h2.contains(x)) by {
            assert(h2[h2.len() - 1] == x);
        }
        assert(h2.to_multiset().count(x) > 0);
        assert(h1.to_multiset().count(x) > 0);
        assert(h1.contains(x));
        let i = choose|i: int| 0 <= i < h1.len() && h1[i] == x;
        assert(h1.remove(i).to_multiset() =~= h1.to_multiset().remove(x));
        assert(dl.push(x).to_multiset() =~= dl.to_multiset().insert(x));
        assert(h1.remove(i).to_multiset() =~= dl.to_multiset());
        lemma_cumulative_hash_any_order(h1.remove(i), dl);
        lemma_xor_fold_remove(h1, i);
    }
}

pub trait BlockRingBufferOps {
    /// The buffer's fields agree with each other and with the history of additions.
    spec fn well_formed(&self) -> bool;

    /// A flush would hand a block to the memtable.
    spec fn flushes(&self) -> bool;

    /// How many blocks a flush hands to the memtable.
    spec fn flush_count(&self) -> nat;

    fn add(&mut self, phone_number: [u8; 10]) -> (added: bool)
        requires
            old(self).well_formed(),
    ;

    /// tombstone the block
    fn delete(&mut self, phone_number: [u8; 10]) -> (added: bool)
        requires
            old(self).well_formed(),
    ;

    /// Reader flushes the read blocks from ring buffer
    fn flush(&mut self, memtable: &mut MemTable) -> (flushed: bool)
        requires
            old(self).well_formed(),
            old(self).flushes() ==> old(memtable).blocks.well_formed() && old(memtable).blocks.occupied()
                + old(self).flush_count() <= CAPACITY,
    ;

    fn length(&self) -> usize;
}

impl BlockRingBuffer {
    pub fn new() -> (buffer: Self)
        ensures
            buffer.well_formed(),
            buffer.size == 0,
            buffer.capacity == 100,
            buffer.head == position(None),
            buffer.tail == position(None),
            buffer.history@ == Seq::<Seq<u8>>::empty(),
            buffer.cumulative_hash@ == Seq::new(16, |k: int| 0u8),
            buffer.bitmap@ == Seq::new(13, |k: int| 0u8),
            buffer.blocks@ == Seq::new(100, |k: int| None::<Block>),
    {
        let buffer = BlockRingBuffer {
            cumulative_hash: [0; 16],
            bitmap: [0; 13],
            blocks: [None; 100],
            head: AlignedPosition { data: None, padding: [0; 56] },
            tail: AlignedPosition { data: None, padding: [0; 56] },
            size: 0,
            capacity: 100,
            history: Ghost(Seq::empty()),
        };
        proof {
            assert(buffer.cumulative_hash@ =~= Seq::new(16, |k: int| 0u8));
            assert(buffer.bitmap@ =~= Seq::new(13, |k: int| 0u8));
            assert(buffer.blocks@ =~= Seq::new(100, |k: int| None::<Block>));
            assert forall|i: int| 0 <= i < 104 implies !bit_is_set(buffer.bitmap@, i) by {
                assert(buffer.bitmap@[i / 8] == 0u8);
                let s = (i % 8) as u8;
                assert((0u8 >> s) & 1u8 == 0u8) by (bit_vector);
            }
        }
        buffer
    }

    /// Internal method to add a new block to the ring buffer.
    /// tail block is updated to point to new block
    fn _add(&mut self, phone_number: [u8; 10], new_block: Block)
        requires
            old(self).well_formed(),
        ensures
            final(self).well_formed(),
            appended(*old(self), *final(self), phone_number, new_block),
    {
        let ghost h = phone_hash(phone_number);
        if self.size == 0 {
            self.head = AlignedPosition { data: Some(0), padding: [0; 56] };
            self.tail = AlignedPosition { data: Some(0), padding: [0; 56] };
            self.blocks[0] = Some(new_block);
            self.size = self.size + 1;
            self.bitmap[0] = self.bitmap[0] | 1;
            self.cumulative_hash = sha_hash(&phone_number);
            self.history = Ghost(self.history@.push(h));
            proof {
                assert(old(self).history@ =~= Seq::<Seq<u8>>::empty());
                assert(self.history@.drop_last() =~= old(self).history@);
                assert(self.bitmap@ =~= with_bit_set(old(self).bitmap@, 0)) by {
                    assert((1u8 << 0u8) == 1u8) by (bit_vector);
                }
                assert(self.cumulative_hash@ =~= xor_bytes(old(self).cumulative_hash@, h)) by {
                    assert forall|k: int| 0 <= k < 16 implies self.cumulative_hash@[k] == #[trigger] (old(self).cumulative_hash@[k] ^ h[k]) by {
                        let x = h[k];
                        assert(old(self).cumulative_hash@[k] == 0u8);
                        assert(0u8 ^ x == x) by (bit_vector);
                    }
                }
                assert forall|i: int| 0 <= i < 104 implies (bit_is_set(self.bitmap@, i) <==> i < self.size) by {
                    lemma_with_bit_set(old(self).bitmap@, 0, i);
                }
            }
        } else {
            // cumulative hash: exclusive or with the new number's hash
            let hashed = sha_hash(&phone_number);
            let mut k: usize = 0;
            while k < 16
                invariant
                    k <= 16,
                    self.cumulative_hash@.len() == 16,
                    hashed@ == phone_hash(phone_number),
                    forall|j: int| 0 <= j < k ==> self.cumulative_hash@[j] == old(self).cumulative_hash@[j] ^ hashed@[j],
                    forall|j: int| k <= j < 16 ==> self.cumulative_hash@[j] == old(self).cumulative_hash@[j],
                    self.bitmap == old(self).bitmap,
                    self.blocks == old(self).blocks,
                    self.head == old(self).head,
                    self.tail == old(self).tail,
                    self.size == old(self).size,
                    self.capacity == old(self).capacity,
                    self.history == old(self).history,
                decreases 16 - k,
            {
                self.cumulative_hash[k] = self.cumulative_hash[k] ^ hashed[k];
                k = k + 1;
            }
            proof {
                assert(self.cumulative_hash@ =~= xor_bytes(old(self).cumulative_hash@, phone_hash(phone_number)));
            }
            let tail_index = self.tail.data.unwrap();
            // update tail block to point to new block
            let mut current_tail_block = self.blocks[tail_index].unwrap();
            // for new block to be added, current_tail_block -> next
            // needs to be updated to point to new block
            // but it needs to be mod capacity to wrap around
            let new_tail_index = (tail_index + 1) % self.capacity;
            let new_byte_index = new_tail_index / 8;
            let bit_offset = new_tail_index % 8;
            let old_byte = self.bitmap[new_byte_index];
            proof {
                lemma_clear_then_set(old_byte, bit_offset as u8);
            }
            // reset the bit in bitmap -- replacement scenario
            self.bitmap[new_byte_index] = self.bitmap[new_byte_index] & !(1u8 << (bit_offset as u8));
            // set the bit in bitmap
            self.bitmap[new_byte_index] = self.bitmap[new_byte_index] | (1u8 << (bit_offset as u8));
            current_tail_block.next = Some(new_tail_index);
            // set tail block back to tail_index
            self.blocks[tail_index] = Some(current_tail_block);
            // new tail block is the new block
            self.blocks[new_tail_index] = Some(new_block);
            self.tail = AlignedPosition { data: Some(new_tail_index), padding: [0; 56] };
            if self.size < self.capacity {
                self.size = self.size + 1;
            } else {
                self.size = self.capacity;
            }
            self.history = Ghost(self.history@.push(h));
            proof {
                assert(self.history@.drop_last() =~= old(self).history@);
                assert(self.bitmap@ =~= with_bit_set(old(self).bitmap@, new_tail_index as int));
                let ghost old_blocks = old(self).blocks@;
                assert(self.blocks@ =~= old_blocks.update(tail_index as int, Some(linked_to(old_blocks[tail_index as int]->Some_0, new_tail_index))).update(new_tail_index as int, Some(new_block)));
                assert forall|i: int| 0 <= i < 104 implies (bit_is_set(self.bitmap@, i) <==> i < self.size) by {
                    lemma_with_bit_set(old(self).bitmap@, new_tail_index as int, i);
                }
                assert forall|i: int| 0 <= i < 100 implies (self.blocks@[i] is Some <==> i < self.size) by {
                    if i != tail_index && i != new_tail_index {
                        assert(self.blocks@[i] == old_blocks[i]);
                    }
                }
            }
        }
    }
}

impl BlockRingBufferOps for BlockRingBuffer {
    /// After `n` additions (the history's length) the buffer holds `min(n, 100)` blocks
    /// in slots `0..size`, the tail is slot `(n - 1) % 100`, the head is an occupied
    /// slot, the bitmap marks exactly the occupied slots, and the cumulative hash is the
    /// exclusive or of the hashes of all numbers added.
    open spec fn well_formed(&self) -> bool {
        let n = self.history@.len();
        &&& self.capacity == 100
        &&& self.size == if n < 100 { n } else { 100 }
        &&& (self.size == 0) == (self.head.data is None)
        &&& (self.size == 0) == (self.tail.data is None)
        &&& self.head.data is Some ==> self.head.data->Some_0 < self.size
        &&& n > 0 ==> self.tail.data == Some(((n - 1) % 100) as usize)
        &&& forall|i: int| 0 <= i < 100 ==> ((#[trigger] self.blocks@[i]) is Some <==> i < self.size)
        &&& forall|i: int| 0 <= i < 104 ==> (#[trigger] bit_is_set(self.bitmap@, i) <==> i < self.size)
        &&& self.cumulative_hash@ == xor_fold(self.history@)
    }

    open spec fn flushes(&self) -> bool {
        self.size > 1 && self.head.data != self.tail.data
    }

    /// A full buffer hands over every block from the head on; any other just the
    /// block at the head.
    open spec fn flush_count(&self) -> nat {
        if !self.flushes() {
            0
        } else if self.size == self.capacity {
            (self.capacity - self.head.data->Some_0) as nat
        } else {
            1
        }
    }

    /// Adds a live block for the phone number.
    fn add(&mut self, phone_number: [u8; 10]) -> (added: bool)
        ensures
            added,
            final(self).well_formed(),
            ({
                let block = final(self).blocks@[final(self).tail.data->Some_0 as int]->Some_0;
                &&& appended(*old(self), *final(self), phone_number, block)
                &&& block.data@ == phone_hash(phone_number)
                &&& block.next is None
                &&& !block.disabled
            }),
    {
        let new_block = Block::new(phone_number, false);
        self._add(phone_number, new_block);
        true
    }

    /// Adds a tombstone block (disabled) for the phone number.
    fn delete(&mut self, phone_number: [u8; 10]) -> (added: bool)
        ensures
            added,
            final(self).well_formed(),
            ({
                let block = final(self).blocks@[final(self).tail.data->Some_0 as int]->Some_0;
                &&& appended(*old(self), *final(self), phone_number, block)
                &&& block.data@ == phone_hash(phone_number)
                &&& block.next is None
                &&& block.disabled
            }),
    {
        let new_block = Block::new(phone_number, true);
        self._add(phone_number, new_block);
        true
    }

    fn length(&self) -> (n: usize)
        ensures
            n == self.size,
    {
        self.size
    }

    /// When the buffer holds more than one block and the head has not caught up with the
    /// tail, blocks go to the memtable: a full buffer is sorted by block data and every
    /// block from the head on is handed over in slot order; a buffer that is not full
    /// hands over the block at the head, and the head moves on one slot. Otherwise
    /// nothing happens. The blocks stay in the buffer.
    fn flush(&mut self, mt: &mut MemTable) -> (flushed: bool)
        ensures
            final(self).well_formed(),
            flushed == old(self).flushes(),
            !flushed ==> *final(self) == *old(self) && *final(mt) == *old(mt),
            flushed ==> {
                &&& final(self).tail == old(self).tail
                &&& final(self).size == old(self).size
                &&& final(self).capacity == old(self).capacity
                &&& final(self).cumulative_hash == old(self).cumulative_hash
                &&& final(self).bitmap == old(self).bitmap
                &&& final(self).history == old(self).history
                &&& final(mt).last_flushed == old(mt).last_flushed
                &&& final(mt).blocks.heads == old(mt).blocks.heads
                &&& final(mt).blocks.well_formed()
                &&& final(mt).blocks.occupied() == old(mt).blocks.occupied() + old(self).flush_count()
            },
            flushed && old(self).size < 100 ==> {
                let head = old(self).head.data->Some_0;
                let block = old(self).blocks@[head as int]->Some_0;
                let pos = scan_stop(old(mt).blocks.blocks@, 0, block.data@);
                &&& final(self).head == position(Some(((head + 1) % 100) as usize))
                &&& final(self).blocks == old(self).blocks
                &&& exists|level: nat|
                    1 <= level <= MAX_LEVEL && final(mt).blocks.blocks@ == with_inserted(
                        old(mt).blocks.blocks@,
                        pos,
                        #[trigger] placed_node(block.data, block.disabled, level, pos, old(mt).blocks.heads@),
                    )
            },
            flushed && old(self).size == 100 ==> {
                let head = old(self).head.data->Some_0;
                &&& final(self).head == old(self).head
                &&& final(self).blocks@.to_multiset() == old(self).blocks@.to_multiset()
                &&& sorted_by_data(final(self).blocks@)
                &&& exists|levels: Seq<nat>|
                    levels.len() == 100 - head && (forall|k: int| 0 <= k < levels.len() ==> 1 <= #[trigger] levels[k] <= MAX_LEVEL)
                        && final(mt).blocks.blocks@ == #[trigger] flushed_into(
                        old(mt).blocks.blocks@,
                        old(mt).blocks.heads@,
                        final(self).blocks@.subrange(head as int, 100),
                        levels,
                    )
            },
    {
        if self.size <= 1 || self.head.data.unwrap() == self.tail.data.unwrap() {
            return false;
        }
        let read_index = self.head.data.unwrap();
        if self.size == self.capacity {
            let ghost before = self.blocks@;
            proof {
                assert(all_present(self.blocks@));
            }
            quick_sort(&mut self.blocks);
            proof {
                assert forall|i: int| 0 <= i < 100 implies (#[trigger] self.blocks@[i]) is Some by {
                    let k = lemma_permutation_member(before, self.blocks@, i);
                }
            }
            let ghost mt0 = *mt;
            let ghost mut levels: Seq<nat> = Seq::empty();
            // flush to memtable
            let mut i = read_index;
            while i < self.size
                invariant
                    read_index <= i <= self.size == 100,
                    self.capacity == 100,
                    levels.len() == i - read_index,
                    forall|k: int| 0 <= k < levels.len() ==> 1 <= #[trigger] levels[k] <= MAX_LEVEL,
                    forall|k: int| 0 <= k < 100 ==> (#[trigger] self.blocks@[k]) is Some,
                    mt.blocks.well_formed(),
                    mt.blocks.occupied() == mt0.blocks.occupied() + (i - read_index),
                    mt0.blocks.occupied() + (100 - read_index) <= CAPACITY,
                    mt.last_flushed == mt0.last_flushed,
                    mt.blocks.heads == mt0.blocks.heads,
                    mt.blocks.blocks@ == flushed_into(
                        mt0.blocks.blocks@,
                        mt0.blocks.heads@,
                        self.blocks@.subrange(read_index as int, i as int),
                        levels,
                    ),
                decreases 100 - i,
            {
                let block = self.blocks[i].unwrap();
                let ghost list_before = mt.blocks.blocks@;
                mt.add(&block.data, block.disabled);
                proof {
                    let pos = scan_stop(list_before, 0, block.data@);
                    let lv = choose|level: nat|
                        1 <= level <= MAX_LEVEL && mt.blocks.blocks@ == with_inserted(
                            list_before,
                            pos,
                            #[trigger] placed_node(block.data, block.disabled, level, pos, mt0.blocks.heads@),
                        );
                    let entries = self.blocks@.subrange(read_index as int, i + 1);
                    let new_levels = levels.push(lv);
                    assert(entries.drop_last() =~= self.blocks@.subrange(read_index as int, i as int));
                    assert(new_levels.drop_last() =~= levels);
                    assert(entries.last() == Some(block));
                    levels = new_levels;
                }
                i = i + 1;
            }
            true
        } else {
            let block = self.blocks[read_index].unwrap();
            // flush to memtable
            mt.add(&block.data, block.disabled);
            self.head = AlignedPosition { data: Some((read_index + 1) % 100), padding: [0; 56] };
            proof {
                assert(read_index < self.size - 1);
            }
            true
        }
    }
}

} // verus!
