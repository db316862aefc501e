use vstd::prelude::*;
use crate::chain_core::skip_list::{SkipList, SkipNode, CAPACITY};
use crate::bits::bit_is_set;
use crate::storage::bloom_filter::{
    BloomFilter, BloomFilterOps, BLOOM_FILTER_SIZE, BLOOM_FILTER_BITS, positions_for, with_bits_set, xxhash64,
    lemma_with_bits_set, lemma_bloom_indices_in_range,
};
use crate::storage::footer::Footer;
use crate::storage::index_block::IndexBlock;

verus! {

///
/// SSTableSegment is a segment of SSTable file.
///
/// +----------------------------------------------------+
/// |                   SSTableSegment                   |
/// +----------------------+----------------------------+
/// | Bloom Filter        | Index Block                  |
/// | (For fast lookup)   | (Key → Offset mapping)       |
/// +----------------------+----------------------------+
/// |                     Data Block                     |
/// |  (Sorted key-value pairs, stored in sorted order)  |
/// +----------------------------------------------------+
/// |                  Metadata Block                    |
/// | (Compression, timestamps, merge info, etc.)        |
/// +----------------------------------------------------+
/// |                     Footer                         |
/// | (Magic number, version, checksum, etc.)            |
/// +----------------------------------------------------+
pub struct SSTableSegment {
    pub bloom_filter: BloomFilter,
    pub index_block: IndexBlock,
    pub footer: Footer,
}

/// The filter bits after adding, in slot order, the data of every occupied slot.
pub open spec fn filter_bits_for(bits: Seq<u8>, blocks: Seq<Option<SkipNode>>) -> Seq<u8>
    decreases blocks.len(),
{
    if blocks.len() == 0 {
        bits
    } else {
        let before = filter_bits_for(bits, blocks.drop_last());
        match blocks.last() {
            Some(node) => with_bits_set(before, positions_for(node.data@)),
            None => before,
        }
    }
}

/// The bits of an empty filter.
pub open spec fn empty_filter_bits() -> Seq<u8> {
    Seq::new(BLOOM_FILTER_SIZE as nat, |i: int| 0u8)
}

proof fn lemma_positions_in_range(key: Seq<u8>)
    ensures
        positions_for(key).len() == 7,
        forall|m: int| 0 <= m < positions_for(key).len() ==> #[trigger] positions_for(key)[m] < BLOOM_FILTER_BITS,
{
    lemma_bloom_indices_in_range(xxhash64(1234, key));
}

/// The segment's filter has no false negatives: every bit position of every stored
/// key is set, and the filter keeps its length.
pub proof fn lemma_segment_filter_finds_every_key(blocks: Seq<Option<SkipNode>>, k: int)
    requires
        0 <= k < blocks.len(),
        blocks[k] is Some,
    ensures
        filter_bits_for(empty_filter_bits(), blocks).len() == BLOOM_FILTER_SIZE,
        forall|m: int|
            0 <= m < 7 ==> bit_is_set(
                filter_bits_for(empty_filter_bits(), blocks),
                #[trigger] positions_for(blocks[k]->Some_0.data@)[m] as int,
            ),
    decreases blocks.len(),
{
    let rest = blocks.drop_last();
    let before = filter_bits_for(empty_filter_bits(), rest);
    let key = blocks[k]->Some_0.data@;
    lemma_filter_len(rest);
    lemma_positions_in_range(key);
    if k == blocks.len() - 1 {
        assert(blocks.last() == blocks[k]);
        assert forall|m: int| 0 <= m < 7 implies bit_is_set(
            filter_bits_for(empty_filter_bits(), blocks),
            #[trigger] positions_for(key)[m] as int,
        ) by {
            lemma_with_bits_set(before, positions_for(key), positions_for(key)[m] as int);
            assert(positions_for(key).contains(positions_for(key)[m]));
        }
    } else {
        assert(rest[k] == blocks[k]);
        lemma_segment_filter_finds_every_key(rest, k);
        match blocks.last() {
            Some(node) => {
                lemma_positions_in_range(node.data@);
                assert forall|m: int| 0 <= m < 7 implies bit_is_set(
                    filter_bits_for(empty_filter_bits(), blocks),
                    #[trigger] positions_for(key)[m] as int,
                ) by {
                    assert(bit_is_set(before, positions_for(rest[k]->Some_0.data@)[m] as int));
                    lemma_with_bits_set(before, positions_for(node.data@), positions_for(key)[m] as int);
                }
            },
            None => {
                assert forall|m: int| 0 <= m < 7 implies bit_is_set(
                    filter_bits_for(empty_filter_bits(), blocks),
                    #[trigger] positions_for(key)[m] as int,
                ) by {
                    assert(bit_is_set(before, positions_for(rest[k]->Some_0.data@)[m] as int));
                }
            },
        }
    }
    lemma_filter_len(blocks);
}

proof fn lemma_filter_len(blocks: Seq<Option<SkipNode>>)
    ensures
        filter_bits_for(empty_filter_bits(), blocks).len() == BLOOM_FILTER_SIZE,
    decreases blocks.len(),
{
    if blocks.len() > 0 {
        lemma_filter_len(blocks.drop_last());
        match blocks.last() {
            Some(node) => {
                lemma_positions_in_range(node.data@);
                lemma_with_bits_set(filter_bits_for(empty_filter_bits(), blocks.drop_last()), positions_for(node.data@), 0);
            },
            None => {},
        }
    }
}

impl SSTableSegment {
    /// The first page of a segment for the skip list: the bloom filter of all its
    /// blocks' data first, the rest of the page zero (an empty index block and
    /// footer). The page must have room for the filter.
    pub fn create(&mut self, data_block: SkipList, page_size: usize) -> (page: Vec<u8>)
        requires
            page_size >= BLOOM_FILTER_SIZE,
        ensures
            *final(self) == *old(self),
            page@.len() == page_size,
            page@.subrange(0, BLOOM_FILTER_SIZE as int) == filter_bits_for(empty_filter_bits(), data_block.blocks@),
            forall|i: int| BLOOM_FILTER_SIZE <= i < page_size ==> #[trigger] page@[i] == 0u8,
    {
        // bloom filter
        let mut bf = BloomFilter::new();
        proof {
            assert(bf.bits@ =~= empty_filter_bits());
            assert(data_block.blocks@.take(0) =~= Seq::<Option<SkipNode>>::empty());
        }
        let blocks = data_block.blocks;
        let mut i: usize = 0;
        while i < CAPACITY
            invariant
                i <= CAPACITY,
                blocks == data_block.blocks,
                bf.bits@ == filter_bits_for(empty_filter_bits(), blocks@.take(i as int)),
            decreases CAPACITY - i,
        {
            let b = blocks[i];
            if b.is_some() {
                let block = b.unwrap();
                bf.add(&block.data);
            }
            proof {
                assert(blocks@.take(i + 1).drop_last() =~= blocks@.take(i as int));
            }
            i = i + 1;
        }
        proof {
            assert(blocks@.take(CAPACITY as int) =~= blocks@);
        }
        let ghost filter = bf.bits@;
        let mut page: Vec<u8> = Vec::new();
        // the bloom filter
        let mut k: usize = 0;
        while k < BLOOM_FILTER_SIZE
            invariant
                k <= BLOOM_FILTER_SIZE,
                page@.len() == k,
                filter == bf.bits@,
                forall|j: int| 0 <= j < k ==> #[trigger] page@[j] == filter[j],
            decreases BLOOM_FILTER_SIZE - k,
        {
            page.push(bf.bits[k]);
            k = k + 1;
        }
        // the rest of the page
        let mut offset: usize = BLOOM_FILTER_SIZE;
        while offset < page_size
            invariant
                BLOOM_FILTER_SIZE <= offset <= page_size,
                page@.len() == offset,
                forall|j: int| 0 <= j < BLOOM_FILTER_SIZE ==> #[trigger] page@[j] == filter[j],
                forall|j: int| BLOOM_FILTER_SIZE <= j < offset ==> #[trigger] page@[j] == 0u8,
            decreases page_size - offset,
        {
            page.push(0);
            offset = offset + 1;
        }
        proof {
            assert(page@.subrange(0, BLOOM_FILTER_SIZE as int) =~= filter);
        }
        page
    }
}

} // verus!
