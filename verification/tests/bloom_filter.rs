use onechain::chain_core::skip_list::{SkipList, SkipListOps};
use onechain::storage::footer::Footer;
use onechain::storage::ss_table::SSTableSegment;
use onechain::storage::bloom_filter::{BloomFilter, BloomFilterOps, BLOOM_FILTER_SIZE};
use onechain::storage::index_block::IndexBlock;
use twox_hash::XxHash64;

fn expected_positions(hashed: &[u8; 16]) -> [usize; 7] {
    let h = XxHash64::oneshot(1234, hashed);
    let n = BLOOM_FILTER_SIZE;
    [
        (h >> 32) as usize % n,
        (h & 0xFFFFFFFF) as usize % n,
        ((h >> 16) & 0xFFFFFFFF) as usize % n,
        ((h.wrapping_mul(0x5bd1e995) >> 24) & 0xFFFFFFFF) as usize % n,
        ((h.wrapping_add(0x9e3779b97f4a7c15)) & 0xFFFFFFFF) as usize % n,
        ((h.wrapping_mul(0xc6a4a7935bd1e995) >> 17) & 0xFFFFFFFF) as usize % n,
        ((h.wrapping_add(0xdaba0b6eb09322e3)) & 0xFFFFFFFF) as usize % n,
    ]
}

#[test]
fn new_filter_is_empty() {
    let filter = BloomFilter::new();
    assert!(filter.bits.iter().all(|&b| b == 0));
    assert!((0..1200).all(|i| !filter.check_bit(i)));
}

#[test]
fn set_bit_sets_exactly_one_bit() {
    let mut filter = BloomFilter::new();
    filter.set_bit(11);
    assert_eq!(filter.bits[1], 0b1000);
    assert!(filter.check_bit(11));
    assert!(!filter.check_bit(10));
    assert!(!filter.check_bit(12));
    filter.set_bit(1199);
    assert_eq!(filter.bits[149], 0b1000_0000);
    filter.set_bit(11);
    assert_eq!(filter.bits.iter().map(|b| b.count_ones()).sum::<u32>(), 2);
}

#[test]
fn added_key_is_found_and_nothing_else_is_set() {
    let mut filter = BloomFilter::new();
    let key = *b"0123456789abcdef";
    filter.add(&key);
    let positions = expected_positions(&key);
    for p in positions {
        assert!(filter.check_bit(p));
    }
    let set: usize = (0..1200).filter(|&i| filter.check_bit(i)).count();
    let mut distinct = positions.to_vec();
    distinct.sort();
    distinct.dedup();
    assert_eq!(set, distinct.len());
    // adding more keys keeps the first key's bits
    filter.add(b"fedcba9876543210");
    filter.add(&[0; 16]);
    for p in positions {
        assert!(filter.check_bit(p));
    }
}

#[test]
fn index_block_starts_zeroed() {
    let block = IndexBlock::new();
    assert_eq!(block.index, [0; 8]);
    assert_eq!(block.hashed_data, [0; 16]);
    assert_eq!(block.offset, 0);
}

#[test]
fn segment_page_starts_with_the_filter_of_every_key() {
    let mut list = SkipList::_new();
    let keys = [[7u8; 16], [1u8; 16], *b"0123456789abcdef"];
    for key in keys.iter() {
        list.add(key, false);
    }
    let mut expected = BloomFilter::new();
    for node in list.blocks.iter().flatten() {
        expected.add(&node.data);
    }
    let mut segment = SSTableSegment {
        bloom_filter: BloomFilter::new(),
        index_block: IndexBlock::new(),
        footer: Footer { magic_number: 0, checksum: 0, max_key: [0; 16], min_key: [0; 16] },
    };
    let page = segment.create(list, 4096);
    assert_eq!(page.len(), 4096);
    assert_eq!(&page[..BLOOM_FILTER_SIZE], &expected.bits[..]);
    assert!(page[BLOOM_FILTER_SIZE..].iter().all(|&b| b == 0));
    for key in keys.iter() {
        for p in expected_positions(key) {
            assert!(page[p / 8] & (1 << (p % 8)) != 0);
        }
    }
    // the segment itself is left as it was
    assert!(segment.bloom_filter.bits.iter().all(|&b| b == 0));
}

#[test]
fn adding_keys_commutes_and_repeats_change_nothing() {
    let (a, b) = (*b"aaaaaaaaaaaaaaaa", [9u8; 16]);
    let mut f1 = BloomFilter::new();
    let mut f2 = BloomFilter::new();
    f1.add(&a);
    f1.add(&b);
    f2.add(&b);
    f2.add(&a);
    assert_eq!(f1.bits, f2.bits);
    let once = f1.bits;
    f1.add(&a);
    assert_eq!(f1.bits, once);
}
