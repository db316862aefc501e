use onechain::chain_core::block::{sha_hash, Block};
use onechain::chain_core::skip_list::SkipListOps;
use onechain::storage::mem_table::{MemTable, MemTableOps};
use onechain::storage::ring_buffer::{BlockRingBuffer, BlockRingBufferOps};
use sha2::{Digest, Sha256};
use std::time::Instant;

fn expected_hash(phone: [u8; 10]) -> [u8; 16] {
    let full = Sha256::digest(phone);
    full[..16].try_into().unwrap()
}

fn xor(a: [u8; 16], b: [u8; 16]) -> [u8; 16] {
    let mut out = [0u8; 16];
    for k in 0..16 {
        out[k] = a[k] ^ b[k];
    }
    out
}

#[test]
fn test_cache_behavior() {
    let mut ring_buffer = BlockRingBuffer::new();
    let num_iterations = 1_000_000; // High number of iterations to stress L1 cache

    let start = Instant::now();
    for i in 0..num_iterations {
        ring_buffer.add([(i % 256) as u8; 10]);
    }
    let elapsed = start.elapsed();

    println!("Cache-friendly add() took: {:?}", elapsed);
}

#[test]
fn test_overflow() {
    let mut ring_buffer = BlockRingBuffer::new();

    for i in 0..110 {
        ring_buffer.add([(i % 256) as u8; 10]);
    }
    // Ensure size does not exceed 100 (capacity)
    assert_eq!(ring_buffer.size, 100);
}

#[test]
fn test_cumulative_hash() {
    let mut ring_buffer = BlockRingBuffer::new();
    let phone1 = [1, 2, 3, 4, 5, 6, 7, 8, 9, 10];
    let phone2 = [11, 12, 13, 14, 15, 16, 17, 18, 19, 20];

    ring_buffer.add(phone1);
    let hash1 = ring_buffer.cumulative_hash;

    ring_buffer.add(phone2);
    let hash2 = ring_buffer.cumulative_hash;

    assert_ne!(hash1, hash2); // Hash should change after addition
}

#[test]
fn test_bulk_add_performance() {
    let mut ring_buffer = BlockRingBuffer::new();
    let start = Instant::now();

    for i in 0..100_000 {
        ring_buffer.add([(i % 256) as u8; 10]);
    }

    let elapsed = start.elapsed();
    println!("Bulk add (100,000 inserts) took: {:?}", elapsed);
}

#[test]
fn adds_set_head_tail_and_size() {
    let mut ring_buffer = BlockRingBuffer::new();
    assert!(ring_buffer.add([1, 2, 3, 4, 5, 6, 7, 8, 9, 10]));
    assert_eq!(ring_buffer.size, 1);
    assert_eq!(ring_buffer.head.data.unwrap(), 0);
    assert_eq!(ring_buffer.tail.data.unwrap(), 0);

    assert!(ring_buffer.add([11, 12, 13, 14, 15, 16, 17, 18, 19, 20]));
    assert_eq!(ring_buffer.size, 2);
    assert_eq!(ring_buffer.tail.data.unwrap(), 1);
    assert_eq!(ring_buffer.length(), 2);
    // the first block links to the second
    assert_eq!(ring_buffer.blocks[0].unwrap().next, Some(1));
    assert_eq!(ring_buffer.blocks[1].unwrap().next, None);
}

#[test]
fn sha_hash_is_the_digest_prefix() {
    let phone = [5, 5, 5, 1, 2, 3, 4, 5, 6, 7];
    assert_eq!(sha_hash(&phone), expected_hash(phone));
    let block = Block::new(phone, true);
    assert_eq!(block.data, expected_hash(phone));
    assert!(block.disabled);
    assert_eq!(block.next, None);
    let at = Block::new_at(phone, false, 1_700_000_000_123);
    assert_eq!(at.timestamp, 1_700_000_000_123);
    assert_eq!(at.data, expected_hash(phone));
    assert!(!at.disabled);
}

#[test]
fn cumulative_hash_is_the_xor_of_all_hashes() {
    let phones = [[1u8; 10], [2u8; 10], [3u8; 10]];
    let mut ring_buffer = BlockRingBuffer::new();
    let mut expected = [0u8; 16];
    for phone in phones {
        ring_buffer.add(phone);
        expected = xor(expected, expected_hash(phone));
        assert_eq!(ring_buffer.cumulative_hash, expected);
    }
    // the order of additions does not matter
    let mut other = BlockRingBuffer::new();
    for phone in [[3u8; 10], [1u8; 10], [2u8; 10]] {
        other.add(phone);
    }
    assert_eq!(other.cumulative_hash, ring_buffer.cumulative_hash);
    // adding a number twice cancels it out
    let mut twice = BlockRingBuffer::new();
    twice.add([9; 10]);
    twice.add([4; 10]);
    twice.add([9; 10]);
    assert_eq!(twice.cumulative_hash, expected_hash([4; 10]));
}

#[test]
fn bitmap_marks_the_occupied_slots() {
    let mut ring_buffer = BlockRingBuffer::new();
    for i in 0..10u8 {
        ring_buffer.add([i; 10]);
    }
    // slots 0..10 set: 0xff then 0b11
    assert_eq!(ring_buffer.bitmap[0], 0xff);
    assert_eq!(ring_buffer.bitmap[1], 0b11);
    assert!(ring_buffer.bitmap[2..].iter().all(|&b| b == 0));
    for i in 10..150u8 {
        ring_buffer.add([i; 10]);
    }
    assert_eq!(&ring_buffer.bitmap[..12], &[0xff; 12]);
    assert_eq!(ring_buffer.bitmap[12], 0x0f);
}

#[test]
fn wrapping_overwrites_the_oldest_slot() {
    let mut ring_buffer = BlockRingBuffer::new();
    for i in 0..101u8 {
        ring_buffer.add([i; 10]);
    }
    assert_eq!(ring_buffer.size, 100);
    assert_eq!(ring_buffer.tail.data, Some(0));
    assert_eq!(ring_buffer.head.data, Some(0));
    assert_eq!(ring_buffer.blocks[0].unwrap().data, expected_hash([100; 10]));
    assert_eq!(ring_buffer.blocks[99].unwrap().next, Some(0));
}

#[test]
fn delete_adds_a_tombstone() {
    let mut ring_buffer = BlockRingBuffer::new();
    ring_buffer.add([7; 10]);
    assert!(ring_buffer.delete([7; 10]));
    assert_eq!(ring_buffer.size, 2);
    let tomb = ring_buffer.blocks[1].unwrap();
    assert!(tomb.disabled);
    assert_eq!(tomb.data, expected_hash([7; 10]));
    assert!(!ring_buffer.blocks[0].unwrap().disabled);
    // the tombstone's hash cancels the number out of the cumulative hash
    assert_eq!(ring_buffer.cumulative_hash, [0; 16]);
}

#[test]
fn stress_ringbuffer_add_delete() {
    let phone_numbers: Vec<[u8; 10]> = (0..100u32)
        .map(|i| {
            let mut p = [0u8; 10];
            for (k, b) in p.iter_mut().enumerate() {
                *b = ((i * 31 + k as u32 * 17) % 255) as u8;
            }
            p
        })
        .collect();
    let mut ring_buffer = BlockRingBuffer::new();
    for phone in phone_numbers.iter() {
        assert!(ring_buffer.add(*phone));
    }
    assert_eq!(ring_buffer.size, 100);
    for phone in phone_numbers.iter().take(50) {
        assert!(ring_buffer.delete(*phone));
    }
    assert!(ring_buffer.size <= 100);
}

#[test]
fn test_add_and_flush() {
    let mut ring_buffer = BlockRingBuffer::new();

    // Add a few phone numbers
    assert!(ring_buffer.add([1, 2, 3, 4, 5, 6, 7, 8, 9, 10]));
    assert_eq!(ring_buffer.size, 1);
    assert_eq!(ring_buffer.head.data.unwrap(), 0);
    assert_eq!(ring_buffer.tail.data.unwrap(), 0);

    assert!(ring_buffer.add([11, 12, 13, 14, 15, 16, 17, 18, 19, 20]));
    assert_eq!(ring_buffer.size, 2);
    assert_eq!(ring_buffer.tail.data.unwrap(), 1);

    // Flush a block
    assert!(ring_buffer.flush(&mut MemTable::new()));
    assert_eq!(ring_buffer.size, 2); // Size remains the same, only head moves
    assert_eq!(ring_buffer.head.data.unwrap(), 1);
}

#[test]
fn flush_hands_the_head_block_to_the_memtable() {
    let mut ring_buffer = BlockRingBuffer::new();
    let mut table = MemTable::new();
    ring_buffer.add([1; 10]);
    ring_buffer.delete([2; 10]);
    ring_buffer.add([3; 10]);
    let before = ring_buffer.cumulative_hash;
    assert!(ring_buffer.flush(&mut table));
    assert_eq!(table.blocks.blocks[0].unwrap().data, expected_hash([1; 10]));
    assert!(!table.blocks.blocks[0].unwrap().tombstone);
    assert!(ring_buffer.flush(&mut table));
    assert_eq!(ring_buffer.head.data, Some(2));
    assert_eq!(ring_buffer.size, 3);
    assert_eq!(ring_buffer.cumulative_hash, before);
    // the memtable keeps its blocks in order of data
    let mut expected = vec![expected_hash([1; 10]), expected_hash([2; 10])];
    expected.sort();
    assert_eq!(table.blocks.blocks[0].unwrap().data, expected[0]);
    assert_eq!(table.blocks.blocks[1].unwrap().data, expected[1]);
    let tomb = table.blocks.blocks.iter().flatten().find(|n| n.data == expected_hash([2; 10])).unwrap();
    assert!(tomb.tombstone);
    // the head has caught up with the tail: nothing more to flush
    assert!(!ring_buffer.flush(&mut table));
    assert_eq!(ring_buffer.head.data, Some(2));
}

#[test]
fn flush_sorts_a_full_buffer_and_hands_over_every_block() {
    let mut ring_buffer = BlockRingBuffer::new();
    let mut table = MemTable::new();
    for i in 0..100u8 {
        ring_buffer.add([i; 10]);
    }
    let before = ring_buffer.cumulative_hash;
    assert!(ring_buffer.flush(&mut table));
    let keys: Vec<[u8; 16]> = ring_buffer.blocks.iter().map(|b| b.unwrap().data).collect();
    let mut expected: Vec<[u8; 16]> = (0..100u8).map(|i| expected_hash([i; 10])).collect();
    expected.sort();
    assert_eq!(keys, expected);
    assert_eq!(ring_buffer.size, 100);
    assert_eq!(ring_buffer.head.data, Some(0));
    assert_eq!(ring_buffer.tail.data, Some(99));
    assert_eq!(ring_buffer.cumulative_hash, before);
    assert_eq!(table.blocks.size(), 100);
    let stored: Vec<[u8; 16]> = table.blocks.blocks.iter().flatten().map(|n| n.data).collect();
    assert_eq!(stored, expected);
}

#[test]
fn flush_of_a_single_block_does_nothing() {
    let mut ring_buffer = BlockRingBuffer::new();
    let mut table = MemTable::new();
    assert!(!ring_buffer.flush(&mut table));
    ring_buffer.add([1; 10]);
    assert!(!ring_buffer.flush(&mut table));
    assert_eq!(ring_buffer.head.data, Some(0));
    assert!(table.blocks.blocks.iter().all(|b| b.is_none()));
}

#[test]
fn flush_after_wrapping_to_the_head_does_nothing() {
    let mut ring_buffer = BlockRingBuffer::new();
    let mut table = MemTable::new();
    for i in 0..101u8 {
        ring_buffer.add([i; 10]);
    }
    let first = ring_buffer.blocks[0].unwrap().data;
    assert!(!ring_buffer.flush(&mut table));
    assert_eq!(ring_buffer.blocks[0].unwrap().data, first);
}
