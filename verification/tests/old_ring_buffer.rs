use onechain::chain_core::ringbuffer::{sha_hash, Block, BlockRingBuffer, BlockRingBufferOps};
use sha2::{Digest, Sha256};

fn expected_hash(phone: [u8; 10]) -> [u8; 16] {
    let full = Sha256::digest(phone);
    full[..16].try_into().unwrap()
}

#[test]
fn linked_buffer_appends_and_links() {
    let mut buffer: BlockRingBuffer = <BlockRingBuffer as BlockRingBufferOps>::new();
    assert_eq!(buffer.length(), 0);
    buffer.add([1; 10]);
    assert_eq!(buffer.head, Some(0));
    assert_eq!(buffer.tail, Some(0));
    assert_eq!(buffer.cumulative_hash, expected_hash([1; 10]));
    assert_eq!(buffer.bitmap[0], 0b1);
    buffer.add([2; 10]);
    assert_eq!(buffer.length(), 2);
    assert_eq!(buffer.tail, Some(1));
    assert_eq!(buffer.bitmap[0], 0b11);
    assert_eq!(buffer.blocks[0].unwrap().next, Some(1));
    assert_eq!(buffer.blocks[1].unwrap().data, expected_hash([2; 10]));
}

#[test]
fn linked_buffer_fills_all_slots() {
    let mut buffer: BlockRingBuffer = <BlockRingBuffer as BlockRingBufferOps>::new();
    for i in 0..100u8 {
        buffer.add([i; 10]);
    }
    assert_eq!(buffer.length(), 100);
    assert_eq!(buffer.tail, Some(99));
    assert!(buffer.blocks.iter().all(|b| b.is_some()));
    assert_eq!(&buffer.bitmap[..12], &[0xff; 12]);
    assert_eq!(buffer.bitmap[12], 0x0f);
    // the next block wraps round to slot 0
    buffer.add([200; 10]);
    assert_eq!(buffer.length(), 100);
    assert_eq!(buffer.tail, Some(0));
    assert_eq!(buffer.blocks[0].unwrap().data, expected_hash([200; 10]));
    assert_eq!(buffer.blocks[99].unwrap().next, Some(0));
}

#[test]
fn linked_block_hashes_the_number() {
    let block = Block::new([3; 10]);
    assert_eq!(block.data, expected_hash([3; 10]));
    assert_eq!(sha_hash(&[3; 10]), expected_hash([3; 10]));
    assert_eq!(block.next, None);
    let at = Block::new_at([3; 10], -5);
    assert_eq!(at.timestamp, -5);
    assert_eq!(at.data, expected_hash([3; 10]));
}
