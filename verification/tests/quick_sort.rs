use onechain::array_sort;
use onechain::chain_core::block::Block;
use onechain::chain_core::quick_sort;
use onechain::storage::ring_buffer::BlockRingBuffer;

/// Helper function to generate a `BlockRingBuffer` with hashed `data` values
fn create_test_ringbuffer(data_values: &[&[u8; 16]]) -> BlockRingBuffer {
    let mut buffer = BlockRingBuffer::new();
    let mut index = 0;

    for j in 0..100 {
        let data = data_values[index % data_values.len()]; // Repeat in order
        buffer.blocks[j] = Some(Block {
            data: *data, // Copy the provided value
            timestamp: 0,
            disabled: false,
            next: None,
        });

        index += 1; // Move sequentially through the input values
    }

    buffer
}

/// Helper function to extract `data` values from the ring buffer after sorting
fn extract_data(buffer: &BlockRingBuffer) -> Vec<[u8; 16]> {
    buffer.blocks.iter().filter_map(|b| b.map(|block| block.data)).collect()
}

/// Test sorting a reverse lexicographically sorted ring buffer
#[test]
fn test_quick_sort_reverse_sorted() {
    let mut buffer = create_test_ringbuffer(&[
        b"eeeeeeeeeeeeeeee",
        b"dddddddddddddddd",
        b"cccccccccccccccc",
        b"bbbbbbbbbbbbbbbb",
        b"aaaaaaaaaaaaaaaa",
    ]);

    quick_sort(buffer.blocks.as_mut());

    // Extract and sort expected values manually
    let mut expected = extract_data(&buffer);
    expected.sort();

    assert_eq!(extract_data(&buffer), expected);
}

fn block(data: [u8; 16], disabled: bool) -> Option<Block> {
    Some(Block { data, timestamp: 7, disabled, next: None })
}

#[test]
fn quick_sort_orders_bytes_lexicographically_and_keeps_blocks() {
    let mut a = [0u8; 16];
    a[0] = 2;
    let mut b = [0u8; 16];
    b[0] = 1;
    b[15] = 255;
    let mut c = [0u8; 16];
    c[0] = 1;
    c[15] = 3;
    let mut slots = vec![block(a, true), block(b, false), block(c, false), block(b, true)];
    quick_sort(slots.as_mut_slice());
    let keys: Vec<[u8; 16]> = slots.iter().map(|s| s.unwrap().data).collect();
    assert_eq!(keys, vec![c, b, b, a]);
    // the tombstone markers travel with their blocks
    assert!(slots[3].unwrap().disabled);
    assert_eq!(slots.iter().filter(|s| s.unwrap().disabled).count(), 2);
}

#[test]
fn quick_sort_leaves_short_slices_alone() {
    let mut empty: Vec<Option<Block>> = Vec::new();
    quick_sort(empty.as_mut_slice());
    assert!(empty.is_empty());
    let mut one = vec![None];
    quick_sort(one.as_mut_slice());
    assert!(one[0].is_none());
}

#[test]
fn quick_sort_sorts_an_already_sorted_buffer() {
    let mut slots: Vec<Option<Block>> = (0u8..20).map(|i| block([i; 16], false)).collect();
    quick_sort(slots.as_mut_slice());
    let keys: Vec<u8> = slots.iter().map(|s| s.unwrap().data[0]).collect();
    assert_eq!(keys, (0u8..20).collect::<Vec<u8>>());
}

#[test]
fn partition_step_places_the_median_pivot() {
    let mut arr = [9, 1, 8, 2, 7, 5, 6, 3, 4, 0];
    // median of arr[0] = 9, arr[5] = 5, arr[9] = 0 is 5, at position 5
    let p = array_sort::pivot(&mut arr, 0, 5, 9);
    assert_eq!(p, 5);
    let out = array_sort::quick_sort(&mut arr);
    let j = out.iter().position(|&v| v == 5).unwrap();
    assert!(out[..j].iter().all(|&v| v < 5));
    assert!(out[j + 1..].iter().all(|&v| v >= 5));
    let mut sorted = *out;
    sorted.sort();
    assert_eq!(sorted, [0, 1, 2, 3, 4, 5, 6, 7, 8, 9]);
}

#[test]
fn pivot_breaks_ties_towards_high() {
    let mut arr = [1, 0, 0, 0, 0, 1, 0, 0, 0, 5];
    // 1, 1, 5: neither low nor mid is strictly between the others, so high is taken
    assert_eq!(array_sort::pivot(&mut arr, 0, 5, 9), 9);
}
