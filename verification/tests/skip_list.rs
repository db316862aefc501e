use onechain::chain_core::skip_list::{
    level_after_draw, level_for_draws, level_step, random_level, SkipList, SkipListOps, SkipNode, CAPACITY, MAX_LEVEL,
};
use onechain::datasource::DataSource;
use onechain::storage::mem_table::{MemTable, MemTableOps};

#[test]
fn test_bitmap_code() {
    // init 10 elements with 0 (nibble 1= layer, nibble 2 = next index)
    // assume max_level in question is 5 for an element to be inserted
    let byte_index = 10 / 8;
    let bit_offset = 10 % 4;
    let a = [0b0000_0000; 10];
    println!("{:08b}", (a[byte_index] | (1 << (bit_offset + 4)) & 0xF0));
}

#[test]
fn random_level_stays_in_range() {
    for source in [DataSource::RingBuffer, DataSource::MemTable, DataSource::SSTable] {
        for _ in 0..200 {
            let level = random_level(&[3; 16], source);
            assert!((1..=MAX_LEVEL).contains(&level));
        }
    }
}

#[test]
fn level_after_draw_uses_the_source_threshold() {
    // 0.80 of the range: below none of 0.75, 0.50 and 0.25
    let high = (((1u64 << 53) / 5) * 4) << 11;
    // 0.375: below 0.75 and 0.50 only
    let mid = (3u64 << 50) << 11;
    // exactly 0.75: not below it
    let at = (3u64 << 51) << 11;
    assert_eq!(level_after_draw(1, DataSource::RingBuffer, high), 1);
    assert_eq!(level_after_draw(1, DataSource::RingBuffer, mid), 2);
    assert_eq!(level_after_draw(1, DataSource::RingBuffer, at), 1);
    assert_eq!(level_after_draw(3, DataSource::MemTable, mid), 4);
    assert_eq!(level_after_draw(3, DataSource::SSTable, mid), 3);
    assert_eq!(level_after_draw(3, DataSource::SSTable, 0), 4);
    assert_eq!(level_after_draw(7, DataSource::RingBuffer, 0), 8);
}

#[test]
fn level_step_stops_on_a_false_coin_or_at_the_top() {
    assert_eq!(level_step(3, DataSource::RingBuffer, false, 0), (3, false));
    assert_eq!(level_step(MAX_LEVEL, DataSource::RingBuffer, true, 0), (MAX_LEVEL, false));
    assert_eq!(level_step(3, DataSource::RingBuffer, true, 0), (4, true));
    assert_eq!(level_step(3, DataSource::SSTable, true, u64::MAX), (3, true));
}

#[test]
fn hotter_sources_climb_at_least_as_high_with_the_same_draws() {
    let draws = [(3u64 << 50) << 11, 0, (3u64 << 51) << 11, 1 << 60];
    let run = |source| {
        let mut level = 1;
        for &d in draws.iter() {
            let (next, go_on) = level_step(level, source, true, d);
            level = next;
            if !go_on {
                break;
            }
        }
        level
    };
    let (hot, medium, cold) = (run(DataSource::RingBuffer), run(DataSource::MemTable), run(DataSource::SSTable));
    assert!(hot >= medium && medium >= cold);
    assert_eq!((hot, medium, cold), (4, 4, 3));
    let coins = [true; 4];
    assert_eq!(level_for_draws(DataSource::RingBuffer, &coins, &draws), 4);
    assert_eq!(level_for_draws(DataSource::SSTable, &coins, &draws), 3);
}

#[test]
fn level_for_draws_stops_at_a_false_coin_and_at_the_top() {
    assert_eq!(level_for_draws(DataSource::RingBuffer, &[], &[]), 1);
    assert_eq!(level_for_draws(DataSource::RingBuffer, &[true, false, true], &[0, 0, 0]), 2);
    assert_eq!(level_for_draws(DataSource::SSTable, &[true; 20], &[0; 20]), MAX_LEVEL);
}

#[test]
fn new_skip_list_is_empty() {
    let list = SkipList::_new();
    assert_eq!(list.size(), 0);
    assert!(list.heads.iter().all(|&h| h == usize::MAX));
    assert_eq!(list.blocks.len(), CAPACITY);
}

#[test]
fn add_stores_the_key_in_order() {
    let mut list = SkipList::_new();
    assert!(list.add(&[5; 16], false));
    assert!(list.add(&[1; 16], false));
    assert!(list.add(&[3; 16], true));
    assert!(list.add(&[3; 16], false));
    assert_eq!(list.size(), 4);
    let keys: Vec<u8> = list.blocks.iter().flatten().map(|n| n.data[0]).collect();
    assert_eq!(keys, vec![1, 3, 3, 5]);
    // the later equal key goes before the earlier one
    assert!(!list.blocks[1].unwrap().tombstone);
    assert!(list.blocks[2].unwrap().tombstone);
    assert!(list.blocks[4].is_none());
}

#[test]
fn add_at_level_inserts_and_marks_its_levels() {
    let mut list = SkipList::_new();
    list.add_at_level(&[1; 16], false, 1);
    list.add_at_level(&[3; 16], false, 1);
    list.add_at_level(&[5; 16], false, 1);
    list.heads[0] = 0;
    list.heads[1] = 1;
    let inserted = list.add_at_level(&[2; 16], true, 2);
    assert!(inserted);
    assert_eq!(list.size(), 4);
    let stored = list.blocks[1].unwrap();
    assert_eq!(stored.data, [2; 16]);
    assert!(stored.tombstone);
    // level 1 counts from its head at slot 1 (step 0) and sets bit (1 % 4) + 4;
    // level 0 counts from slot 0 (step 1) and sets bit 4
    assert_eq!(stored.layer_next[0], 0b0011_0011);
    assert_eq!(list.blocks[0].unwrap().data, [1; 16]);
    assert_eq!(list.blocks[2].unwrap().data, [3; 16]);
    assert_eq!(list.blocks[3].unwrap().data, [5; 16]);
}

#[test]
fn add_at_level_counts_from_slot_zero_past_the_heads() {
    let mut list = SkipList::_new();
    list.add_at_level(&[1; 16], false, 1);
    // heads are past the end: both levels count 1 step from slot 0
    assert!(list.add_at_level(&[9; 16], false, 2));
    assert_eq!(list.blocks[1].unwrap().layer_next[0], 0b0011_0010);
    // the first key was stored at slot 0 with one level and step 0
    assert_eq!(list.blocks[0].unwrap().layer_next[0], 0b0001_0001);
}

#[test]
fn skip_nodes_compare_by_data_only() {
    let a = SkipNode::new([1; 16], false, DataSource::RingBuffer);
    let mut b = SkipNode::new([1; 16], true, DataSource::SSTable);
    b.layer_next[0] = 9;
    let c = SkipNode::new([2; 16], false, DataSource::RingBuffer);
    assert!(a == b);
    assert!(a != c);
    assert!(a < c);
    assert_eq!(c.partial_cmp(&a), Some(std::cmp::Ordering::Greater));
    assert_eq!(a.partial_cmp(&b), Some(std::cmp::Ordering::Equal));
}

#[test]
fn memtable_add_grows_the_table() {
    let mut table = MemTable::new();
    assert_eq!(table.last_flushed, 0);
    assert!(table.add(&[4; 16], true));
    assert!(table.add(&[2; 16], false));
    assert_eq!(table.blocks.size(), 2);
    assert_eq!(table.blocks.blocks[0].unwrap().data, [2; 16]);
    assert!(table.blocks.blocks[1].unwrap().tombstone);
    assert!(table.blocks.heads.iter().all(|&h| h == usize::MAX));
    assert_eq!(table.last_flushed, 0);
}
