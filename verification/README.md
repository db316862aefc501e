# onechain

A small storage engine for identity blocks, verified with Verus.

- `chain_core::block`: blocks keyed by the first 16 bytes of the SHA-256 of a phone
  number, and the lexicographic order on those keys.
- `chain_core` (`quick_sort`): sorts ring-buffer slots by key (permutation + order).
- `chain_core::skip_list`: the skip-list memtable store (blocks kept as a sorted
  prefix of the slots), its random levels and its ordered insertion;
  `chain_core::skip_node_order`: node comparison by key.
- `chain_core::ringbuffer`, `storage::ring_buffer`: the fixed ring buffers of recent
  blocks with their bitmap and XOR cumulative hash; the latter, when full, is sorted
  and flushed into a memtable from its head on, and otherwise hands the block at its
  head to the memtable.
- `storage::bloom_filter`: the seven-probe bloom filter over xxHash64.
- `storage::ss_table`: the first page of a segment file, the bloom filter first.
- `array_sort`: a median-of-three partition step on ten integers.
- `app/`: memory pinning, page size, memory-mapped segment files, logging and the
  serde form of index entries.
