pub mod mem_table;
pub mod ring_buffer;
pub mod bloom_filter;
pub mod footer;
pub mod index_block;
pub mod ss_table;
