//! A small storage engine for identity blocks: a fixed ring buffer of recent
//! blocks, a skip-list memtable, a bloom filter and the pieces of an SSTable
//! segment, with the contracts that tie them together.

pub mod chain_core;
pub mod datasource;
pub mod storage;
pub mod bits;
pub mod array_sort;
pub mod blockchain;
