//! The storage engine: blocks, field stores, series stores and the merge.

pub mod block_bool;
pub mod block_manager;
pub mod block_storage;
pub mod data_parser;
pub mod field;
pub mod field_block;
pub mod field_index;
pub mod merge;
pub mod name_index;
pub mod series;
