//! The blocks that an MDF file is made of.
pub mod channel_block;
pub mod channel_group_block;
pub mod common;
pub mod conversion;
pub mod data_block;
pub mod data_group_block;
pub mod data_list_block;
pub mod header_block;
pub mod identification;
pub mod source_block;
