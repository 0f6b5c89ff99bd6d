//! Following the links between blocks.
pub mod chain;
pub mod compressed;
pub mod decoder;
pub mod mdf_file;
pub mod raw_channel;
pub mod raw_channel_group;
pub mod raw_data_group;
pub mod records;
pub mod signal_data;
pub mod source_info;
pub mod visited;
