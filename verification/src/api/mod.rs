//! The interface to a file: groups, channels and their signals.
pub mod agreement;
pub mod bulk;
pub mod channel;
pub mod channel_group;
pub mod mdf;
