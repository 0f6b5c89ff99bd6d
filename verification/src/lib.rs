//! Reading of ASAM MDF 4 measurement files.
pub mod api;
pub mod block_layout;
pub mod blocks;
pub mod bytes;
pub mod error;
pub mod laws;
pub mod parsing;
pub mod signal;
pub mod text;
