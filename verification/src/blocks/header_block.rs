//! The file header (`##HD`).
use vstd::prelude::*;

use crate::blocks::common::{data_section, link_at, open_block};
use crate::bytes::{read_u64, u64_at};
use crate::error::{outcome, ErrorView, MdfError};

verus! {

/// The header of a file: where its data groups start, and when the measurement did.
#[derive(Debug, Clone, Copy)]
pub struct HeaderBlock {
    pub first_dg_addr: u64,
    pub file_history_addr: u64,
    pub channel_tree_addr: u64,
    pub first_attachment_addr: u64,
    pub first_event_addr: u64,
    pub comment_addr: u64,
    /// Start of the measurement in nanoseconds since the epoch; 0 where it is not set.
    pub abs_time: u64,
}

impl DeepView for HeaderBlock {
    type V = HeaderBlock;

    open spec fn deep_view(&self) -> HeaderBlock {
        *self
    }
}

/// Reading a file header from the front of `s`.
pub open spec fn parse_file_header(s: Seq<u8>) -> Result<HeaderBlock, ErrorView> {
    match data_section(s, "##HD"@, 6, 8) {
        Err(error) => Err(error),
        Ok(at) => Ok(
            HeaderBlock {
                first_dg_addr: link_at(s, 0),
                file_history_addr: link_at(s, 1),
                channel_tree_addr: link_at(s, 2),
                first_attachment_addr: link_at(s, 3),
                first_event_addr: link_at(s, 4),
                comment_addr: link_at(s, 5),
                abs_time: u64_at(s, at),
            },
        ),
    }
}

impl HeaderBlock {
    /// Read the file header at the front of `bytes`.
    pub fn from_bytes(bytes: &[u8]) -> (block: Result<Self, MdfError>)
        ensures
            outcome(block) == parse_file_header(bytes@),
    {
        let at = open_block(bytes, "##HD", 6, 8)?;
        Ok(
            HeaderBlock {
                first_dg_addr: read_u64(bytes, 24),
                file_history_addr: read_u64(bytes, 32),
                channel_tree_addr: read_u64(bytes, 40),
                first_attachment_addr: read_u64(bytes, 48),
                first_event_addr: read_u64(bytes, 56),
                comment_addr: read_u64(bytes, 64),
                abs_time: read_u64(bytes, at),
            },
        )
    }
}

} // verus!
