//! Channel groups (`##CG`).
use vstd::prelude::*;

use crate::blocks::common::{data_section, link_at, open_block};
use crate::bytes::{read_u16, read_u32, read_u64, u16_at, u32_at, u64_at};
use crate::error::{outcome, ErrorView, MdfError};

verus! {

/// A channel group: the channels that share one record layout.
#[derive(Debug, Clone, Copy)]
pub struct ChannelGroupBlock {
    pub next_cg_addr: u64,
    pub first_ch_addr: u64,
    pub acq_name_addr: u64,
    pub acq_source_addr: u64,
    pub first_sample_reduction_addr: u64,
    pub comment_addr: u64,
    pub record_id: u64,
    /// Number of records.
    pub cycles_nr: u64,
    pub flags: u16,
    /// Bytes that the channel values take in a record.
    pub samples_byte_nr: u32,
    /// Bytes that the invalidation bits take in a record.
    pub invalidation_bytes_nr: u32,
}

impl DeepView for ChannelGroupBlock {
    type V = ChannelGroupBlock;

    open spec fn deep_view(&self) -> ChannelGroupBlock {
        *self
    }
}

/// Reading a channel group block from the front of `s`.
pub open spec fn parse_channel_group(s: Seq<u8>) -> Result<ChannelGroupBlock, ErrorView> {
    match data_section(s, "##CG"@, 6, 32) {
        Err(error) => Err(error),
        Ok(at) => Ok(
            ChannelGroupBlock {
                next_cg_addr: link_at(s, 0),
                first_ch_addr: link_at(s, 1),
                acq_name_addr: link_at(s, 2),
                acq_source_addr: link_at(s, 3),
                first_sample_reduction_addr: link_at(s, 4),
                comment_addr: link_at(s, 5),
                record_id: u64_at(s, at),
                cycles_nr: u64_at(s, at + 8),
                flags: u16_at(s, at + 16),
                samples_byte_nr: u32_at(s, at + 24),
                invalidation_bytes_nr: u32_at(s, at + 28),
            },
        ),
    }
}

impl ChannelGroupBlock {
    /// Read the channel group block at the front of `bytes`.
    pub fn from_bytes(bytes: &[u8]) -> (block: Result<Self, MdfError>)
        ensures
            outcome(block) == parse_channel_group(bytes@),
    {
        let at = open_block(bytes, "##CG", 6, 32)?;
        Ok(
            ChannelGroupBlock {
                next_cg_addr: read_u64(bytes, 24),
                first_ch_addr: read_u64(bytes, 32),
                acq_name_addr: read_u64(bytes, 40),
                acq_source_addr: read_u64(bytes, 48),
                first_sample_reduction_addr: read_u64(bytes, 56),
                comment_addr: read_u64(bytes, 64),
                record_id: read_u64(bytes, at),
                cycles_nr: read_u64(bytes, at + 8),
                flags: read_u16(bytes, at + 16),
                samples_byte_nr: read_u32(bytes, at + 24),
                invalidation_bytes_nr: read_u32(bytes, at + 28),
            },
        )
    }
}

} // verus!
