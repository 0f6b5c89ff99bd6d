//! Data groups (`##DG`).
use vstd::prelude::*;

use crate::blocks::common::{data_section, link_at, open_block};
use crate::bytes::read_u64;
use crate::error::{outcome, ErrorView, MdfError};

verus! {

/// A data group: channel groups whose records share one chain of data blocks.
#[derive(Debug, Clone, Copy)]
pub struct DataGroupBlock {
    pub next_dg_addr: u64,
    pub first_cg_addr: u64,
    pub data_block_addr: u64,
    pub comment_addr: u64,
    /// Bytes that each record id takes; 0 where the data holds records of one group only.
    pub record_id_len: u8,
}

impl DeepView for DataGroupBlock {
    type V = DataGroupBlock;

    open spec fn deep_view(&self) -> DataGroupBlock {
        *self
    }
}

/// Reading a data group block from the front of `s`.
pub open spec fn parse_data_group(s: Seq<u8>) -> Result<DataGroupBlock, ErrorView> {
    match data_section(s, "##DG"@, 4, 1) {
        Err(error) => Err(error),
        Ok(at) => Ok(
            DataGroupBlock {
                next_dg_addr: link_at(s, 0),
                first_cg_addr: link_at(s, 1),
                data_block_addr: link_at(s, 2),
                comment_addr: link_at(s, 3),
                record_id_len: s[at],
            },
        ),
    }
}

impl DataGroupBlock {
    /// Read the data group block at the front of `bytes`.
    pub fn from_bytes(bytes: &[u8]) -> (block: Result<Self, MdfError>)
        ensures
            outcome(block) == parse_data_group(bytes@),
    {
        let at = open_block(bytes, "##DG", 4, 1)?;
        Ok(
            DataGroupBlock {
                next_dg_addr: read_u64(bytes, 24),
                first_cg_addr: read_u64(bytes, 32),
                data_block_addr: read_u64(bytes, 40),
                comment_addr: read_u64(bytes, 48),
                record_id_len: bytes[at],
            },
        )
    }
}

} // verus!
