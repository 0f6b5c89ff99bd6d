//! Acquisition sources (`##SI`).
use vstd::prelude::*;

use crate::blocks::common::{data_section, link_at, open_block};
use crate::bytes::read_u64;
use crate::error::{outcome, ErrorView, MdfError};

verus! {

/// Where the values of a channel or a group come from.
#[derive(Debug, Clone, Copy)]
pub struct SourceBlock {
    pub name_addr: u64,
    pub path_addr: u64,
    pub comment_addr: u64,
    pub source_type: u8,
    pub bus_type: u8,
    pub flags: u8,
}

impl DeepView for SourceBlock {
    type V = SourceBlock;

    open spec fn deep_view(&self) -> SourceBlock {
        *self
    }
}

/// Reading a source block from the front of `s`.
pub open spec fn parse_source(s: Seq<u8>) -> Result<SourceBlock, ErrorView> {
    match data_section(s, "##SI"@, 3, 3) {
        Err(error) => Err(error),
        Ok(at) => Ok(
            SourceBlock {
                name_addr: link_at(s, 0),
                path_addr: link_at(s, 1),
                comment_addr: link_at(s, 2),
                source_type: s[at],
                bus_type: s[at + 1],
                flags: s[at + 2],
            },
        ),
    }
}

impl SourceBlock {
    /// Read the source block at the front of `bytes`.
    pub fn from_bytes(bytes: &[u8]) -> (block: Result<Self, MdfError>)
        ensures
            outcome(block) == parse_source(bytes@),
    {
        let at = open_block(bytes, "##SI", 3, 3)?;
        Ok(
            SourceBlock {
                name_addr: read_u64(bytes, 24),
                path_addr: read_u64(bytes, 32),
                comment_addr: read_u64(bytes, 40),
                source_type: bytes[at],
                bus_type: bytes[at + 1],
                flags: bytes[at + 2],
            },
        )
    }
}

} // verus!
