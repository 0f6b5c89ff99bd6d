//! Acquisition sources with their texts.
use vstd::prelude::*;

use crate::blocks::common::{block_at, block_bytes, read_string_block, string_block};
use crate::blocks::source_block::{parse_source, SourceBlock};
use crate::error::{outcome, ErrorView, MdfError};

verus! {

/// What a file says of an acquisition source.
#[derive(Debug)]
pub struct SourceInfo {
    pub block: SourceBlock,
    pub name: Option<String>,
    pub path: Option<String>,
    pub comment: Option<String>,
}

/// The content of a [`SourceInfo`].
pub struct SourceView {
    pub block: SourceBlock,
    pub name: Option<Seq<char>>,
    pub path: Option<Seq<char>>,
    pub comment: Option<Seq<char>>,
}

impl DeepView for SourceInfo {
    type V = SourceView;

    open spec fn deep_view(&self) -> SourceView {
        SourceView {
            block: self.block,
            name: self.name.deep_view(),
            path: self.path.deep_view(),
            comment: self.comment.deep_view(),
        }
    }
}

/// A source block with the texts that it links to.
pub open spec fn described(file: Seq<u8>, block: SourceBlock) -> Result<SourceView, ErrorView> {
    match string_block(file, block.name_addr) {
        Err(error) => Err(error),
        Ok(name) => match string_block(file, block.path_addr) {
            Err(error) => Err(error),
            Ok(path) => match string_block(file, block.comment_addr) {
                Err(error) => Err(error),
                Ok(comment) => Ok(SourceView { block, name, path, comment }),
            },
        },
    }
}

/// The source at `address`; none for a null link.
pub open spec fn source_at(file: Seq<u8>, address: u64) -> Result<Option<SourceView>, ErrorView> {
    if address == 0 {
        Ok(None)
    } else {
        match block_bytes(file, address) {
            Err(error) => Err(error),
            Ok(bytes) => match parse_source(bytes) {
                Err(error) => Err(error),
                Ok(block) => match described(file, block) {
                    Err(error) => Err(error),
                    Ok(source) => Ok(Some(source)),
                },
            },
        }
    }
}

impl SourceInfo {
    /// Read the source at `address`; none for a null link.
    pub fn from_mmap(mmap: &[u8], address: u64) -> (source: Result<Option<Self>, MdfError>)
        ensures
            outcome(source) == source_at(mmap@, address),
    {
        if address == 0 {
            return Ok(None);
        }
        let bytes = block_at(mmap, address)?;
        let block = SourceBlock::from_bytes(bytes)?;
        let name = read_string_block(mmap, block.name_addr)?;
        let path = read_string_block(mmap, block.path_addr)?;
        let comment = read_string_block(mmap, block.comment_addr)?;
        Ok(Some(SourceInfo { block, name, path, comment }))
    }
}

} // verus!
