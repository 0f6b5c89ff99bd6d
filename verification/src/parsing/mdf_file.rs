//! A file as a whole: its header, and the tree of data groups, channel groups and channels.
use std::collections::HashSet;
use vstd::prelude::*;

use crate::blocks::channel_block::{channel_block_at, ChannelBlock, ChannelBlockView};
use crate::blocks::channel_group_block::{parse_channel_group, ChannelGroupBlock};
use crate::blocks::common::{block_at, block_bytes};
use crate::blocks::data_group_block::{parse_data_group, DataGroupBlock};
use crate::blocks::header_block::{parse_file_header, HeaderBlock};
use crate::blocks::identification::{check_identification, parse_identification};
use crate::blocks::identification::IDENTIFICATION_LEN;
use crate::error::{outcome, ErrorView, MdfError};
use crate::parsing::raw_channel::RawChannel;
use crate::parsing::raw_channel_group::{ChannelGroupView, RawChannelGroup};
use crate::parsing::raw_data_group::{DataGroupView, RawDataGroup};
use crate::parsing::visited::{addresses_left, cycle, cycle_error, lemma_visit_leaves_fewer};

verus! {

/// A file that has been read. No samples are decoded.
#[derive(Debug)]
pub struct MdfFile {
    /// The version of the format that the file states.
    pub version: u16,
    pub header: HeaderBlock,
    pub data_groups: Vec<RawDataGroup>,
    /// The bytes of the file.
    pub mmap: Vec<u8>,
}

/// The content of an [`MdfFile`].
pub struct FileView {
    pub version: u16,
    pub header: HeaderBlock,
    pub data_groups: Seq<DataGroupView>,
    pub bytes: Seq<u8>,
}

impl DeepView for MdfFile {
    type V = FileView;

    open spec fn deep_view(&self) -> FileView {
        FileView {
            version: self.version,
            header: self.header,
            data_groups: self.data_groups.deep_view(),
            bytes: self.mmap@,
        }
    }
}

/// The channels of the chain from `address` on, behind those `found` before, where the chain
/// has already passed the addresses `visited`.
pub open spec fn channel_chain(
    file: Seq<u8>,
    address: u64,
    visited: Set<u64>,
    found: Seq<ChannelBlockView>,
) -> Result<Seq<ChannelBlockView>, ErrorView>
    decreases addresses_left(visited),
{
    if address == 0 {
        Ok(found)
    } else if visited.contains(address) {
        Err(cycle_error("channel"@, address))
    } else {
        match channel_block_at(file, address) {
            Err(error) => Err(error),
            Ok(block) => {
                proof {
                    lemma_visit_leaves_fewer(visited, address);
                }
                channel_chain(file, block.next_ch_addr, visited.insert(address), found.push(block))
            },
        }
    }
}

/// The channel group at `address` with its channels.
pub open spec fn channel_group_at(file: Seq<u8>, address: u64) -> Result<
    ChannelGroupView,
    ErrorView,
> {
    match block_bytes(file, address) {
        Err(error) => Err(error),
        Ok(bytes) => match parse_channel_group(bytes) {
            Err(error) => Err(error),
            Ok(block) => match channel_chain(
                file,
                block.first_ch_addr,
                Set::empty(),
                Seq::empty(),
            ) {
                Err(error) => Err(error),
                Ok(channels) => Ok(ChannelGroupView { block, channels }),
            },
        },
    }
}

/// The channel groups of the chain from `address` on, behind those `found` before, where the
/// chain has already passed the addresses `visited`.
pub open spec fn channel_group_chain(
    file: Seq<u8>,
    address: u64,
    visited: Set<u64>,
    found: Seq<ChannelGroupView>,
) -> Result<Seq<ChannelGroupView>, ErrorView>
    decreases addresses_left(visited),
{
    if address == 0 {
        Ok(found)
    } else if visited.contains(address) {
        Err(cycle_error("channel group"@, address))
    } else {
        match channel_group_at(file, address) {
            Err(error) => Err(error),
            Ok(group) => {
                proof {
                    lemma_visit_leaves_fewer(visited, address);
                }
                channel_group_chain(
                    file,
                    group.block.next_cg_addr,
                    visited.insert(address),
                    found.push(group),
                )
            },
        }
    }
}

/// The data group at `address` with its channel groups.
pub open spec fn data_group_at(file: Seq<u8>, address: u64) -> Result<DataGroupView, ErrorView> {
    match block_bytes(file, address) {
        Err(error) => Err(error),
        Ok(bytes) => match parse_data_group(bytes) {
            Err(error) => Err(error),
            Ok(block) => match channel_group_chain(
                file,
                block.first_cg_addr,
                Set::empty(),
                Seq::empty(),
            ) {
                Err(error) => Err(error),
                Ok(channel_groups) => Ok(DataGroupView { block, channel_groups }),
            },
        },
    }
}

/// The data groups of the chain from `address` on, behind those `found` before, where the
/// chain has already passed the addresses `visited`.
pub open spec fn data_group_chain(
    file: Seq<u8>,
    address: u64,
    visited: Set<u64>,
    found: Seq<DataGroupView>,
) -> Result<Seq<DataGroupView>, ErrorView>
    decreases addresses_left(visited),
{
    if address == 0 {
        Ok(found)
    } else if visited.contains(address) {
        Err(cycle_error("data group"@, address))
    } else {
        match data_group_at(file, address) {
            Err(error) => Err(error),
            Ok(group) => {
                proof {
                    lemma_visit_leaves_fewer(visited, address);
                }
                data_group_chain(
                    file,
                    group.block.next_dg_addr,
                    visited.insert(address),
                    found.push(group),
                )
            },
        }
    }
}

/// Reading a file: the identification, the header behind it, and the tree of groups that
/// the header leads to.
pub open spec fn parse_file(file: Seq<u8>) -> Result<FileView, ErrorView> {
    match parse_identification(file) {
        Err(error) => Err(error),
        Ok(version) => match parse_file_header(
            file.subrange(IDENTIFICATION_LEN as int, file.len() as int),
        ) {
            Err(error) => Err(error),
            Ok(header) => match data_group_chain(
                file,
                header.first_dg_addr,
                Set::empty(),
                Seq::empty(),
            ) {
                Err(error) => Err(error),
                Ok(data_groups) => Ok(FileView { version, header, data_groups, bytes: file }),
            },
        },
    }
}

/// Read the channels of the chain that starts at `first`.
fn read_channels(mmap: &[u8], first: u64) -> (channels: Result<Vec<RawChannel>, MdfError>)
    ensures
        outcome(channels) == channel_chain(mmap@, first, Set::empty(), Seq::empty()),
{
    broadcast use vstd::std_specs::hash::group_hash_axioms;

    let mut channels: Vec<RawChannel> = Vec::new();
    let mut visited: HashSet<u64> = HashSet::new();
    let mut address: u64 = first;
    assert(channels.deep_view() =~= Seq::empty());
    while address != 0
        invariant
            channel_chain(mmap@, first, Set::empty(), Seq::empty()) == channel_chain(
                mmap@,
                address,
                visited@,
                channels.deep_view(),
            ),
        decreases addresses_left(visited@),
    {
        broadcast use vstd::std_specs::hash::group_hash_axioms;

        let ghost seen = visited@;
        let ghost found = channels.deep_view();
        if !visited.insert(address) {
            return Err(cycle("channel", address));
        }
        proof {
            lemma_visit_leaves_fewer(seen, address);
        }
        let block = ChannelBlock::from_mmap(mmap, address)?;
        let ghost view = block.deep_view();
        address = block.next_ch_addr;
        channels.push(RawChannel { block });
        assert(channels.deep_view() =~= found.push(view));
    }
    Ok(channels)
}

/// Read the channel group at `address` with its channels.
fn read_channel_group(mmap: &[u8], address: u64) -> (group: Result<RawChannelGroup, MdfError>)
    ensures
        outcome(group) == channel_group_at(mmap@, address),
{
    let bytes = block_at(mmap, address)?;
    let block = ChannelGroupBlock::from_bytes(bytes)?;
    let raw_channels = read_channels(mmap, block.first_ch_addr)?;
    Ok(RawChannelGroup { block, raw_channels })
}

/// Read the channel groups of the chain that starts at `first`.
fn read_channel_groups(mmap: &[u8], first: u64) -> (groups: Result<Vec<RawChannelGroup>, MdfError>)
    ensures
        outcome(groups) == channel_group_chain(mmap@, first, Set::empty(), Seq::empty()),
{
    broadcast use vstd::std_specs::hash::group_hash_axioms;

    let mut groups: Vec<RawChannelGroup> = Vec::new();
    let mut visited: HashSet<u64> = HashSet::new();
    let mut address: u64 = first;
    assert(groups.deep_view() =~= Seq::empty());
    while address != 0
        invariant
            channel_group_chain(mmap@, first, Set::empty(), Seq::empty()) == channel_group_chain(
                mmap@,
                address,
                visited@,
                groups.deep_view(),
            ),
        decreases addresses_left(visited@),
    {
        broadcast use vstd::std_specs::hash::group_hash_axioms;

        let ghost seen = visited@;
        let ghost found = groups.deep_view();
        if !visited.insert(address) {
            return Err(cycle("channel group", address));
        }
        proof {
            lemma_visit_leaves_fewer(seen, address);
        }
        let group = read_channel_group(mmap, address)?;
        let ghost view = group.deep_view();
        address = group.block.next_cg_addr;
        groups.push(group);
        assert(groups.deep_view() =~= found.push(view));
    }
    Ok(groups)
}

/// Read the data group at `address` with its channel groups.
fn read_data_group(mmap: &[u8], address: u64) -> (group: Result<RawDataGroup, MdfError>)
    ensures
        outcome(group) == data_group_at(mmap@, address),
{
    let bytes = block_at(mmap, address)?;
    let block = DataGroupBlock::from_bytes(bytes)?;
    let channel_groups = read_channel_groups(mmap, block.first_cg_addr)?;
    Ok(RawDataGroup { block, channel_groups })
}

/// Read the data groups of the chain that starts at `first`.
fn read_data_groups(mmap: &[u8], first: u64) -> (groups: Result<Vec<RawDataGroup>, MdfError>)
    ensures
        outcome(groups) == data_group_chain(mmap@, first, Set::empty(), Seq::empty()),
{
    broadcast use vstd::std_specs::hash::group_hash_axioms;

    let mut groups: Vec<RawDataGroup> = Vec::new();
    let mut visited: HashSet<u64> = HashSet::new();
    let mut address: u64 = first;
    assert(groups.deep_view() =~= Seq::empty());
    while address != 0
        invariant
            data_group_chain(mmap@, first, Set::empty(), Seq::empty()) == data_group_chain(
                mmap@,
                address,
                visited@,
                groups.deep_view(),
            ),
        decreases addresses_left(visited@),
    {
        broadcast use vstd::std_specs::hash::group_hash_axioms;

        let ghost seen = visited@;
        let ghost found = groups.deep_view();
        if !visited.insert(address) {
            return Err(cycle("data group", address));
        }
        proof {
            lemma_visit_leaves_fewer(seen, address);
        }
        let group = read_data_group(mmap, address)?;
        let ghost view = group.deep_view();
        address = group.block.next_dg_addr;
        groups.push(group);
        assert(groups.deep_view() =~= found.push(view));
    }
    Ok(groups)
}

impl MdfFile {
    /// Read a file from its bytes.
    pub fn parse_from_bytes(data: Vec<u8>) -> (file: Result<Self, MdfError>)
        ensures
            outcome(file) == parse_file(data@),
    {
        let bytes = data.as_slice();
        let version = check_identification(bytes)?;
        let header = HeaderBlock::from_bytes(&bytes[IDENTIFICATION_LEN..bytes.len()])?;
        let data_groups = read_data_groups(bytes, header.first_dg_addr)?;
        Ok(MdfFile { version, header, data_groups, mmap: data })
    }
}

} // verus!
