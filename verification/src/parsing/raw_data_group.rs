//! A data group as it was read from the file, and its chain of data blocks.
use std::collections::HashSet;
use vstd::prelude::*;

use crate::blocks::common::{block_at, block_bytes, header_of, BlockHeader, HEADER_LEN};
use crate::blocks::data_block::{DataBlock, DataBlockView};
use crate::blocks::data_group_block::DataGroupBlock;
use crate::blocks::data_list_block::{parse_data_list, DataListBlock};
use crate::bytes::{read_u64, u64_at};
use crate::error::{outcome, too_short, ErrorView, MdfError};
use crate::parsing::compressed::{data_fragment, parse_data_fragment};
use crate::parsing::raw_channel_group::{ChannelGroupView, RawChannelGroup};
use crate::parsing::visited::{addresses_left, cycle, cycle_error, lemma_visit_leaves_fewer};

verus! {

/// A data group and its channel groups, in the order of the file.
#[derive(Debug)]
pub struct RawDataGroup {
    pub block: DataGroupBlock,
    pub channel_groups: Vec<RawChannelGroup>,
}

/// The content of a [`RawDataGroup`].
pub struct DataGroupView {
    pub block: DataGroupBlock,
    pub channel_groups: Seq<ChannelGroupView>,
}

impl DeepView for RawDataGroup {
    type V = DataGroupView;

    open spec fn deep_view(&self) -> DataGroupView {
        DataGroupView { block: self.block, channel_groups: self.channel_groups.deep_view() }
    }
}

/// The fragments that the links of a list lead to, in the order of the list. Null links
/// lead to none.
pub open spec fn list_fragments(file: Seq<u8>, links: Seq<u64>) -> Result<
    Seq<DataBlockView>,
    ErrorView,
>
    decreases links.len(),
{
    if links.len() == 0 {
        Ok(Seq::empty())
    } else {
        match list_fragments(file, links.drop_last()) {
            Err(error) => Err(error),
            Ok(before) => {
                let offset = links.last() as usize as int;
                if links.last() == 0 {
                    Ok(before)
                } else if offset > file.len() {
                    Err(too_short(file.len() as int, offset + HEADER_LEN))
                } else {
                    match data_fragment(file.subrange(offset, file.len() as int)) {
                        Err(error) => Err(error),
                        Ok(block) => Ok(before.push(block)),
                    }
                }
            },
        }
    }
}

/// What the block at `address` contributes to a chain of data: its data blocks, and the
/// address at which the chain goes on (0 at its end).
pub open spec fn chain_step(file: Seq<u8>, address: u64) -> Result<
    (Seq<DataBlockView>, u64),
    ErrorView,
> {
    match block_bytes(file, address) {
        Err(error) => Err(error),
        Ok(block) => {
            let id = header_of(block).id;
            if id == "##DT"@ || id == "##DV"@ || id == "##DZ"@ {
                match data_fragment(block) {
                    Err(error) => Err(error),
                    Ok(data) => Ok((seq![data], 0)),
                }
            } else if id == "##HL"@ {
                if block.len() < 32 {
                    Err(too_short(file.len() as int, (address as usize) + 32))
                } else {
                    Ok((Seq::empty(), u64_at(block, 24)))
                }
            } else if id == "##DL"@ {
                match parse_data_list(block) {
                    Err(error) => Err(error),
                    Ok(list) => match list_fragments(file, list.data_links) {
                        Err(error) => Err(error),
                        Ok(blocks) => Ok((blocks, list.next)),
                    },
                }
            } else {
                Err(
                    ErrorView::BlockIDError {
                        actual: id,
                        expected: "##DT / ##DV / ##DL / ##DZ / ##HL"@,
                    },
                )
            }
        },
    }
}

/// The data blocks of the chain from `address` on, behind those `found` before, where the
/// chain has already passed the addresses `visited`.
pub open spec fn data_chain(
    file: Seq<u8>,
    address: u64,
    visited: Set<u64>,
    found: Seq<DataBlockView>,
) -> Result<Seq<DataBlockView>, ErrorView>
    decreases addresses_left(visited),
{
    if address == 0 {
        Ok(found)
    } else if visited.contains(address) {
        Err(cycle_error("data block"@, address))
    } else {
        match chain_step(file, address) {
            Err(error) => Err(error),
            Ok((blocks, next)) => {
                proof {
                    lemma_visit_leaves_fewer(visited, address);
                }
                data_chain(file, next, visited.insert(address), found + blocks)
            },
        }
    }
}

/// The message for data groups that mix the records of several channel groups.
pub open spec fn unsorted_message() -> Seq<char> {
    "unsorted data groups (multiple channel groups per data group) are not supported"@
}

/// All data blocks of a data group.
pub open spec fn group_data_blocks(group: DataGroupView, file: Seq<u8>) -> Result<
    Seq<DataBlockView>,
    ErrorView,
> {
    if group.block.record_id_len > 0 && group.channel_groups.len() > 1 {
        Err(ErrorView::BlockSerializationError(unsorted_message()))
    } else {
        data_chain(file, group.block.data_block_addr, Set::empty(), Seq::empty())
    }
}

/// Blocks are owned exactly where they were inflated; plain ones borrow the file.
pub open spec fn owned_where_inflated<'a>(blocks: Seq<DataBlock<'a>>) -> bool {
    forall|i: int|
        0 <= i < blocks.len() ==> ((#[trigger] blocks[i]).data is Owned <==> blocks[i].header.id@
            == "##DZ"@)
}

/// Read the fragments that `links` lead to, and put them behind those `collected`.
fn collect_fragments<'a>(
    mmap: &'a [u8],
    links: &Vec<u64>,
    collected: &mut Vec<DataBlock<'a>>,
) -> (done: Result<(), MdfError>)
    ensures
        owned_where_inflated(old(collected)@) ==> owned_where_inflated(final(collected)@),
        match done {
            Ok(()) => list_fragments(mmap@, links@) is Ok && final(collected).deep_view() == old(
                collected,
            ).deep_view() + list_fragments(mmap@, links@)->Ok_0,
            Err(error) => list_fragments(mmap@, links@) == Err::<Seq<DataBlockView>, ErrorView>(
                error.deep_view(),
            ),
        },
{
    let ghost before = collected.deep_view();
    let mut i: usize = 0;
    assert(links@.subrange(0, 0) =~= Seq::empty());
    assert(before + Seq::<DataBlockView>::empty() =~= before);
    while i < links.len()
        invariant
            i <= links.len(),
            owned_where_inflated(old(collected)@) ==> owned_where_inflated(collected@),
            list_fragments(mmap@, links@.subrange(0, i as int)) is Ok,
            collected.deep_view() == before + list_fragments(
                mmap@,
                links@.subrange(0, i as int),
            )->Ok_0,
        decreases links.len() - i,
    {
        let fragment_address = links[i];
        let ghost known = links@.subrange(0, i as int);
        let ghost longer = links@.subrange(0, i + 1);
        proof {
            assert(longer.drop_last() =~= known);
        }
        if fragment_address != 0 {
            let fragment_offset = fragment_address as usize;
            if fragment_offset > mmap.len() {
                proof {
                    lemma_fragment_error(mmap@, links@, i + 1);
                }
                return Err(
                    MdfError::TooShortBuffer {
                        actual: mmap.len(),
                        expected: fragment_offset.saturating_add(HEADER_LEN),
                    },
                );
            }
            match parse_data_fragment(&mmap[fragment_offset..mmap.len()]) {
                Err(error) => {
                    proof {
                        lemma_fragment_error(mmap@, links@, i + 1);
                    }
                    return Err(error);
                },
                Ok(block) => {
                    let ghost old_blocks = collected.deep_view();
                    collected.push(block);
                    assert(collected.deep_view() =~= old_blocks.push(block.deep_view()));
                    assert(collected.deep_view() =~= before + list_fragments(mmap@, longer)->Ok_0);
                },
            }
        }
        i = i + 1;
    }
    assert(links@.subrange(0, i as int) =~= links@);
    Ok(())
}

/// An error among the first links is the error of the whole list.
proof fn lemma_fragment_error(file: Seq<u8>, links: Seq<u64>, count: int)
    requires
        0 <= count <= links.len(),
        list_fragments(file, links.subrange(0, count)) is Err,
    ensures
        list_fragments(file, links) == list_fragments(file, links.subrange(0, count)),
    decreases links.len() - count,
{
    if count == links.len() {
        assert(links.subrange(0, count) =~= links);
    } else {
        assert(links.subrange(0, count + 1).drop_last() =~= links.subrange(0, count));
        lemma_fragment_error(file, links, count + 1);
    }
}

impl RawDataGroup {
    /// Collect all data blocks of this data group.
    ///
    /// The blocks come in the order of the chain that starts at the group's data link:
    /// lists (`##DL`) and list headers (`##HL`) are followed, compressed blocks inflated.
    /// Plain blocks borrow the file.
    /// Groups that interleave the records of several channel groups are refused.
    pub fn data_blocks<'a>(&self, mmap: &'a [u8]) -> (blocks: Result<
        Vec<DataBlock<'a>>,
        MdfError,
    >)
        ensures
            outcome(blocks) == group_data_blocks(self.deep_view(), mmap@),
            blocks matches Ok(read) ==> owned_where_inflated(read@),
    {
        broadcast use vstd::std_specs::hash::group_hash_axioms;

        if self.block.record_id_len > 0 && self.channel_groups.len() > 1 {
            return Err(
                MdfError::BlockSerializationError(
                    "unsorted data groups (multiple channel groups per data group) are not supported".to_string(),
                ),
            );
        }
        let mut collected_blocks: Vec<DataBlock<'a>> = Vec::new();
        let mut current_block_address = self.block.data_block_addr;
        let mut visited: HashSet<u64> = HashSet::new();
        assert(collected_blocks.deep_view() =~= Seq::empty());
        while current_block_address != 0
            invariant
                owned_where_inflated(collected_blocks@),
                group_data_blocks(self.deep_view(), mmap@) == data_chain(
                    mmap@,
                    current_block_address,
                    visited@,
                    collected_blocks.deep_view(),
                ),
            decreases addresses_left(visited@),
        {
            broadcast use vstd::std_specs::hash::group_hash_axioms;

            let ghost seen = visited@;
            let ghost found = collected_blocks.deep_view();
            if !visited.insert(current_block_address) {
                return Err(cycle("data block", current_block_address));
            }
            proof {
                lemma_visit_leaves_fewer(seen, current_block_address);
            }
            let block = block_at(mmap, current_block_address)?;
            let block_header = BlockHeader::from_bytes(block)?;
            if block_header.is("##DT") || block_header.is("##DV") || block_header.is("##DZ") {
                let data_block = parse_data_fragment(block)?;
                collected_blocks.push(data_block);
                assert(collected_blocks.deep_view() =~= found + seq![data_block.deep_view()]);
                current_block_address = 0;
            } else if block_header.is("##HL") {
                if block.len() < 32 {
                    return Err(
                        MdfError::TooShortBuffer {
                            actual: mmap.len(),
                            expected: (current_block_address as usize).saturating_add(32),
                        },
                    );
                }
                assert(found + Seq::<DataBlockView>::empty() =~= found);
                current_block_address = read_u64(block, 24);
            } else if block_header.is("##DL") {
                let data_list_block = DataListBlock::from_bytes(block)?;
                collect_fragments(mmap, &data_list_block.data_links, &mut collected_blocks)?;
                current_block_address = data_list_block.next;
            } else {
                return Err(
                    MdfError::BlockIDError {
                        actual: block_header.id,
                        expected: "##DT / ##DV / ##DL / ##DZ / ##HL".to_string(),
                    },
                );
            }
        }
        Ok(collected_blocks)
    }
}

} // verus!
