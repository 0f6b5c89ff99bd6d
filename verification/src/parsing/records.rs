//! Records of a channel group, and the values of a channel in them.
use vstd::prelude::*;

use crate::blocks::channel_block::{ChannelBlock, ChannelBlockView};
use crate::blocks::channel_group_block::ChannelGroupBlock;
use crate::blocks::data_block::{lemma_record_bounds, record_at, DataBlock, DataBlockView};
use crate::blocks::data_group_block::DataGroupBlock;
use crate::error::{outcome, ErrorView, MdfError};
use crate::parsing::decoder::{check_value_validity, decode_channel_value, DecodedValue};
use crate::parsing::decoder::{decoded, is_valid, DecodedView};
use crate::parsing::raw_channel_group::{ChannelGroupView, RawChannelGroup};
use crate::parsing::raw_data_group::{group_data_blocks, DataGroupView, RawDataGroup};

verus! {

/// A channel group within its data group and file.
pub struct GroupView {
    pub data_group: DataGroupView,
    pub group: ChannelGroupView,
    pub file: Seq<u8>,
}

/// The parts of a record: the record id, the channel values, the invalidation bits.
#[derive(Debug, Clone, Copy)]
pub struct RecordLayout {
    pub record_id_len: u8,
    pub data_bytes: u32,
    pub invalidation_bytes: u32,
}

/// The layout of the records of a channel group in a data group.
pub open spec fn layout_for(data_group: DataGroupBlock, group: ChannelGroupBlock) -> RecordLayout {
    RecordLayout {
        record_id_len: data_group.record_id_len,
        data_bytes: group.samples_byte_nr,
        invalidation_bytes: group.invalidation_bytes_nr,
    }
}

/// The layout of the records of a channel group.
pub open spec fn layout_of(group: GroupView) -> RecordLayout {
    layout_for(group.data_group.block, group.group.block)
}

/// Length of a record.
pub open spec fn record_size(layout: RecordLayout) -> nat {
    layout.record_id_len as nat + layout.data_bytes as nat + layout.invalidation_bytes as nat
}

impl RecordLayout {
    /// The layout of the records of a channel group.
    pub fn of(data_group: &RawDataGroup, channel_group: &RawChannelGroup) -> (layout: Self)
        ensures
            layout == layout_for(data_group.block, channel_group.block),
    {
        RecordLayout {
            record_id_len: data_group.block.record_id_len,
            data_bytes: channel_group.block.samples_byte_nr,
            invalidation_bytes: channel_group.block.invalidation_bytes_nr,
        }
    }

    /// Length of a record.
    pub fn size(&self) -> (size: u64)
        ensures
            size == record_size(*self),
    {
        self.record_id_len as u64 + self.data_bytes as u64 + self.invalidation_bytes as u64
    }
}

/// The value of a channel in a record: none where it is invalid or not there.
pub open spec fn cell(record: Seq<u8>, layout: RecordLayout, channel: ChannelBlockView) -> Option<
    DecodedView,
> {
    let id_len = layout.record_id_len as nat;
    if channel.flags & 0x01 != 0 || (layout.invalidation_bytes > 0 && !is_valid(
        record,
        id_len,
        layout.data_bytes,
        channel,
    )) {
        None
    } else {
        decoded(record, id_len, channel)
    }
}

/// The values of a channel in the first `count` records of `data`.
pub open spec fn first_cells(
    data: Seq<u8>,
    layout: RecordLayout,
    channel: ChannelBlockView,
    count: nat,
) -> Seq<Option<DecodedView>> {
    Seq::new(count, |i: int| cell(record_at(data, record_size(layout), i), layout, channel))
}

/// The values of a channel in the records of consecutive data blocks. Records do not reach
/// from one block into the next.
pub open spec fn cells_of(
    blocks: Seq<DataBlockView>,
    layout: RecordLayout,
    channel: ChannelBlockView,
) -> Seq<Option<DecodedView>>
    decreases blocks.len(),
{
    if blocks.len() == 0 {
        Seq::empty()
    } else {
        let data = blocks.last().data;
        cells_of(blocks.drop_last(), layout, channel) + first_cells(
            data,
            layout,
            channel,
            data.len() / record_size(layout),
        )
    }
}

/// The data blocks that hold the records of a group; none where records are empty.
pub open spec fn record_blocks(group: GroupView) -> Result<Seq<DataBlockView>, ErrorView> {
    if record_size(layout_of(group)) == 0 {
        Ok(Seq::empty())
    } else {
        group_data_blocks(group.data_group, group.file)
    }
}

/// The values of a channel in all records of its group.
pub open spec fn record_cells(group: GroupView, channel: ChannelBlockView) -> Result<
    Seq<Option<DecodedView>>,
    ErrorView,
> {
    match record_blocks(group) {
        Err(error) => Err(error),
        Ok(blocks) => Ok(cells_of(blocks, layout_of(group), channel)),
    }
}

/// How many whole records fit in `len` bytes.
pub fn record_count(len: usize, size: u64) -> (count: usize)
    requires
        0 < size,
    ensures
        count == len as nat / size as nat,
        count > 0 ==> size <= len,
{
    let count: u64 = len as u64 / size;
    proof {
        assert(count <= len) by (nonlinear_arith)
            requires
                0 < size,
                count == len as u64 / size,
        ;
        assert(count > 0 ==> size <= len) by (nonlinear_arith)
            requires
                0 < size,
                count == len as u64 / size,
        ;
    }
    count as usize
}

/// Read the value of a channel from a record.
pub fn read_cell(record: &[u8], layout: RecordLayout, channel: &ChannelBlock) -> (value: Option<
    DecodedValue,
>)
    ensures
        value.deep_view() == cell(record@, layout, channel.deep_view()),
{
    let id_len = layout.record_id_len as usize;
    if channel.flags & 0x01 != 0 {
        return None;
    }
    if layout.invalidation_bytes > 0 && !check_value_validity(
        record,
        id_len,
        layout.data_bytes,
        channel,
    ) {
        return None;
    }
    decode_channel_value(record, id_len, channel)
}

/// Read the data blocks that hold the records of a group.
pub fn read_record_blocks<'a>(
    data_group: &RawDataGroup,
    channel_group: &RawChannelGroup,
    mmap: &'a [u8],
) -> (blocks: Result<Vec<DataBlock<'a>>, MdfError>)
    ensures
        outcome(blocks) == record_blocks(
            (GroupView {
                data_group: data_group.deep_view(),
                group: channel_group.deep_view(),
                file: mmap@,
            }),
        ),
{
    if RecordLayout::of(data_group, channel_group).size() == 0 {
        let none: Vec<DataBlock<'a>> = Vec::new();
        assert(none.deep_view() =~= Seq::empty());
        return Ok(none);
    }
    data_group.data_blocks(mmap)
}

/// Read the values of a channel from all records of its group.
pub fn read_record_cells(
    data_group: &RawDataGroup,
    channel_group: &RawChannelGroup,
    mmap: &[u8],
    channel: &ChannelBlock,
) -> (values: Result<Vec<Option<DecodedValue>>, MdfError>)
    ensures
        outcome(values) == record_cells(
            (GroupView {
                data_group: data_group.deep_view(),
                group: channel_group.deep_view(),
                file: mmap@,
            }),
            channel.deep_view(),
        ),
{
    let ghost group = GroupView {
        data_group: data_group.deep_view(),
        group: channel_group.deep_view(),
        file: mmap@,
    };
    let ghost view = channel.deep_view();
    let layout = RecordLayout::of(data_group, channel_group);
    let size = layout.size();
    let blocks = read_record_blocks(data_group, channel_group, mmap)?;
    let mut values: Vec<Option<DecodedValue>> = Vec::new();
    let mut b: usize = 0;
    assert(blocks.deep_view().subrange(0, 0) =~= Seq::empty());
    assert(values.deep_view() =~= Seq::empty());
    while b < blocks.len()
        invariant
            b <= blocks.len(),
            blocks.len() > 0 ==> size > 0,
            size == record_size(layout),
            view == channel.deep_view(),
            values.deep_view() == cells_of(
                blocks.deep_view().subrange(0, b as int),
                layout,
                view,
            ),
        decreases blocks.len() - b,
    {
        let ghost earlier = values.deep_view();
        let data = blocks[b].bytes();
        let count = record_count(data.len(), size);
        let mut i: usize = 0;
        let mut start: usize = 0;
        assert(earlier + first_cells(data@, layout, view, 0) =~= earlier);
        while i < count
            invariant
                i <= count,
                0 < size,
                size == record_size(layout),
                view == channel.deep_view(),
                count == data@.len() / size as nat,
                count > 0 ==> size <= data.len(),
                start == i * size,
                values.deep_view() == earlier + first_cells(data@, layout, view, i as nat),
            decreases count - i,
        {
            proof {
                lemma_record_bounds(data@.len(), size as nat, i as int);
            }
            let end = start + size as usize;
            let ghost known = values.deep_view();
            let value = read_cell(&data[start..end], layout, channel);
            values.push(value);
            proof {
                assert(values.deep_view() =~= known.push(value.deep_view()));
                assert(values.deep_view() =~= earlier + first_cells(
                    data@,
                    layout,
                    view,
                    (i + 1) as nat,
                ));
            }
            start = end;
            i = i + 1;
        }
        proof {
            let longer = blocks.deep_view().subrange(0, b + 1);
            assert(longer.drop_last() =~= blocks.deep_view().subrange(0, b as int));
            assert(longer.last() == blocks[b as int].deep_view());
        }
        b = b + 1;
    }
    assert(blocks.deep_view().subrange(0, b as int) =~= blocks.deep_view());
    Ok(values)
}

} // verus!
