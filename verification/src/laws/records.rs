//! Records and entries: what is written one after the other is read in order.
use vstd::prelude::*;

use crate::api::channel::channel_cells;
use crate::blocks::channel_block::ChannelBlockView;
use crate::blocks::data_block::{record_at, records_of, DataBlockView};
use crate::error::ErrorView;
use crate::laws::chains::signal_data;
use crate::laws::encoding::{le_bytes, lemma_le_bytes_len, lemma_u32_is_read_back};
use crate::parsing::decoder::{decoded, DecodedView};
use crate::parsing::raw_data_group::group_data_blocks;
use crate::parsing::records::{cell, cells_of, first_cells, layout_of, record_size};
use crate::parsing::records::{GroupView, RecordLayout};
use crate::parsing::signal_data::{entry_cells, vlsd_cells};

verus! {

/// Pieces of bytes, one after the other.
pub open spec fn joined(pieces: Seq<Seq<u8>>) -> Seq<u8>
    decreases pieces.len(),
{
    if pieces.len() == 0 {
        Seq::empty()
    } else {
        joined(pieces.drop_last()) + pieces.last()
    }
}

/// All pieces have `size` bytes.
pub open spec fn all_of_size(pieces: Seq<Seq<u8>>, size: nat) -> bool {
    forall|i: int| 0 <= i < pieces.len() ==> (#[trigger] pieces[i]).len() == size
}

proof fn lemma_joined(pieces: Seq<Seq<u8>>, size: nat, i: int)
    requires
        all_of_size(pieces, size),
        0 <= i < pieces.len(),
    ensures
        joined(pieces).len() == pieces.len() * size,
        0 <= i * size,
        i * size + size <= pieces.len() * size,
        joined(pieces).subrange(i * size, i * size + size) == pieces[i],
    decreases pieces.len(),
{
    let shorter = pieces.drop_last();
    let count = shorter.len() as int;
    assert(all_of_size(shorter, size)) by {
        assert forall|k: int| 0 <= k < shorter.len() implies (#[trigger] shorter[k]).len() == size by {
            assert(shorter[k] == pieces[k]);
        }
    }
    assert(count * size + size == pieces.len() * size) by (nonlinear_arith)
        requires
            pieces.len() == count + 1,
    ;
    assert(0 <= i * size) by (nonlinear_arith)
        requires
            0 <= i,
    ;
    assert(pieces.last() == pieces[count]);
    if count == 0 {
        assert(0 * size == 0) by (nonlinear_arith);
        assert(joined(shorter) =~= Seq::empty());
        assert(joined(pieces) =~= pieces[0]);
        assert(joined(pieces).subrange(0, 0 + size as int) =~= pieces[0]);
    } else if i < count {
        lemma_joined(shorter, size, i);
        assert(joined(pieces).subrange(i * size, i * size + size) =~= joined(shorter).subrange(
            i * size,
            i * size + size,
        ));
    } else {
        lemma_joined(shorter, size, 0);
        assert(joined(pieces).subrange(i * size, i * size + size) =~= pieces[i]);
    }
}

/// How many whole pieces there are in pieces with a remainder.
proof fn lemma_count(count: nat, size: nat, rest: nat)
    requires
        rest < size,
    ensures
        (count * size + rest) / size == count,
{
    vstd::arithmetic::div_mod::lemma_fundamental_div_mod_converse(
        (count * size + rest) as int,
        size as int,
        count as int,
        rest as int,
    );
}

proof fn lemma_joined_len(pieces: Seq<Seq<u8>>, size: nat)
    requires
        all_of_size(pieces, size),
    ensures
        joined(pieces).len() == pieces.len() * size,
{
    if pieces.len() > 0 {
        lemma_joined(pieces, size, 0);
    } else {
        assert(0 * size == 0) by (nonlinear_arith);
    }
}

/// Data that was put together from records of one size is cut into these records; a remainder
/// that is too short for a record is left out.
pub proof fn lemma_records_are_cut(records: Seq<Seq<u8>>, rest: Seq<u8>, size: nat)
    requires
        all_of_size(records, size),
        rest.len() < size,
    ensures
        records_of(joined(records) + rest, size) == records,
{
    let data = joined(records) + rest;
    lemma_joined_len(records, size);
    lemma_count(records.len(), size, rest.len());
    assert forall|i: int| 0 <= i < records.len() implies record_at(data, size, i) == records[i] by {
        lemma_joined(records, size, i);
        assert(data.subrange(i * size, i * size + size) =~= joined(records).subrange(
            i * size,
            i * size + size,
        ));
    }
    assert(records_of(data, size) =~= records);
}

/// The length of a record is that of its id, its values and its invalidation bits together.
pub open spec fn full_record_size(group: GroupView) -> nat {
    group.data_group.block.record_id_len as nat + group.group.block.samples_byte_nr as nat
        + group.group.block.invalidation_bytes_nr as nat
}

/// A channel has one value for each record of a block, in order.
pub proof fn lemma_block_values(
    group: GroupView,
    block: DataBlockView,
    channel: ChannelBlockView,
    records: Seq<Seq<u8>>,
    rest: Seq<u8>,
)
    requires
        all_of_size(records, full_record_size(group)),
        rest.len() < full_record_size(group),
        block.data == joined(records) + rest,
    ensures
        cells_of(seq![block], layout_of(group), channel) == Seq::new(
            records.len(),
            |i: int| cell(records[i], layout_of(group), channel),
        ),
{
    let layout = layout_of(group);
    let size = record_size(layout);
    assert(size == full_record_size(group));
    lemma_records_are_cut(records, rest, size);
    let data = block.data;
    let count = data.len() / size;
    lemma_joined_len(records, size);
    lemma_count(records.len(), size, rest.len());
    assert(seq![block].drop_last() =~= Seq::empty());
    assert(seq![block].last() == block);
    assert(cells_of(Seq::empty(), layout, channel) =~= Seq::empty());
    let values = first_cells(data, layout, channel, count);
    assert forall|i: int| 0 <= i < records.len() implies values[i] == cell(
        records[i],
        layout,
        channel,
    ) by {
        assert(records_of(data, size)[i] == records[i]);
    }
    assert(cells_of(seq![block], layout, channel) =~= values);
    assert(values =~= Seq::new(records.len(), |i: int| cell(records[i], layout, channel)));
}

/// The values of a channel in several blocks are those in the first ones and, behind them,
/// those in the others.
pub proof fn lemma_values_block_by_block(
    blocks: Seq<DataBlockView>,
    more: Seq<DataBlockView>,
    layout: RecordLayout,
    channel: ChannelBlockView,
)
    ensures
        cells_of(blocks + more, layout, channel) == cells_of(blocks, layout, channel) + cells_of(
            more,
            layout,
            channel,
        ),
    decreases more.len(),
{
    if more.len() == 0 {
        assert(blocks + more =~= blocks);
        assert(cells_of(blocks, layout, channel) + Seq::<Option<DecodedView>>::empty()
            =~= cells_of(blocks, layout, channel));
    } else {
        lemma_values_block_by_block(blocks, more.drop_last(), layout, channel);
        assert((blocks + more).drop_last() =~= blocks + more.drop_last());
        assert((blocks + more).last() == more.last());
        let data = more.last().data;
        let last = first_cells(data, layout, channel, data.len() / record_size(layout));
        let first = cells_of(blocks, layout, channel);
        let second = cells_of(more.drop_last(), layout, channel);
        assert((first + second) + last =~= first + (second + last));
    }
}

/// The records of a group are laid out as its blocks say: the size of the record id, of the
/// values and of the invalidation bits.
pub proof fn lemma_record_layout(group: GroupView)
    ensures
        layout_of(group).record_id_len == group.data_group.block.record_id_len,
        layout_of(group).data_bytes == group.group.block.samples_byte_nr,
        layout_of(group).invalidation_bytes == group.group.block.invalidation_bytes_nr,
        record_size(layout_of(group)) == full_record_size(group),
{
}

/// The values of a channel are those in the data blocks of its group, unless they are of
/// variable length; where records are empty there are none, and no data is read.
pub proof fn lemma_channel_values(group: GroupView, channel: ChannelBlockView)
    ensures
        channel.channel_type == 1 && channel.data != 0 ==> channel_cells(group, channel)
            == vlsd_cells(group.file, channel),
        (channel.channel_type != 1 || channel.data == 0) && full_record_size(group) > 0
            ==> channel_cells(group, channel) == (match group_data_blocks(
            group.data_group,
            group.file,
        ) {
            Err(error) => Err(error),
            Ok(blocks) => Ok(cells_of(blocks, layout_of(group), channel)),
        }),
        (channel.channel_type != 1 || channel.data == 0) && full_record_size(group) == 0
            ==> channel_cells(group, channel) == Ok::<Seq<Option<DecodedView>>, ErrorView>(
            Seq::empty(),
        ),
{
}

/// Entries of signal data: each with its length in four bytes before it.
pub open spec fn entries_image(entries: Seq<Seq<u8>>) -> Seq<u8>
    decreases entries.len(),
{
    if entries.len() == 0 {
        Seq::empty()
    } else {
        le_bytes(entries[0].len(), 4) + entries[0] + entries_image(entries.drop_first())
    }
}

/// The lengths of all entries fit in four bytes.
pub open spec fn lengths_fit(entries: Seq<Seq<u8>>) -> bool {
    forall|i: int| 0 <= i < entries.len() ==> (#[trigger] entries[i]).len() <= u32::MAX
}

/// What an entry says of a channel: nothing where all values of the channel are invalid, and
/// what is decoded from all of its bytes otherwise.
pub open spec fn entry_value(entry: Seq<u8>, channel: ChannelBlockView) -> Option<DecodedView> {
    if channel.flags % 2 == 1 {
        None
    } else {
        decoded(entry, 0, channel)
    }
}

proof fn lemma_entries_from(
    data: Seq<u8>,
    at: int,
    entries: Seq<Seq<u8>>,
    rest: Seq<u8>,
    channel: ChannelBlockView,
)
    requires
        0 <= at <= data.len(),
        lengths_fit(entries),
        rest.len() < 4,
        data.subrange(at, data.len() as int) == entries_image(entries) + rest,
    ensures
        entry_cells(data, at, channel) == Ok::<Seq<Option<DecodedView>>, ErrorView>(
            Seq::new(entries.len(), |i: int| entry_value(entries[i], channel)),
        ),
    decreases entries.len(),
{
    let tail = data.subrange(at, data.len() as int);
    if entries.len() == 0 {
        assert(entries_image(entries) + rest =~= rest);
        assert(Seq::new(entries.len(), |i: int| entry_value(entries[i], channel)) =~= Seq::empty());
    } else {
        let entry = entries[0];
        let others = entries.drop_first();
        assert(lengths_fit(others)) by {
            assert forall|i: int| 0 <= i < others.len() implies (#[trigger] others[i]).len()
                <= u32::MAX by {
                assert(others[i] == entries[i + 1]);
            }
        }
        lemma_le_bytes_len(entry.len(), 4);
        let end = at + 4 + entry.len();
        let head = le_bytes(entry.len(), 4) + entry;
        assert(entries_image(entries) == head + entries_image(others));
        assert(tail.len() == head.len() + entries_image(others).len() + rest.len());
        assert(data.subrange(at, at + 4) =~= tail.subrange(0, 4));
        assert(tail.subrange(0, 4) =~= le_bytes(entry.len(), 4));
        lemma_u32_is_read_back(data, at, entry.len() as u32);
        assert(data.subrange(at + 4, end) =~= tail.subrange(4, 4 + entry.len() as int));
        assert(tail.subrange(4, 4 + entry.len() as int) =~= entry);
        assert(tail.subrange(head.len() as int, tail.len() as int) =~= entries_image(others) + rest);
        assert(data.subrange(end, data.len() as int) =~= tail.subrange(
            head.len() as int,
            tail.len() as int,
        ));
        lemma_entries_from(data, end, others, rest, channel);
        assert(channel.flags & 0x01 != 0 <==> channel.flags % 2 == 1) by {
            let flags = channel.flags;
            assert(flags & 0x01 != 0 <==> flags % 2 == 1) by (bit_vector);
        }
        assert(seq![entry_value(entry, channel)] + Seq::new(
            others.len(),
            |i: int| entry_value(others[i], channel),
        ) =~= Seq::new(entries.len(), |i: int| entry_value(entries[i], channel)));
    }
}

/// Values of variable length are the entries of the signal data, in order; a remainder that
/// is too short for a length is left out.
pub proof fn lemma_entries_are_read(
    file: Seq<u8>,
    channel: ChannelBlockView,
    entries: Seq<Seq<u8>>,
    rest: Seq<u8>,
)
    requires
        lengths_fit(entries),
        rest.len() < 4,
        signal_data(file, channel.data) == Ok::<Seq<u8>, ErrorView>(entries_image(entries) + rest),
    ensures
        vlsd_cells(file, channel) == Ok::<Seq<Option<DecodedView>>, ErrorView>(
            Seq::new(entries.len(), |i: int| entry_value(entries[i], channel)),
        ),
{
    let data = entries_image(entries) + rest;
    assert(data.subrange(0, data.len() as int) =~= data);
    lemma_entries_from(data, 0, entries, rest, channel);
}

proof fn lemma_cut_entry_from(
    data: Seq<u8>,
    at: int,
    entries: Seq<Seq<u8>>,
    len: u32,
    part: Seq<u8>,
    channel: ChannelBlockView,
)
    requires
        0 <= at <= data.len(),
        lengths_fit(entries),
        part.len() < len,
        data.subrange(at, data.len() as int) == entries_image(entries) + (le_bytes(len as nat, 4)
            + part),
    ensures
        entry_cells(data, at, channel) matches Err(error) && error is TooShortBuffer,
    decreases entries.len(),
{
    let tail = data.subrange(at, data.len() as int);
    let rest = le_bytes(len as nat, 4) + part;
    lemma_le_bytes_len(len as nat, 4);
    if entries.len() == 0 {
        assert(entries_image(entries) + rest =~= rest);
        assert(data.subrange(at, at + 4) =~= tail.subrange(0, 4));
        assert(tail.subrange(0, 4) =~= le_bytes(len as nat, 4));
        lemma_u32_is_read_back(data, at, len);
    } else {
        let entry = entries[0];
        let others = entries.drop_first();
        assert(lengths_fit(others)) by {
            assert forall|i: int| 0 <= i < others.len() implies (#[trigger] others[i]).len()
                <= u32::MAX by {
                assert(others[i] == entries[i + 1]);
            }
        }
        lemma_le_bytes_len(entry.len(), 4);
        let end = at + 4 + entry.len();
        let head = le_bytes(entry.len(), 4) + entry;
        assert(entries_image(entries) == head + entries_image(others));
        assert(tail.len() == head.len() + entries_image(others).len() + rest.len());
        assert(data.subrange(at, at + 4) =~= tail.subrange(0, 4));
        assert(tail.subrange(0, 4) =~= le_bytes(entry.len(), 4));
        lemma_u32_is_read_back(data, at, entry.len() as u32);
        assert(tail.subrange(head.len() as int, tail.len() as int) =~= entries_image(others) + rest);
        assert(data.subrange(end, data.len() as int) =~= tail.subrange(
            head.len() as int,
            tail.len() as int,
        ));
        lemma_cut_entry_from(data, end, others, len, part, channel);
    }
}

/// An entry that reaches past the end of the signal data is refused, and so is signal data
/// that cannot be read.
pub proof fn lemma_cut_entries_are_refused(
    file: Seq<u8>,
    channel: ChannelBlockView,
    entries: Seq<Seq<u8>>,
    len: u32,
    part: Seq<u8>,
)
    requires
        lengths_fit(entries),
        part.len() < len,
    ensures
        signal_data(file, channel.data) == Ok::<Seq<u8>, ErrorView>(
            entries_image(entries) + (le_bytes(len as nat, 4) + part),
        ) ==> (vlsd_cells(file, channel) matches Err(error) && error is TooShortBuffer),
        signal_data(file, channel.data) matches Err(error) ==> vlsd_cells(file, channel) == Err::<
            Seq<Option<DecodedView>>,
            ErrorView,
        >(error),
{
    let data = entries_image(entries) + (le_bytes(len as nat, 4) + part);
    assert(data.subrange(0, data.len() as int) =~= data);
    lemma_cut_entry_from(data, 0, entries, len, part, channel);
}

} // verus!
