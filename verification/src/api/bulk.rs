//! Reading several channels of a group in one pass over its data blocks.
use vstd::prelude::*;

use crate::api::channel::channel_series;
use crate::api::channel_group::{as_index, first_master, lemma_master_is_first};
use crate::api::channel_group::{lemma_search_is_first, lemma_search_settled, searched};
use crate::api::channel_group::ChannelGroup;
use crate::blocks::channel_block::{ChannelBlock, ChannelBlockView};
use crate::blocks::common::string_block;
use crate::blocks::data_block::{lemma_record_bounds, DataBlock, DataBlockView};
use crate::error::{outcome, ErrorView, MdfError};
use crate::parsing::decoder::is_vlsd;
use crate::parsing::records::{cell, cells_of, first_cells, layout_of, record_blocks, record_size, GroupView};
use crate::parsing::records::{read_cell, record_count, RecordLayout};
use crate::signal::{no_series, sample_of, samples_of, scaling_of, series_of};
use crate::signal::{Sample, Scaling, Series, SeriesView, SignalF64, SignalF64View};
use crate::text::same_text;

verus! {

/// For each of `names` the index of the first channel that is called so, as a search for
/// that name alone finds it; or the error that such a search ends with.
pub open spec fn resolved(
    file: Seq<u8>,
    channels: Seq<ChannelBlockView>,
    names: Seq<Seq<char>>,
) -> Result<Seq<Option<int>>, ErrorView>
    decreases names.len(),
{
    if names.len() == 0 {
        Ok(Seq::empty())
    } else {
        match resolved(file, channels, names.drop_last()) {
            Err(error) => Err(error),
            Ok(before) => match searched(file, channels, names.last()) {
                Err(error) => Err(error),
                Ok(target) => Ok(before.push(target)),
            },
        }
    }
}

/// Whether any of the names has a channel.
pub open spec fn any_found(targets: Seq<Option<int>>) -> bool {
    exists|k: int| 0 <= k < targets.len() && #[trigger] targets[k] is Some
}

/// Whether the `k`-th name has a channel whose values lie in the records.
pub open spec fn in_records(
    channels: Seq<ChannelBlockView>,
    targets: Seq<Option<int>>,
    k: int,
) -> bool {
    targets[k] is Some && !is_vlsd(channels[targets[k]->0])
}

/// Whether the records have to be read: for the master, or for the values of a channel.
pub open spec fn needs_records(channels: Seq<ChannelBlockView>, targets: Seq<Option<int>>) -> bool {
    first_master(channels) is Some || exists|k: int|
        0 <= k < targets.len() && #[trigger] in_records(channels, targets, k)
}

/// The data blocks that one pass reads.
pub open spec fn pass_blocks(group: GroupView, targets: Seq<Option<int>>) -> Result<
    Seq<DataBlockView>,
    ErrorView,
> {
    if needs_records(group.group.channels, targets) {
        record_blocks(group)
    } else {
        Ok(Seq::empty())
    }
}

/// The samples of a channel in the records of `blocks`.
pub open spec fn block_series(
    group: GroupView,
    blocks: Seq<DataBlockView>,
    channel: ChannelBlockView,
) -> SeriesView {
    series_of(scaling_of(channel), cells_of(blocks, layout_of(group), channel))
}

/// The time axis of the channel with the given index, from the records of `blocks`.
pub open spec fn block_axis(group: GroupView, blocks: Seq<DataBlockView>, index: int) -> SeriesView {
    match first_master(group.group.channels) {
        Some(master) => if master != index {
            block_series(group, blocks, group.group.channels[master])
        } else {
            no_series()
        },
        None => no_series(),
    }
}

/// The samples of a channel, where the records are those of `blocks`.
pub open spec fn target_series(
    group: GroupView,
    blocks: Seq<DataBlockView>,
    channel: ChannelBlockView,
) -> Result<SeriesView, ErrorView> {
    if is_vlsd(channel) {
        channel_series(group, channel)
    } else {
        Ok(block_series(group, blocks, channel))
    }
}

/// The signal of the channel that `target` refers to.
pub open spec fn target_signal(
    group: GroupView,
    blocks: Seq<DataBlockView>,
    name: Seq<char>,
    target: Option<int>,
) -> Result<Option<SignalF64View>, ErrorView> {
    match target {
        None => Ok(None),
        Some(index) => {
            let channel = group.group.channels[index];
            match target_series(group, blocks, channel) {
                Err(error) => Err(error),
                Ok(values) => match string_block(group.file, channel.unit_addr) {
                    Err(error) => Err(error),
                    Ok(unit) => Ok(
                        Some(
                            SignalF64View {
                                name,
                                unit,
                                timestamps: block_axis(group, blocks, index),
                                values,
                            },
                        ),
                    ),
                },
            }
        },
    }
}

/// The signals for the first `count` names, or the first error met.
pub open spec fn target_signals(
    group: GroupView,
    blocks: Seq<DataBlockView>,
    names: Seq<Seq<char>>,
    targets: Seq<Option<int>>,
    count: int,
) -> Result<Seq<Option<SignalF64View>>, ErrorView>
    decreases count,
{
    if count <= 0 {
        Ok(Seq::empty())
    } else {
        match target_signals(group, blocks, names, targets, count - 1) {
            Err(error) => Err(error),
            Ok(before) => match target_signal(
                group,
                blocks,
                names[count - 1],
                targets[count - 1],
            ) {
                Err(error) => Err(error),
                Ok(signal) => Ok(before.push(signal)),
            },
        }
    }
}

/// Reading several channels of a group at once.
pub open spec fn group_signals(group: GroupView, names: Seq<Seq<char>>) -> Result<
    Seq<Option<SignalF64View>>,
    ErrorView,
> {
    match resolved(group.file, group.group.channels, names) {
        Err(error) => Err(error),
        Ok(targets) => {
            if !any_found(targets) {
                Ok(Seq::new(names.len(), |k: int| None))
            } else {
                match pass_blocks(group, targets) {
                    Err(error) => Err(error),
                    Ok(blocks) => target_signals(
                        group,
                        blocks,
                        names,
                        targets,
                        names.len() as int,
                    ),
                }
            }
        },
    }
}

/// Names are resolved exactly when the search for each of them succeeds, and then to what
/// the searches find.
pub proof fn lemma_resolved(file: Seq<u8>, channels: Seq<ChannelBlockView>, names: Seq<Seq<char>>)
    ensures
        match resolved(file, channels, names) {
            Ok(targets) => {
                &&& targets.len() == names.len()
                &&& forall|k: int|
                    0 <= k < names.len() ==> searched(file, channels, #[trigger] names[k]) == Ok::<
                        Option<int>,
                        ErrorView,
                    >(targets[k])
            },
            Err(error) => exists|k: int|
                0 <= k < names.len() && searched(file, channels, #[trigger] names[k]) == Err::<
                    Option<int>,
                    ErrorView,
                >(error),
        },
    decreases names.len(),
{
    if names.len() > 0 {
        let shorter = names.drop_last();
        lemma_resolved(file, channels, shorter);
        match resolved(file, channels, shorter) {
            Ok(before) => {
                assert(names.last() == names[names.len() - 1]);
                assert forall|k: int| 0 <= k < shorter.len() implies #[trigger] names[k]
                    == shorter[k] by {}
            },
            Err(error) => {
                let k = choose|k: int|
                    0 <= k < shorter.len() && searched(file, channels, #[trigger] shorter[k])
                        == Err::<Option<int>, ErrorView>(error);
                assert(names[k] == shorter[k]);
            },
        }
    }
}

/// All searches that fail end with the same error: that of the first name in the file that
/// cannot be read.
pub proof fn lemma_failures_share_error(
    file: Seq<u8>,
    channels: Seq<ChannelBlockView>,
    one: Seq<char>,
    other: Seq<char>,
)
    requires
        searched(file, channels, one) is Err,
        searched(file, channels, other) is Err,
    ensures
        searched(file, channels, one) == searched(file, channels, other),
    decreases channels.len(),
{
    let shorter = channels.drop_last();
    if searched(file, shorter, one) is Err && searched(file, shorter, other) is Err {
        lemma_failures_share_error(file, shorter, one, other);
    } else if searched(file, shorter, one) is Err {
        lemma_failure_is_shared(file, shorter, one, other);
    } else if searched(file, shorter, other) is Err {
        lemma_failure_is_shared(file, shorter, other, one);
    }
}

/// A search that passes over all channels meets every name that cannot be read.
proof fn lemma_failure_is_shared(
    file: Seq<u8>,
    channels: Seq<ChannelBlockView>,
    one: Seq<char>,
    other: Seq<char>,
)
    requires
        searched(file, channels, one) is Err,
    ensures
        searched(file, channels, other) != Ok::<Option<int>, ErrorView>(None),
{
    lemma_search_is_first(file, channels, one);
    lemma_search_is_first(file, channels, other);
}

/// The error of one search is the error of all names.
pub proof fn lemma_resolved_error(
    file: Seq<u8>,
    channels: Seq<ChannelBlockView>,
    names: Seq<Seq<char>>,
    k: int,
)
    requires
        0 <= k < names.len(),
        searched(file, channels, names[k]) is Err,
    ensures
        resolved(file, channels, names) == Err::<Seq<Option<int>>, ErrorView>(
            searched(file, channels, names[k])->Err_0,
        ),
{
    lemma_resolved(file, channels, names);
    match resolved(file, channels, names) {
        Ok(targets) => {},
        Err(error) => {
            let j = choose|j: int|
                0 <= j < names.len() && searched(file, channels, #[trigger] names[j]) == Err::<
                    Option<int>,
                    ErrorView,
                >(error);
            lemma_failures_share_error(file, channels, names[j], names[k]);
        },
    }
}

/// An error among the first signals is the error of all.
proof fn lemma_signals_error(
    group: GroupView,
    blocks: Seq<DataBlockView>,
    names: Seq<Seq<char>>,
    targets: Seq<Option<int>>,
    count: int,
    total: int,
)
    requires
        count <= total,
        target_signals(group, blocks, names, targets, count) is Err,
    ensures
        target_signals(group, blocks, names, targets, total) == target_signals(
            group,
            blocks,
            names,
            targets,
            count,
        ),
    decreases total - count,
{
    if count < total {
        lemma_signals_error(group, blocks, names, targets, count, total - 1);
    }
}

/// What is decoded of one channel while the records are walked.
struct Slot<'b> {
    index: usize,
    block: &'b ChannelBlock,
    scaling: Scaling,
    values: Vec<Sample>,
}

/// A slot belongs to a channel whose values lie in the records.
spec fn slot_fits(slot: Slot, channels: Seq<ChannelBlockView>) -> bool {
    &&& slot.index < channels.len()
    &&& slot.block.deep_view() == channels[slot.index as int]
    &&& slot.scaling == scaling_of(channels[slot.index as int])
    &&& !is_vlsd(channels[slot.index as int])
}

spec fn slots_fit(slots: Seq<Slot>, channels: Seq<ChannelBlockView>) -> bool {
    forall|s: int| 0 <= s < slots.len() ==> slot_fits(#[trigger] slots[s], channels)
}

/// The channel with the given index has a slot.
spec fn has_slot(slots: Seq<Slot>, index: int) -> bool {
    exists|s: int| 0 <= s < slots.len() && (#[trigger] slots[s]).index == index
}

/// The slot of a channel, if it has one.
fn find_slot(slots: &Vec<Slot>, index: usize) -> (slot: Option<usize>)
    ensures
        match slot {
            Some(s) => s < slots.len() && slots[s as int].index == index,
            None => !has_slot(slots@, index as int),
        },
{
    let mut s: usize = 0;
    while s < slots.len()
        invariant
            s <= slots.len(),
            forall|t: int| 0 <= t < s ==> (#[trigger] slots@[t]).index != index,
        decreases slots.len() - s,
    {
        if slots[s].index == index {
            return Some(s);
        }
        s = s + 1;
    }
    None
}

/// Two states of the slots differ in nothing but the values.
spec fn same_slots(before: Seq<Slot>, after: Seq<Slot>) -> bool {
    &&& before.len() == after.len()
    &&& forall|s: int|
        0 <= s < after.len() ==> {
            &&& (#[trigger] after[s]).index == before[s].index
            &&& after[s].block == before[s].block
            &&& after[s].scaling == before[s].scaling
        }
}

/// Decoding takes no channel's slot away.
proof fn lemma_slots_stay(before: Seq<Slot>, after: Seq<Slot>)
    requires
        same_slots(before, after),
    ensures
        forall|index: int| #[trigger] has_slot(before, index) ==> has_slot(after, index),
{
    assert forall|index: int| #[trigger] has_slot(before, index) implies has_slot(after, index) by {
        let s = choose|s: int| 0 <= s < before.len() && (#[trigger] before[s]).index == index;
        assert(after[s].index == index);
    }
}

/// Decode one record into all slots.
fn decode_record(slots: &mut Vec<Slot>, record: &[u8], layout: RecordLayout)
    ensures
        same_slots(old(slots)@, final(slots)@),
        forall|s: int|
            0 <= s < final(slots)@.len() ==> (#[trigger] final(slots)@[s]).values.deep_view()
                == old(slots)@[s].values.deep_view().push(
                sample_of(
                    old(slots)@[s].scaling,
                    cell(record@, layout, old(slots)@[s].block.deep_view()),
                ),
            ),
{
    let mut s: usize = 0;
    while s < slots.len()
        invariant
            s <= slots.len(),
            same_slots(old(slots)@, slots@),
            forall|t: int|
                s <= t < slots@.len() ==> (#[trigger] slots@[t]).values.deep_view() == old(
                    slots,
                )@[t].values.deep_view(),
            forall|t: int|
                0 <= t < s ==> (#[trigger] slots@[t]).values.deep_view() == old(
                    slots,
                )@[t].values.deep_view().push(
                    sample_of(
                        old(slots)@[t].scaling,
                        cell(record@, layout, old(slots)@[t].block.deep_view()),
                    ),
                ),
        decreases slots.len() - s,
    {
        let ghost before = slots@;
        let value = read_cell(record, layout, slots[s].block);
        let sample = Sample::of(slots[s].scaling, value);
        slots[s].values.push(sample);
        proof {
            assert(slots@[s as int].values.deep_view() =~= before[s as int].values.deep_view().push(
                sample.deep_view(),
            ));
        }
        s = s + 1;
    }
}

/// A slot more does not take a channel's slot away.
proof fn lemma_slots_grow(before: Seq<Slot>, after: Seq<Slot>)
    requires
        before.len() < after.len(),
        forall|s: int| 0 <= s < before.len() ==> #[trigger] after[s] == before[s],
    ensures
        forall|index: int| #[trigger] has_slot(before, index) ==> has_slot(after, index),
{
    assert forall|index: int| #[trigger] has_slot(before, index) implies has_slot(after, index) by {
        let s = choose|s: int| 0 <= s < before.len() && (#[trigger] before[s]).index == index;
        assert(after[s].index == index);
    }
}

/// As many absent signals as there are names.
pub(crate) fn no_signals(count: usize) -> (signals: Vec<Option<SignalF64>>)
    ensures
        signals.deep_view() == Seq::new(count as nat, |k: int| None::<SignalF64View>),
{
    let mut signals: Vec<Option<SignalF64>> = Vec::new();
    let mut k: usize = 0;
    while k < count
        invariant
            k <= count,
            signals@.len() == k,
            forall|j: int| 0 <= j < k ==> #[trigger] signals@[j] is None,
        decreases count - k,
    {
        signals.push(None);
        k = k + 1;
    }
    assert(signals.deep_view() =~= Seq::new(count as nat, |k: int| None::<SignalF64View>));
    signals
}

/// The slots hold the samples of their channels in the records of `blocks`.
spec fn slots_filled(slots: Seq<Slot>, group: GroupView, blocks: Seq<DataBlockView>) -> bool {
    forall|s: int|
        0 <= s < slots.len() ==> (#[trigger] slots[s]).values.deep_view() == samples_of(
            slots[s].scaling,
            cells_of(blocks, layout_of(group), group.group.channels[slots[s].index as int]),
        )
}

impl<'b> Slot<'b> {
    /// The samples decoded so far.
    fn series(&self) -> (series: Series)
        ensures
            series.deep_view() == (SeriesView {
                scaling: self.scaling,
                samples: self.values.deep_view(),
            }),
    {
        let samples = self.values.clone();
        assert(samples.deep_view() =~= self.values.deep_view());
        Series { scaling: self.scaling, samples }
    }
}

/// The slots hold what the given cells of their channels give.
spec fn slots_hold(
    slots: Seq<Slot>,
    channels: Seq<ChannelBlockView>,
    layout: RecordLayout,
    blocks: Seq<DataBlockView>,
    data: Seq<u8>,
    count: nat,
) -> bool {
    forall|s: int|
        0 <= s < slots.len() ==> (#[trigger] slots[s]).values.deep_view() == samples_of(
            slots[s].scaling,
            cells_of(blocks, layout, channels[slots[s].index as int]) + first_cells(
                data,
                layout,
                channels[slots[s].index as int],
                count,
            ),
        )
}

/// Decode all records of a data block into all slots.
fn decode_block(
    slots: &mut Vec<Slot>,
    data: &[u8],
    layout: RecordLayout,
    Ghost(channels): Ghost<Seq<ChannelBlockView>>,
    Ghost(blocks): Ghost<Seq<DataBlockView>>,
)
    requires
        record_size(layout) > 0,
        slots_fit(old(slots)@, channels),
        slots_hold(old(slots)@, channels, layout, blocks, data@, 0),
    ensures
        same_slots(old(slots)@, final(slots)@),
        slots_fit(final(slots)@, channels),
        slots_hold(
            final(slots)@,
            channels,
            layout,
            blocks,
            data@,
            data@.len() / record_size(layout),
        ),
{
    let size = layout.size();
    let count = record_count(data.len(), size);
    let mut i: usize = 0;
    let mut start: usize = 0;
    while i < count
        invariant
            i <= count,
            0 < size,
            size == record_size(layout),
            count == data@.len() / size as nat,
            count > 0 ==> size <= data.len(),
            start == i * size,
            same_slots(old(slots)@, slots@),
            slots_fit(slots@, channels),
            slots_hold(slots@, channels, layout, blocks, data@, i as nat),
        decreases count - i,
    {
        proof {
            lemma_record_bounds(data@.len(), size as nat, i as int);
        }
        let end = start + size as usize;
        let ghost before = slots@;
        decode_record(slots, &data[start..end], layout);
        proof {
            assert forall|s: int| 0 <= s < slots@.len() implies {
                &&& slot_fits(#[trigger] slots@[s], channels)
                &&& slots@[s].values.deep_view() == samples_of(
                    slots@[s].scaling,
                    cells_of(blocks, layout, channels[slots@[s].index as int]) + first_cells(
                        data@,
                        layout,
                        channels[slots@[s].index as int],
                        (i + 1) as nat,
                    ),
                )
            } by {
                let channel = channels[slots@[s].index as int];
                assert(slot_fits(before[s], channels));
                assert(slots@[s].values.deep_view() =~= samples_of(
                    slots@[s].scaling,
                    cells_of(blocks, layout, channel) + first_cells(
                        data@,
                        layout,
                        channel,
                        (i + 1) as nat,
                    ),
                ));
            }
        }
        start = end;
        i = i + 1;
    }
}

/// Decode the records of all data blocks into all slots.
fn decode_blocks(
    slots: &mut Vec<Slot>,
    blocks: &Vec<DataBlock>,
    layout: RecordLayout,
    Ghost(channels): Ghost<Seq<ChannelBlockView>>,
)
    requires
        blocks.len() > 0 ==> record_size(layout) > 0,
        slots_fit(old(slots)@, channels),
        forall|s: int| 0 <= s < old(slots)@.len() ==> (#[trigger] old(slots)@[s]).values@.len() == 0,
    ensures
        same_slots(old(slots)@, final(slots)@),
        slots_fit(final(slots)@, channels),
        forall|s: int|
            0 <= s < final(slots)@.len() ==> (#[trigger] final(slots)@[s]).values.deep_view()
                == samples_of(
                final(slots)@[s].scaling,
                cells_of(blocks.deep_view(), layout, channels[final(slots)@[s].index as int]),
            ),
{
    let ghost all = blocks.deep_view();
    let mut b: usize = 0;
    assert(all.subrange(0, 0) =~= Seq::empty());
    while b < blocks.len()
        invariant
            b <= blocks.len(),
            all == blocks.deep_view(),
            blocks.len() > 0 ==> record_size(layout) > 0,
            same_slots(old(slots)@, slots@),
            slots_fit(slots@, channels),
            forall|s: int|
                0 <= s < slots@.len() ==> (#[trigger] slots@[s]).values.deep_view() =~= samples_of(
                    slots@[s].scaling,
                    cells_of(
                        all.subrange(0, b as int),
                        layout,
                        channels[slots@[s].index as int],
                    ),
                ),
        decreases blocks.len() - b,
    {
        let data = blocks[b].bytes();
        let ghost earlier = all.subrange(0, b as int);
        proof {
            assert forall|s: int| 0 <= s < slots@.len() implies (
            #[trigger] slots@[s]).values.deep_view() == samples_of(
                slots@[s].scaling,
                cells_of(earlier, layout, channels[slots@[s].index as int]) + first_cells(
                    data@,
                    layout,
                    channels[slots@[s].index as int],
                    0,
                ),
            ) by {
                let channel = channels[slots@[s].index as int];
                assert(cells_of(earlier, layout, channel) + first_cells(data@, layout, channel, 0)
                    =~= cells_of(earlier, layout, channel));
            }
        }
        decode_block(slots, data, layout, Ghost(channels), Ghost(earlier));
        proof {
            let longer = all.subrange(0, b + 1);
            assert(longer.drop_last() =~= earlier);
            assert(longer.last().data == data@);
        }
        b = b + 1;
    }
    assert(all.subrange(0, b as int) =~= all);
}

/// Whether any of the names has a channel.
fn any_target(targets: &Vec<Option<usize>>, Ghost(indices): Ghost<Seq<Option<int>>>) -> (found: bool)
    requires
        targets@.len() == indices.len(),
        forall|k: int| 0 <= k < indices.len() ==> as_index(#[trigger] targets@[k]) == indices[k],
    ensures
        found == any_found(indices),
{
    let mut k: usize = 0;
    while k < targets.len()
        invariant
            k <= targets.len(),
            targets@.len() == indices.len(),
            forall|j: int|
                0 <= j < indices.len() ==> as_index(#[trigger] targets@[j]) == indices[j],
            forall|j: int| 0 <= j < k ==> #[trigger] indices[j] is None,
        decreases targets.len() - k,
    {
        assert(as_index(targets@[k as int]) == indices[k as int]);
        if targets[k].is_some() {
            return true;
        }
        k = k + 1;
    }
    false
}

/// Indices as mathematical integers.
spec fn indices_of(targets: Seq<Option<usize>>) -> Seq<Option<int>> {
    Seq::new(targets.len(), |k: int| as_index(targets[k]))
}

/// What the searches for the names find is what the names resolve to, and are indices of
/// channels.
proof fn lemma_targets(
    file: Seq<u8>,
    channels: Seq<ChannelBlockView>,
    names: Seq<Seq<char>>,
    indices: Seq<Option<int>>,
)
    requires
        indices.len() == names.len(),
        forall|k: int|
            0 <= k < names.len() ==> searched(file, channels, #[trigger] names[k]) == Ok::<
                Option<int>,
                ErrorView,
            >(indices[k]),
    ensures
        resolved(file, channels, names) == Ok::<Seq<Option<int>>, ErrorView>(indices),
        forall|k: int|
            0 <= k < indices.len() ==> (#[trigger] indices[k] matches Some(index) ==> 0 <= index
                < channels.len()),
{
    lemma_resolved(file, channels, names);
    assert(resolved(file, channels, names) is Ok);
    let targets = resolved(file, channels, names)->Ok_0;
    assert forall|k: int| 0 <= k < indices.len() implies {
        &&& #[trigger] indices[k] == targets[k]
        &&& (indices[k] matches Some(index) ==> 0 <= index < channels.len())
    } by {
        assert(searched(file, channels, names[k]) is Ok);
        lemma_search_is_first(file, channels, names[k]);
    }
    assert(targets =~= indices);
}

/// The first name that has no channel yet.
fn first_open(targets: &Vec<Option<usize>>) -> (open: Option<usize>)
    ensures
        match open {
            Some(k) => k < targets@.len() && targets@[k as int] is None,
            None => forall|k: int| 0 <= k < targets@.len() ==> #[trigger] targets@[k] is Some,
        },
{
    let mut k: usize = 0;
    while k < targets.len()
        invariant
            k <= targets.len(),
            forall|j: int| 0 <= j < k ==> #[trigger] targets@[j] is Some,
        decreases targets.len() - k,
    {
        if targets[k].is_none() {
            return Some(k);
        }
        k = k + 1;
    }
    None
}

/// Give the channel with the given index and name to the names that have none yet.
fn assign(targets: &mut Vec<Option<usize>>, names: &[&str], name: &Option<String>, index: usize)
    requires
        old(targets)@.len() == names@.len(),
    ensures
        final(targets)@.len() == names@.len(),
        forall|k: int|
            0 <= k < names@.len() ==> #[trigger] final(targets)@[k] == (if old(targets)@[k] is None
                && name.deep_view() == Some(names@[k]@) {
                Some(index)
            } else {
                old(targets)@[k]
            }),
{
    match name {
        None => {},
        Some(text) => {
            let mut slot: usize = 0;
            while slot < names.len()
                invariant
                    slot <= names.len(),
                    targets@.len() == old(targets)@.len() == names@.len(),
                    name.deep_view() == Some(text@),
                    forall|k: int|
                        0 <= k < slot ==> #[trigger] targets@[k] == (if old(targets)@[k] is None
                            && name.deep_view() == Some(names@[k]@) {
                            Some(index)
                        } else {
                            old(targets)@[k]
                        }),
                    forall|k: int|
                        slot <= k < names@.len() ==> #[trigger] targets@[k] == old(targets)@[k],
                decreases names.len() - slot,
            {
                if targets[slot].is_none() && same_text(names[slot], text.as_str()) {
                    targets[slot] = Some(index);
                }
                slot = slot + 1;
            }
        },
    }
}

/// A list without a channel for any of `count` names.
fn no_targets(count: usize) -> (targets: Vec<Option<usize>>)
    ensures
        targets@.len() == count,
        forall|k: int| 0 <= k < count ==> #[trigger] targets@[k] is None,
{
    let mut targets: Vec<Option<usize>> = Vec::new();
    let mut k: usize = 0;
    while k < count
        invariant
            k <= count,
            targets@.len() == k,
            forall|j: int| 0 <= j < k ==> #[trigger] targets@[j] is None,
        decreases count - k,
    {
        targets.push(None);
        k = k + 1;
    }
    targets
}

impl<'a> ChannelGroup<'a> {
    /// Look for the first channel of each name, and for the first master. Channel names are
    /// read only while a name has no channel yet.
    fn resolve(&self, names: &[&str]) -> (found: Result<
        (Vec<Option<usize>>, Option<usize>),
        MdfError,
    >)
        ensures
            match found {
                Ok((targets, master)) => {
                    &&& targets@.len() == names@.len()
                    &&& resolved(
                        self.deep_view().file,
                        self.deep_view().group.channels,
                        names.deep_view(),
                    ) == Ok::<Seq<Option<int>>, ErrorView>(indices_of(targets@))
                    &&& forall|k: int|
                        0 <= k < targets@.len() ==> (#[trigger] targets@[k] matches Some(index)
                            ==> index < self.deep_view().group.channels.len())
                    &&& first_master(self.deep_view().group.channels) == as_index(master)
                },
                Err(error) => resolved(
                    self.deep_view().file,
                    self.deep_view().group.channels,
                    names.deep_view(),
                ) == Err::<Seq<Option<int>>, ErrorView>(error.deep_view()),
            },
    {
        let ghost file = self.deep_view().file;
        let ghost all = self.deep_view().group.channels;
        let count = self.channel_count();
        let mut targets = no_targets(names.len());
        let mut master: Option<usize> = None;
        let mut i: usize = 0;
        assert(all.subrange(0, 0) =~= Seq::empty());
        while i < count
            invariant
                i <= count == all.len(),
                file == self.deep_view().file,
                all == self.deep_view().group.channels,
                as_index(master) == first_master(all.subrange(0, i as int)),
                targets@.len() == names@.len(),
                forall|j: int|
                    0 <= j < names@.len() ==> Ok::<Option<int>, ErrorView>(
                        as_index(#[trigger] targets@[j]),
                    ) == searched(file, all.subrange(0, i as int), names@[j]@),
            decreases count - i,
        {
            let ghost before = targets@;
            proof {
                assert(all.subrange(0, i + 1).drop_last() =~= all.subrange(0, i as int));
            }
            let channel = self.channel_at(i);
            if master.is_none() && channel.block().channel_type == 2 {
                master = Some(i);
            }
            match first_open(&targets) {
                None => {},
                Some(open) => {
                    match channel.name() {
                        Ok(name) => assign(&mut targets, names, &name, i),
                        Err(error) => {
                            proof {
                                let wanted = names.deep_view();
                                assert(wanted[open as int] == names@[open as int]@);
                                assert(before[open as int] is None);
                                lemma_search_settled(file, all, wanted[open as int], i + 1);
                                lemma_resolved_error(file, all, wanted, open as int);
                            }
                            return Err(error);
                        },
                    }
                },
            }
            proof {
                assert forall|j: int| 0 <= j < names@.len() implies Ok::<Option<int>, ErrorView>(
                    as_index(#[trigger] targets@[j]),
                ) == searched(file, all.subrange(0, i + 1), names@[j]@) by {
                    assert(Ok::<Option<int>, ErrorView>(as_index(before[j])) == searched(
                        file,
                        all.subrange(0, i as int),
                        names@[j]@,
                    ));
                }
            }
            i = i + 1;
        }
        assert(all.subrange(0, i as int) =~= all);
        proof {
            let wanted = names.deep_view();
            assert forall|k: int| 0 <= k < wanted.len() implies searched(
                file,
                all,
                #[trigger] wanted[k],
            ) == Ok::<Option<int>, ErrorView>(indices_of(targets@)[k]) by {
                assert(wanted[k] == names@[k]@);
                assert(Ok::<Option<int>, ErrorView>(as_index(targets@[k])) == searched(
                    file,
                    all,
                    names@[k]@,
                ));
            }
            lemma_targets(file, all, wanted, indices_of(targets@));
            assert forall|k: int| 0 <= k < targets@.len() implies (
            #[trigger] targets@[k] matches Some(index) ==> index < all.len()) by {
                assert(indices_of(targets@)[k] == as_index(targets@[k]));
            }
        }
        Ok((targets, master))
    }

    /// A slot for the channel with the given index.
    fn make_slot(&self, index: usize) -> (slot: Slot<'a>)
        requires
            index < self.deep_view().group.channels.len(),
            !is_vlsd(self.deep_view().group.channels[index as int]),
        ensures
            slot.index == index,
            slot_fits(slot, self.deep_view().group.channels),
            slot.values@.len() == 0,
    {
        let channel = self.channel_at(index);
        Slot { index, block: channel.block(), scaling: channel.scaling(), values: Vec::new() }
    }

    /// Slots for the distinct channels that one pass decodes: those of `targets` whose
    /// values lie in the records, and the master.
    fn make_slots(&self, targets: &Vec<Option<usize>>, master: Option<usize>) -> (slots: Vec<
        Slot<'a>,
    >)
        requires
            forall|k: int|
                0 <= k < targets@.len() ==> (#[trigger] targets@[k] matches Some(index) ==> index
                    < self.deep_view().group.channels.len()),
            as_index(master) == first_master(self.deep_view().group.channels),
        ensures
            slots_fit(slots@, self.deep_view().group.channels),
            forall|s: int| 0 <= s < slots@.len() ==> (#[trigger] slots@[s]).values@.len() == 0,
            forall|k: int|
                0 <= k < targets@.len() ==> (#[trigger] targets@[k] matches Some(index) ==> is_vlsd(
                    self.deep_view().group.channels[index as int],
                ) || has_slot(slots@, index as int)),
            master matches Some(index) ==> has_slot(slots@, index as int),
            slots@.len() > 0 <==> (master is Some || exists|k: int|
                0 <= k < targets@.len() && (#[trigger] targets@[k] matches Some(index)
                    && !is_vlsd(self.deep_view().group.channels[index as int]))),
    {
        let ghost all = self.deep_view().group.channels;
        let mut slots: Vec<Slot<'a>> = Vec::new();
        let mut k: usize = 0;
        while k < targets.len()
            invariant
                k <= targets.len(),
                all == self.deep_view().group.channels,
                forall|j: int|
                    0 <= j < targets@.len() ==> (#[trigger] targets@[j] matches Some(index)
                        ==> index < all.len()),
                slots_fit(slots@, all),
                forall|s: int| 0 <= s < slots@.len() ==> (#[trigger] slots@[s]).values@.len() == 0,
                forall|j: int|
                    0 <= j < k ==> (#[trigger] targets@[j] matches Some(index) ==> is_vlsd(
                        all[index as int],
                    ) || has_slot(slots@, index as int)),
                slots@.len() > 0 <==> exists|j: int|
                    0 <= j < k && (#[trigger] targets@[j] matches Some(index) && !is_vlsd(
                        all[index as int],
                    )),
            decreases targets.len() - k,
        {
            match targets[k] {
                None => {},
                Some(index) => {
                    let block = self.channel_at(index).block();
                    if !(block.channel_type == 1 && block.data != 0) {
                        if find_slot(&slots, index).is_none() {
                            let ghost before = slots@;
                            slots.push(self.make_slot(index));
                            proof {
                                lemma_slots_grow(before, slots@);
                                assert(slots@[before.len() as int].index == index);
                            }
                        }
                    }
                },
            }
            k = k + 1;
        }
        match master {
            None => {},
            Some(index) => {
                proof {
                    lemma_master_is_first(all);
                }
                if find_slot(&slots, index).is_none() {
                    let ghost before = slots@;
                    slots.push(self.make_slot(index));
                    proof {
                        lemma_slots_grow(before, slots@);
                        assert(slots@[before.len() as int].index == index);
                    }
                }
            },
        }
        slots
    }

    /// The samples of the channel with the given index: out of its slot, or read on their
    /// own where they are of variable length.
    fn target_samples(
        &self,
        slots: &Vec<Slot<'a>>,
        index: usize,
        Ghost(blocks): Ghost<Seq<DataBlockView>>,
    ) -> (series: Result<Series, MdfError>)
        requires
            index < self.deep_view().group.channels.len(),
            slots_fit(slots@, self.deep_view().group.channels),
            slots_filled(slots@, self.deep_view(), blocks),
            is_vlsd(self.deep_view().group.channels[index as int]) || has_slot(
                slots@,
                index as int,
            ),
        ensures
            outcome(series) == target_series(
                self.deep_view(),
                blocks,
                self.deep_view().group.channels[index as int],
            ),
    {
        match find_slot(slots, index) {
            Some(s) => {
                assert(slot_fits(slots@[s as int], self.deep_view().group.channels));
                Ok(slots[s].series())
            },
            None => self.channel_at(index).values_as_f64(),
        }
    }

    /// The time axis of the channel with the given index.
    fn target_axis(
        &self,
        slots: &Vec<Slot<'a>>,
        master: Option<usize>,
        index: usize,
        Ghost(blocks): Ghost<Seq<DataBlockView>>,
    ) -> (series: Series)
        requires
            slots_fit(slots@, self.deep_view().group.channels),
            slots_filled(slots@, self.deep_view(), blocks),
            as_index(master) == first_master(self.deep_view().group.channels),
            master matches Some(mi) ==> has_slot(slots@, mi as int),
        ensures
            series.deep_view() == block_axis(self.deep_view(), blocks, index as int),
    {
        match master {
            None => Series::empty(),
            Some(mi) => {
                if mi == index {
                    return Series::empty();
                }
                match find_slot(slots, mi) {
                    Some(s) => {
                        assert(slot_fits(slots@[s as int], self.deep_view().group.channels));
                        slots[s].series()
                    },
                    None => Series::empty(),
                }
            },
        }
    }

    /// The signal of the channel with the given index.
    fn target_read(
        &self,
        name: &str,
        slots: &Vec<Slot<'a>>,
        master: Option<usize>,
        index: usize,
        Ghost(blocks): Ghost<Seq<DataBlockView>>,
    ) -> (signal: Result<SignalF64, MdfError>)
        requires
            index < self.deep_view().group.channels.len(),
            slots_fit(slots@, self.deep_view().group.channels),
            slots_filled(slots@, self.deep_view(), blocks),
            is_vlsd(self.deep_view().group.channels[index as int]) || has_slot(
                slots@,
                index as int,
            ),
            as_index(master) == first_master(self.deep_view().group.channels),
            master matches Some(mi) ==> has_slot(slots@, mi as int),
        ensures
            match signal {
                Ok(read) => target_signal(self.deep_view(), blocks, name@, Some(index as int))
                    == Ok::<Option<SignalF64View>, ErrorView>(Some(read.deep_view())),
                Err(error) => target_signal(self.deep_view(), blocks, name@, Some(index as int))
                    == Err::<Option<SignalF64View>, ErrorView>(error.deep_view()),
            },
    {
        let values = self.target_samples(slots, index, Ghost(blocks))?;
        let timestamps = self.target_axis(slots, master, index, Ghost(blocks));
        let unit = self.channel_at(index).unit()?;
        Ok(SignalF64 { name: name.to_string(), unit, timestamps, values })
    }

    /// Put the decoded samples together into one signal for each name.
    fn assemble(
        &self,
        names: &[&str],
        targets: &Vec<Option<usize>>,
        master: Option<usize>,
        slots: &Vec<Slot<'a>>,
        Ghost(blocks): Ghost<Seq<DataBlockView>>,
        Ghost(indices): Ghost<Seq<Option<int>>>,
    ) -> (signals: Result<Vec<Option<SignalF64>>, MdfError>)
        requires
            targets@.len() == names@.len() == indices.len(),
            forall|k: int|
                0 <= k < targets@.len() ==> as_index(#[trigger] targets@[k]) == indices[k],
            forall|k: int|
                0 <= k < targets@.len() ==> (#[trigger] targets@[k] matches Some(index) ==> index
                    < self.deep_view().group.channels.len() && (is_vlsd(
                    self.deep_view().group.channels[index as int],
                ) || has_slot(slots@, index as int))),
            slots_fit(slots@, self.deep_view().group.channels),
            slots_filled(slots@, self.deep_view(), blocks),
            as_index(master) == first_master(self.deep_view().group.channels),
            master matches Some(mi) ==> has_slot(slots@, mi as int),
        ensures
            outcome(signals) == target_signals(
                self.deep_view(),
                blocks,
                names.deep_view(),
                indices,
                names@.len() as int,
            ),
    {
        let ghost group = self.deep_view();
        let ghost wanted = names.deep_view();
        let mut out: Vec<Option<SignalF64>> = Vec::new();
        let mut k: usize = 0;
        assert(out.deep_view() =~= Seq::empty());
        while k < names.len()
            invariant
                k <= names.len(),
                group == self.deep_view(),
                wanted == names.deep_view(),
                targets@.len() == names@.len() == indices.len(),
                forall|j: int|
                    0 <= j < targets@.len() ==> as_index(#[trigger] targets@[j]) == indices[j],
                forall|j: int|
                    0 <= j < targets@.len() ==> (#[trigger] targets@[j] matches Some(index)
                        ==> index < group.group.channels.len() && (is_vlsd(
                        group.group.channels[index as int],
                    ) || has_slot(slots@, index as int))),
                slots_fit(slots@, group.group.channels),
                slots_filled(slots@, group, blocks),
                as_index(master) == first_master(group.group.channels),
                master matches Some(mi) ==> has_slot(slots@, mi as int),
                target_signals(group, blocks, wanted, indices, k as int) == Ok::<
                    Seq<Option<SignalF64View>>,
                    ErrorView,
                >(out.deep_view()),
            decreases names.len() - k,
        {
            let ghost before = out.deep_view();
            assert(wanted[k as int] == names@[k as int]@);
            assert(as_index(targets@[k as int]) == indices[k as int]);
            match targets[k] {
                None => {
                    out.push(None);
                    assert(out.deep_view() =~= before.push(None));
                },
                Some(index) => {
                    match self.target_read(names[k], slots, master, index, Ghost(blocks)) {
                        Ok(signal) => {
                            let ghost view = signal.deep_view();
                            out.push(Some(signal));
                            assert(out.deep_view() =~= before.push(Some(view)));
                        },
                        Err(error) => {
                            proof {
                                lemma_signals_error(
                                    group,
                                    blocks,
                                    wanted,
                                    indices,
                                    k + 1,
                                    names@.len() as int,
                                );
                            }
                            return Err(error);
                        },
                    }
                },
            }
            k = k + 1;
        }
        Ok(out)
    }

    /// Read the channels that the names refer to.
    fn read_targets(
        &self,
        names: &[&str],
        targets: &Vec<Option<usize>>,
        master: Option<usize>,
        Ghost(indices): Ghost<Seq<Option<int>>>,
    ) -> (signals: Result<Vec<Option<SignalF64>>, MdfError>)
        requires
            targets@.len() == names@.len() == indices.len(),
            forall|k: int|
                0 <= k < targets@.len() ==> as_index(#[trigger] targets@[k]) == indices[k],
            forall|k: int|
                0 <= k < targets@.len() ==> (#[trigger] targets@[k] matches Some(index) ==> index
                    < self.deep_view().group.channels.len()),
            as_index(master) == first_master(self.deep_view().group.channels),
        ensures
            outcome(signals) == (match pass_blocks(self.deep_view(), indices) {
                Err(error) => Err(error),
                Ok(blocks) => target_signals(
                    self.deep_view(),
                    blocks,
                    names.deep_view(),
                    indices,
                    names@.len() as int,
                ),
            }),
    {
        let ghost all = self.deep_view().group.channels;
        let mut slots = self.make_slots(targets, master);
        proof {
            assert((slots@.len() > 0) == needs_records(all, indices)) by {
                if needs_records(all, indices) && master is None {
                    let k = choose|k: int|
                        0 <= k < indices.len() && #[trigger] in_records(all, indices, k);
                    assert(as_index(targets@[k]) == indices[k]);
                }
                if slots@.len() > 0 && master is None {
                    let k = choose|k: int|
                        0 <= k < targets@.len() && (#[trigger] targets@[k] matches Some(index)
                            && !is_vlsd(all[index as int]));
                    assert(as_index(targets@[k]) == indices[k]);
                    assert(in_records(all, indices, k));
                }
            }
        }
        let blocks = self.pass_read(slots.len() > 0)?;
        let ghost before = slots@;
        decode_blocks(&mut slots, &blocks, self.layout(), Ghost(all));
        proof {
            lemma_slots_stay(before, slots@);
        }
        self.assemble(names, targets, master, &slots, Ghost(blocks.deep_view()), Ghost(indices))
    }

    /// Read the data blocks, where they are needed.
    fn pass_read(&self, needed: bool) -> (blocks: Result<Vec<DataBlock<'a>>, MdfError>)
        ensures
            outcome(blocks) == (if needed {
                record_blocks(self.deep_view())
            } else {
                Ok(Seq::empty())
            }),
            blocks matches Ok(read) ==> read@.len() > 0 ==> record_size(layout_of(self.deep_view()))
                > 0,
    {
        if needed {
            self.read_blocks()
        } else {
            let none: Vec<DataBlock<'a>> = Vec::new();
            assert(none.deep_view() =~= Seq::empty());
            Ok(none)
        }
    }

    /// Decode several channels and the master axis in one pass over the group's data
    /// blocks.
    ///
    /// [`signal`](Self::signal) walks the data blocks once for the channel and once more
    /// for the master. This reads them once and extracts all requested channels record by
    /// record.
    ///
    /// The result is index-aligned with `names`; `None` marks a name with no channel in
    /// this group. Each name resolves as in [`signal`](Self::signal). When no name matches, the data blocks are not touched. Values of
    /// variable length are read channel by channel.
    pub fn signals_f64(&self, names: &[&str]) -> (signals: Result<Vec<Option<SignalF64>>, MdfError>)
        ensures
            outcome(signals) == group_signals(self.deep_view(), names.deep_view()),
    {
        let (targets, master) = self.resolve(names)?;
        let ghost indices = indices_of(targets@);
        if !any_target(&targets, Ghost(indices)) {
            return Ok(no_signals(names.len()));
        }
        self.read_targets(names, &targets, master, Ghost(indices))
    }
}

} // verus!
