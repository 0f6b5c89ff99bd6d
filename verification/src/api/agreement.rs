//! How reading channels one by one and reading several at once relate.
use vstd::prelude::*;

use crate::api::bulk::{any_found, block_axis, group_signals, in_records, lemma_resolved};
use crate::api::bulk::{needs_records, pass_blocks, resolved, target_signal, target_signals};
use crate::api::channel::ChannelView;
use crate::api::channel_group::{axis, first_master, first_match, group_signal};
use crate::api::channel_group::{lemma_master_is_first, lemma_search_is_first};
use crate::api::channel_group::{readable_names, searched};
use crate::api::mdf::{absent, channel_among, channel_in, lemma_absent, lemma_placed};
use crate::api::mdf::{signal_among, signals_among};
use crate::blocks::channel_block::ChannelBlockView;
use crate::blocks::data_block::DataBlockView;
use crate::error::ErrorView;
use crate::parsing::decoder::is_vlsd;
use crate::parsing::records::{cells_of, layout_of, record_blocks, record_size, GroupView};
use crate::parsing::records::RecordLayout;
use crate::signal::{no_series, numeric, SignalF64View, SignalView};

verus! {

/// What a read of one channel says of that channel in a read of several.
pub open spec fn agrees(
    one: Result<Option<SignalView>, ErrorView>,
    several: Option<SignalF64View>,
) -> bool {
    match one {
        Ok(Some(signal)) => several == Some(numeric(signal)),
        Ok(None) => several is None,
        Err(_) => false,
    }
}

/// The signals read together are index-aligned with the names, and each is what its name
/// gives.
proof fn lemma_signals_by_name(
    group: GroupView,
    blocks: Seq<DataBlockView>,
    names: Seq<Seq<char>>,
    targets: Seq<Option<int>>,
    count: int,
)
    requires
        0 <= count,
    ensures
        match target_signals(group, blocks, names, targets, count) {
            Ok(out) => {
                &&& out.len() == count
                &&& forall|k: int|
                    0 <= k < count ==> target_signal(group, blocks, names[k], targets[k]) == Ok::<
                        Option<SignalF64View>,
                        ErrorView,
                    >(#[trigger] out[k])
            },
            Err(error) => exists|k: int|
                0 <= k < count && #[trigger] target_signal(group, blocks, names[k], targets[k])
                    == Err::<Option<SignalF64View>, ErrorView>(error),
        },
    decreases count,
{
    if count > 0 {
        lemma_signals_by_name(group, blocks, names, targets, count - 1);
    }
}

/// Reading one channel gives the same as reading it among others, as far as the data blocks
/// could be read.
proof fn lemma_one_agrees(group: GroupView, names: Seq<Seq<char>>, k: int)
    requires
        resolved(group.file, group.group.channels, names) is Ok,
        0 <= k < names.len(),
        pass_blocks(group, resolved(group.file, group.group.channels, names)->Ok_0) is Ok,
    ensures
        ({
            let targets = resolved(group.file, group.group.channels, names)->Ok_0;
            let blocks = pass_blocks(group, targets)->Ok_0;
            match target_signal(group, blocks, names[k], targets[k]) {
                Ok(signal) => agrees(group_signal(group, names[k]), signal),
                Err(_) => group_signal(group, names[k]) is Err,
            }
        }),
{
    let channels = group.group.channels;
    let targets = resolved(group.file, channels, names)->Ok_0;
    let blocks = pass_blocks(group, targets)->Ok_0;
    lemma_resolved(group.file, channels, names);
    lemma_search_is_first(group.file, channels, names[k]);
    lemma_master_is_first(channels);
    match targets[k] {
        None => {},
        Some(index) => {
            let channel = channels[index];
            if !is_vlsd(channel) {
                assert(in_records(channels, targets, k));
                assert(needs_records(channels, targets));
            }
            assert(axis(group, index) == Ok::<_, ErrorView>(block_axis(group, blocks, index)));
        },
    }
}

/// **Reading several channels in one pass agrees with reading each on its own.** What comes
/// back is index-aligned with the names. Where a name has no channel there is no signal;
/// where it has one, the signal carries the same name, unit, time axis and numeric samples.
pub proof fn lemma_bulk_agrees(group: GroupView, names: Seq<Seq<char>>)
    requires
        group_signals(group, names) is Ok,
    ensures
        group_signals(group, names)->Ok_0.len() == names.len(),
        forall|k: int|
            0 <= k < names.len() ==> agrees(
                group_signal(group, names[k]),
                #[trigger] group_signals(group, names)->Ok_0[k],
            ),
{
    let channels = group.group.channels;
    let targets = resolved(group.file, channels, names)->Ok_0;
    let out = group_signals(group, names)->Ok_0;
    lemma_resolved(group.file, channels, names);
    if any_found(targets) {
        let blocks = pass_blocks(group, targets)->Ok_0;
        lemma_signals_by_name(group, blocks, names, targets, names.len() as int);
        assert forall|k: int| 0 <= k < names.len() implies agrees(
            group_signal(group, names[k]),
            #[trigger] out[k],
        ) by {
            lemma_one_agrees(group, names, k);
        }
    } else {
        assert forall|k: int| 0 <= k < names.len() implies agrees(
            group_signal(group, names[k]),
            #[trigger] out[k],
        ) by {
            assert(targets[k] is None);
        }
    }
}

/// Several channels can be read in one pass exactly when each of them can be read on its own.
pub proof fn lemma_bulk_succeeds(group: GroupView, names: Seq<Seq<char>>)
    ensures
        group_signals(group, names) is Ok <==> forall|k: int|
            0 <= k < names.len() ==> group_signal(group, #[trigger] names[k]) is Ok,
{
    let channels = group.group.channels;
    let targets = resolved(group.file, channels, names)->Ok_0;
    if group_signals(group, names) is Ok {
        lemma_bulk_agrees(group, names);
        let out = group_signals(group, names)->Ok_0;
        assert forall|k: int| 0 <= k < names.len() implies group_signal(
            group,
            #[trigger] names[k],
        ) is Ok by {
            assert(agrees(group_signal(group, names[k]), out[k]));
        }
    } else if resolved(group.file, channels, names) is Err {
        lemma_resolved(group.file, channels, names);
        let k = choose|k: int|
            0 <= k < names.len() && searched(group.file, channels, #[trigger] names[k]) == Err::<
                Option<int>,
                ErrorView,
            >(resolved(group.file, channels, names)->Err_0);
        assert(group_signal(group, names[k]) is Err);
    } else {
        lemma_resolved(group.file, channels, names);
        assert(any_found(targets));
        match pass_blocks(group, targets) {
            Err(_) => {
                lemma_master_is_first(channels);
                let k = if first_master(channels) is Some {
                    choose|k: int| 0 <= k < targets.len() && #[trigger] targets[k] is Some
                } else {
                    choose|k: int|
                        0 <= k < targets.len() && #[trigger] in_records(channels, targets, k)
                };
                assert(searched(group.file, channels, names[k]) == Ok::<Option<int>, ErrorView>(
                    targets[k],
                ));
                assert(record_blocks(group) is Err);
                assert(group_signal(group, names[k]) is Err);
            },
            Ok(blocks) => {
                lemma_signals_by_name(group, blocks, names, targets, names.len() as int);
                let k = choose|k: int|
                    0 <= k < names.len() && #[trigger] target_signal(
                        group,
                        blocks,
                        names[k],
                        targets[k],
                    ) == Err::<Option<SignalF64View>, ErrorView>(
                        target_signals(
                            group,
                            blocks,
                            names,
                            targets,
                            names.len() as int,
                        )->Err_0,
                    );
                lemma_one_agrees(group, names, k);
                assert(group_signal(group, names[k]) is Err);
            },
        }
    }
}

/// Where no name has a channel, nothing but the names is read: no error of the data blocks
/// can come back.
pub proof fn lemma_unknown_names_touch_no_data(group: GroupView, names: Seq<Seq<char>>)
    requires
        forall|k: int|
            0 <= k < names.len() ==> searched(
                group.file,
                group.group.channels,
                #[trigger] names[k],
            ) == Ok::<Option<int>, ErrorView>(None),
    ensures
        group_signals(group, names) == Ok::<Seq<Option<SignalF64View>>, ErrorView>(
            Seq::new(names.len(), |k: int| None),
        ),
{
    let channels = group.group.channels;
    lemma_resolved(group.file, channels, names);
    assert(resolved(group.file, channels, names) is Ok);
    let targets = resolved(group.file, channels, names)->Ok_0;
    assert forall|k: int| 0 <= k < targets.len() implies #[trigger] targets[k] is None by {
        assert(searched(group.file, channels, names[k]) is Ok);
    }
}

/// A search that ends without an error finds the first match among the readable names.
proof fn lemma_search_among_readable(
    file: Seq<u8>,
    channels: Seq<ChannelBlockView>,
    name: Seq<char>,
)
    requires
        searched(file, channels, name) is Ok,
    ensures
        first_match(readable_names(file, channels), name) == searched(file, channels, name)->Ok_0,
    decreases channels.len(),
{
    if channels.len() > 0 {
        lemma_search_among_readable(file, channels.drop_last(), name);
        assert(readable_names(file, channels).drop_last() =~= readable_names(
            file,
            channels.drop_last(),
        ));
    }
}

/// Where the search for a name ends without an error, looking the channel up gives the
/// channel that is read; there is none exactly where there is no signal.
pub proof fn lemma_lookup_agrees(group: GroupView, name: Seq<char>)
    requires
        searched(group.file, group.group.channels, name) is Ok,
    ensures
        channel_in(group, name) == (match searched(group.file, group.group.channels, name)->Ok_0 {
            Some(index) => Some(ChannelView { group, channel: group.group.channels[index] }),
            None => None,
        }),
        channel_in(group, name) is None <==> group_signal(group, name) == Ok::<
            Option<SignalView>,
            ErrorView,
        >(None),
{
    lemma_search_among_readable(group.file, group.group.channels, name);
}

/// Where a channel of a file can be read by its name, or there is none, looking it up agrees.
pub proof fn lemma_file_lookup_agrees(groups: Seq<GroupView>, name: Seq<char>)
    requires
        signal_among(groups, name) is Ok,
    ensures
        channel_among(groups, name) is None <==> signal_among(groups, name)->Ok_0 is None,
    decreases groups.len(),
{
    if groups.len() > 0 {
        lemma_file_lookup_agrees(groups.drop_last(), name);
        if signal_among(groups.drop_last(), name)->Ok_0 is None {
            lemma_lookup_agrees(groups.last(), name);
        }
    }
}

/// All channels have as many values in the same records.
pub proof fn lemma_cells_len(
    blocks: Seq<DataBlockView>,
    layout: RecordLayout,
    one: ChannelBlockView,
    other: ChannelBlockView,
)
    requires
        blocks.len() > 0 ==> record_size(layout) > 0,
    ensures
        cells_of(blocks, layout, one).len() == cells_of(blocks, layout, other).len(),
    decreases blocks.len(),
{
    if blocks.len() > 0 {
        lemma_cells_len(blocks.drop_last(), layout, one, other);
        let data = blocks.last().data;
        assert(data.len() / record_size(layout) >= 0) by (nonlinear_arith)
            requires
                record_size(layout) > 0,
        ;
    }
}

/// A time axis has a point for each value of a channel whose values lie in the records, and
/// is empty where the group has no master or the channel is the master.
pub proof fn lemma_axis_matches_values(group: GroupView, name: Seq<char>, index: int)
    requires
        searched(group.file, group.group.channels, name) == Ok::<Option<int>, ErrorView>(
            Some(index),
        ),
        !is_vlsd(group.group.channels[index]),
    ensures
        group_signal(group, name) matches Ok(Some(signal)) ==> match first_master(
            group.group.channels,
        ) {
            Some(master) => if master == index {
                signal.timestamps == no_series()
            } else {
                signal.timestamps.samples.len() == signal.values.len()
            },
            None => signal.timestamps == no_series(),
        },
{
    let channels = group.group.channels;
    lemma_master_is_first(channels);
    if let Some(master) = first_master(channels) {
        if let Ok(blocks) = record_blocks(group) {
            lemma_cells_len(blocks, layout_of(group), channels[master], channels[index]);
        }
    }
}

/// **Reading several channels of a file at once agrees with reading each by its name.** What
/// comes back is index-aligned with the names, and each name resolves to its first match in
/// file order.
pub proof fn lemma_file_bulk_agrees(groups: Seq<GroupView>, names: Seq<Seq<char>>)
    requires
        signals_among(groups, names) is Ok,
    ensures
        signals_among(groups, names)->Ok_0.len() == names.len(),
        forall|k: int|
            0 <= k < names.len() ==> agrees(
                signal_among(groups, names[k]),
                #[trigger] signals_among(groups, names)->Ok_0[k],
            ),
    decreases groups.len(),
{
    if groups.len() > 0 {
        lemma_file_bulk_agrees(groups.drop_last(), names);
        let before = signals_among(groups.drop_last(), names)->Ok_0;
        let out = signals_among(groups, names)->Ok_0;
        let left = absent(before);
        lemma_absent(before);
        if left.len() == 0 {
            assert forall|k: int| 0 <= k < names.len() implies agrees(
                signal_among(groups, names[k]),
                #[trigger] out[k],
            ) by {
                assert(before[k] is Some);
            }
        } else {
            let want = Seq::new(left.len(), |j: int| names[left[j]]);
            let got = group_signals(groups.last(), want)->Ok_0;
            lemma_bulk_agrees(groups.last(), want);
            lemma_placed(before, left, got, left.len() as int);
            assert forall|k: int| 0 <= k < names.len() implies agrees(
                signal_among(groups, names[k]),
                #[trigger] out[k],
            ) by {
                assert(agrees(signal_among(groups.drop_last(), names[k]), before[k]));
                if before[k] is None {
                    let j = choose|j: int| 0 <= j < left.len() && left[j] == k;
                    assert(want[j] == names[k]);
                    assert(agrees(group_signal(groups.last(), want[j]), got[j]));
                } else {
                    assert forall|j: int| 0 <= j < left.len() implies left[j] != k by {}
                }
            }
        }
    }
}

/// Several channels of a file can be read at once exactly when each of them can be read by its
/// name.
pub proof fn lemma_file_bulk_succeeds(groups: Seq<GroupView>, names: Seq<Seq<char>>)
    ensures
        signals_among(groups, names) is Ok <==> forall|k: int|
            0 <= k < names.len() ==> signal_among(groups, #[trigger] names[k]) is Ok,
{
    if signals_among(groups, names) is Ok {
        lemma_file_bulk_agrees(groups, names);
        let out = signals_among(groups, names)->Ok_0;
        assert forall|k: int| 0 <= k < names.len() implies signal_among(
            groups,
            #[trigger] names[k],
        ) is Ok by {
            assert(agrees(signal_among(groups, names[k]), out[k]));
        }
    } else if forall|k: int| 0 <= k < names.len() ==> signal_among(groups, #[trigger] names[k]) is Ok {
        lemma_file_bulk_reads(groups, names);
    }
}

proof fn lemma_file_bulk_reads(groups: Seq<GroupView>, names: Seq<Seq<char>>)
    requires
        forall|k: int| 0 <= k < names.len() ==> signal_among(groups, #[trigger] names[k]) is Ok,
    ensures
        signals_among(groups, names) is Ok,
    decreases groups.len(),
{
    if groups.len() > 0 {
        let earlier = groups.drop_last();
        assert forall|k: int| 0 <= k < names.len() implies signal_among(
            earlier,
            #[trigger] names[k],
        ) is Ok by {
            assert(signal_among(groups, names[k]) is Ok);
        }
        lemma_file_bulk_reads(earlier, names);
        lemma_file_bulk_agrees(earlier, names);
        let before = signals_among(earlier, names)->Ok_0;
        let left = absent(before);
        lemma_absent(before);
        let want = Seq::new(left.len(), |j: int| names[left[j]]);
        assert forall|j: int| 0 <= j < want.len() implies group_signal(
            groups.last(),
            #[trigger] want[j],
        ) is Ok by {
            let k = left[j];
            assert(before[k] is None);
            assert(agrees(signal_among(earlier, names[k]), before[k]));
            assert(signal_among(groups, names[k]) is Ok);
        }
        lemma_bulk_succeeds(groups.last(), want);
    }
}

} // verus!
