//! Signals: what reading a channel by its name gives.
use vstd::prelude::*;

use crate::api::agreement::{agrees, lemma_bulk_agrees};
use crate::api::bulk::{group_signals, lemma_resolved, lemma_resolved_error, pass_blocks, resolved};
use crate::api::bulk::{target_signal, target_signals};
use crate::api::channel::channel_cells;
use crate::api::channel_group::{axis, first_master, group_signal, is_other_name};
use crate::api::channel_group::{lemma_master_is_first, lemma_search_is_first, passed_over, searched};
use crate::blocks::channel_block::ChannelBlockView;
use crate::blocks::common::string_block;
use crate::blocks::conversion::ConversionType;
use crate::blocks::data_block::DataBlockView;
use crate::error::ErrorView;
use crate::parsing::decoder::DecodedView;
use crate::parsing::raw_data_group::group_data_blocks;
use crate::parsing::records::GroupView;
use crate::signal::{scaling_of, series_of, SampleView, Scaling, SeriesView};
use crate::signal::{SignalF64View, SignalView};

verus! {

/// The values of the channel are physical as they are stored.
pub open spec fn has_no_rule(channel: ChannelBlockView) -> bool {
    channel.conversion matches Some(rule) ==> rule.cc_type == ConversionType::Identity
}

/// The rule of the channel is an offset and a factor.
pub open spec fn has_linear_rule(channel: ChannelBlockView) -> bool {
    channel.conversion matches Some(rule) && rule.cc_type == ConversionType::Linear
        && rule.cc_val.len() >= 2
}

/// `scaling` is what the rule of the channel asks for: nothing where there is none, its offset
/// and factor where it is linear, and the rule itself, by its address, in all other cases.
pub open spec fn fits_rule(scaling: Scaling, channel: ChannelBlockView) -> bool {
    &&& scaling is Identity <==> has_no_rule(channel)
    &&& scaling is Linear <==> has_linear_rule(channel)
    &&& scaling matches Scaling::Linear { offset, factor } ==> offset
        == channel.conversion->0.cc_val[0] && factor == channel.conversion->0.cc_val[1]
    &&& scaling matches Scaling::Conversion { address } ==> address == channel.conversion_addr
}

/// The scaling of a channel is what its conversion rule asks for.
pub proof fn lemma_scaling_fits_rule(channel: ChannelBlockView)
    ensures
        fits_rule(scaling_of(channel), channel),
{
}

/// A stored value that is a number, of whatever kind.
pub open spec fn is_stored_number(value: DecodedView) -> bool {
    match value {
        DecodedView::UnsignedInteger(_) => true,
        DecodedView::SignedInteger(_) => true,
        DecodedView::Single(_) => true,
        DecodedView::Double(_) => true,
        _ => false,
    }
}

/// `series` shows the values of a channel as numbers: with the scaling that its rule asks for,
/// one sample for each value, which is the value itself where it is a number or the rule is
/// yet to be applied to it, and no number otherwise.
pub open spec fn shows(
    series: SeriesView,
    channel: ChannelBlockView,
    values: Seq<Option<DecodedView>>,
) -> bool {
    &&& fits_rule(series.scaling, channel)
    &&& series.samples.len() == values.len()
    &&& forall|i: int|
        0 <= i < values.len() ==> #[trigger] series.samples[i] == match values[i] {
            None => SampleView::NotANumber,
            Some(value) => if is_stored_number(value) || !(has_no_rule(channel) || has_linear_rule(
                channel,
            )) {
                SampleView::Stored(value)
            } else {
                SampleView::NotANumber
            },
        }
}

/// The numeric samples of a channel show its values.
pub proof fn lemma_series_shows_values(channel: ChannelBlockView, values: Seq<Option<DecodedView>>)
    ensures
        shows(series_of(scaling_of(channel), values), channel, values),
{
}

/// The channel with this index is the first called `name`, and the names before it can be
/// read.
pub open spec fn is_first_called(
    file: Seq<u8>,
    channels: Seq<ChannelBlockView>,
    name: Seq<char>,
    index: int,
) -> bool {
    &&& 0 <= index < channels.len()
    &&& string_block(file, channels[index].name_addr) == Ok::<Option<Seq<char>>, ErrorView>(
        Some(name),
    )
    &&& none_called(file, channels, name, index)
}

/// The names of the first `count` channels can be read, and none of them is `name`.
pub open spec fn none_called(
    file: Seq<u8>,
    channels: Seq<ChannelBlockView>,
    name: Seq<char>,
    count: int,
) -> bool {
    forall|i: int|
        0 <= i < count ==> (string_block(file, (#[trigger] channels[i]).name_addr) matches Ok(found)
            && found != Some(name))
}

/// The channel with this index is the first master.
pub open spec fn is_first_master(channels: Seq<ChannelBlockView>, index: int) -> bool {
    &&& 0 <= index < channels.len()
    &&& channels[index].channel_type == 2
    &&& forall|i: int| 0 <= i < index ==> (#[trigger] channels[i]).channel_type != 2
}

/// No channel is a master.
pub open spec fn has_no_master(channels: Seq<ChannelBlockView>) -> bool {
    forall|i: int| 0 <= i < channels.len() ==> (#[trigger] channels[i]).channel_type != 2
}

/// A name is found exactly at the first channel that is called so; it is not found where all
/// names can be read and none is it.
pub proof fn lemma_name_is_found(
    file: Seq<u8>,
    channels: Seq<ChannelBlockView>,
    name: Seq<char>,
    index: int,
)
    ensures
        is_first_called(file, channels, name, index) <==> searched(file, channels, name) == Ok::<
            Option<int>,
            ErrorView,
        >(Some(index)),
        none_called(file, channels, name, channels.len() as int) <==> searched(
            file,
            channels,
            name,
        ) == Ok::<Option<int>, ErrorView>(None),
        none_called(file, channels, name, index) && 0 <= index < channels.len() ==> (string_block(
            file,
            channels[index].name_addr,
        ) matches Err(error) ==> searched(file, channels, name) == Err::<Option<int>, ErrorView>(
            error,
        )),
{
    lemma_search_is_first(file, channels, name);
    assert forall|count: int| #[trigger] passed_over(file, channels, name, count) implies none_called(
        file,
        channels,
        name,
        count,
    ) by {
        assert forall|i: int| 0 <= i < count implies (string_block(
            file,
            (#[trigger] channels[i]).name_addr,
        ) matches Ok(found) && found != Some(name)) by {
            assert(is_other_name(string_block(file, channels[i].name_addr), name));
        }
    }
    match searched(file, channels, name) {
        Ok(Some(at)) => {
            assert(channels[at].name_addr == channels[at].name_addr);
        },
        Ok(None) => {},
        Err(error) => {
            let at = choose|at: int|
                0 <= at < channels.len() && string_block(file, (#[trigger] channels[at]).name_addr)
                    == Err::<Option<Seq<char>>, ErrorView>(error) && passed_over(
                    file,
                    channels,
                    name,
                    at,
                );
            assert(none_called(file, channels, name, at));
            if index < at {
                assert(0 <= index < channels.len() ==> string_block(
                    file,
                    channels[index].name_addr,
                ) is Ok);
            }
        },
    }
}

proof fn lemma_master_is_found(channels: Seq<ChannelBlockView>, index: int)
    ensures
        is_first_master(channels, index) <==> first_master(channels) == Some(index),
        has_no_master(channels) <==> first_master(channels) is None,
{
    lemma_master_is_first(channels);
    if let Some(at) = first_master(channels) {
        assert(channels[at].channel_type == 2);
        if is_first_master(channels, index) {
            assert(channels[index].channel_type == 2);
        }
    }
}

/// The time axis of a signal of the channel with this index: the numbers of the first master,
/// or nothing where the group has none or the channel is it.
pub open spec fn is_axis(timestamps: SeriesView, group: GroupView, index: int) -> bool {
    let channels = group.group.channels;
    &&& has_no_master(channels) || is_first_master(channels, index) ==> timestamps.samples.len() == 0
    &&& forall|master: int| #[trigger]
        is_first_master(channels, master) && master != index ==> (channel_cells(
            group,
            channels[master],
        ) matches Ok(values) && shows(timestamps, channels[master], values))
}

/// Reading a channel by its name gives the name, the unit that the channel links to, its
/// values as they are stored, the scaling that its rule asks for, and the numbers of the first
/// master of the group, in the scaling that the master's rule asks for, as its time axis.
pub proof fn lemma_signal_content(group: GroupView, name: Seq<char>, index: int)
    requires
        is_first_called(group.file, group.group.channels, name, index),
    ensures
        group_signal(group, name) matches Ok(found) ==> (found matches Some(signal) && {
            let channel = group.group.channels[index];
            &&& signal.name == name
            &&& string_block(group.file, channel.unit_addr) == Ok::<Option<Seq<char>>, ErrorView>(
                signal.unit,
            )
            &&& channel_cells(group, channel) == Ok::<Seq<Option<DecodedView>>, ErrorView>(
                signal.values,
            )
            &&& fits_rule(signal.scaling, channel)
            &&& is_axis(signal.timestamps, group, index)
        }),
{
    let channels = group.group.channels;
    lemma_name_is_found(group.file, channels, name, index);
    lemma_master_is_first(channels);
    lemma_scaling_fits_rule(channels[index]);
    if let Ok(Some(signal)) = group_signal(group, name) {
        lemma_axis_is_axis(group, index);
        assert(axis(group, index) == Ok::<SeriesView, ErrorView>(signal.timestamps));
    }
}

proof fn lemma_axis_is_axis(group: GroupView, index: int)
    ensures
        axis(group, index) matches Ok(timestamps) ==> is_axis(timestamps, group, index),
{
    let channels = group.group.channels;
    lemma_master_is_found(channels, index);
    if let Ok(timestamps) = axis(group, index) {
        assert forall|master: int| #[trigger] is_first_master(channels, master) && master
            != index implies (channel_cells(group, channels[master]) matches Ok(values) && shows(
            timestamps,
            channels[master],
            values,
        )) by {
            lemma_master_is_found(channels, master);
            let values = channel_cells(group, channels[master])->Ok_0;
            lemma_series_shows_values(channels[master], values);
        }
    }
}

/// A channel can be read by its name exactly when its values, its unit and the values of its
/// master can be.
pub proof fn lemma_signal_is_read(group: GroupView, name: Seq<char>, index: int)
    requires
        is_first_called(group.file, group.group.channels, name, index),
    ensures
        group_signal(group, name) is Ok <==> {
            let channels = group.group.channels;
            &&& channel_cells(group, channels[index]) is Ok
            &&& string_block(group.file, channels[index].unit_addr) is Ok
            &&& forall|master: int| #[trigger]
                is_first_master(channels, master) && master != index ==> channel_cells(
                    group,
                    channels[master],
                ) is Ok
        },
{
    let channels = group.group.channels;
    lemma_name_is_found(group.file, channels, name, index);
    match first_master(channels) {
        Some(at) => {
            lemma_master_is_found(channels, at);
            assert forall|master: int| #[trigger] is_first_master(channels, master) implies master
                == at by {
                lemma_master_is_found(channels, master);
            }
        },
        None => {
            assert forall|master: int| #[trigger] is_first_master(channels, master) implies false by {
                lemma_master_is_found(channels, master);
            }
        },
    }
}

/// A channel that cannot be read by its name gives the error of its values, or else of its
/// master, or else of its unit.
pub proof fn lemma_signal_errors(group: GroupView, name: Seq<char>, index: int, master: int)
    requires
        is_first_called(group.file, group.group.channels, name, index),
    ensures
        channel_cells(group, group.group.channels[index]) matches Err(error) ==> group_signal(
            group,
            name,
        ) == Err::<Option<SignalView>, ErrorView>(error),
        channel_cells(group, group.group.channels[index]) is Ok && is_first_master(
            group.group.channels,
            master,
        ) && master != index ==> (channel_cells(group, group.group.channels[master]) matches Err(
            error,
        ) ==> group_signal(group, name) == Err::<Option<SignalView>, ErrorView>(error)),
        channel_cells(group, group.group.channels[index]) is Ok && (has_no_master(
            group.group.channels,
        ) || is_first_master(group.group.channels, master) && (master == index || channel_cells(
            group,
            group.group.channels[master],
        ) is Ok)) ==> (string_block(
            group.file,
            group.group.channels[index].unit_addr,
        ) matches Err(error) ==> group_signal(group, name) == Err::<Option<SignalView>, ErrorView>(
            error,
        )),
{
    lemma_name_is_found(group.file, group.group.channels, name, index);
    lemma_master_is_found(group.group.channels, master);
}

/// There is no signal where all names of the group can be read and none is the name; a name
/// that cannot be read and comes first is an error.
pub proof fn lemma_no_signal(group: GroupView, name: Seq<char>, index: int)
    ensures
        none_called(group.file, group.group.channels, name, group.group.channels.len() as int)
            ==> group_signal(group, name) == Ok::<Option<SignalView>, ErrorView>(None),
        none_called(group.file, group.group.channels, name, index) && 0 <= index
            < group.group.channels.len() ==> (string_block(
            group.file,
            group.group.channels[index].name_addr,
        ) matches Err(error) ==> group_signal(group, name) == Err::<Option<SignalView>, ErrorView>(
            error,
        )),
{
    lemma_name_is_found(group.file, group.group.channels, name, index);
}

/// Reading a channel among others gives its name, its unit, its values as numbers, and the
/// numbers of the first master of the group as its time axis.
pub proof fn lemma_bulk_content(group: GroupView, names: Seq<Seq<char>>, k: int, index: int)
    requires
        group_signals(group, names) is Ok,
        0 <= k < names.len(),
    ensures
        group_signals(group, names)->Ok_0.len() == names.len(),
        is_first_called(group.file, group.group.channels, names[k], index) ==> (group_signals(
            group,
            names,
        )->Ok_0[k] matches Some(signal) && {
            let channel = group.group.channels[index];
            &&& signal.name == names[k]
            &&& string_block(group.file, channel.unit_addr) == Ok::<Option<Seq<char>>, ErrorView>(
                signal.unit,
            )
            &&& channel_cells(group, channel) matches Ok(values) && shows(
                signal.values,
                channel,
                values,
            )
            &&& is_axis(signal.timestamps, group, index)
        }),
        none_called(group.file, group.group.channels, names[k], group.group.channels.len() as int)
            ==> group_signals(group, names)->Ok_0[k] is None,
{
    lemma_bulk_agrees(group, names);
    let out = group_signals(group, names)->Ok_0;
    assert(agrees(group_signal(group, names[k]), out[k]));
    lemma_name_is_found(group.file, group.group.channels, names[k], index);
    if is_first_called(group.file, group.group.channels, names[k], index) {
        lemma_signal_content(group, names[k], index);
        let signal = group_signal(group, names[k])->Ok_0->0;
        lemma_series_shows_values(group.group.channels[index], signal.values);
        assert(signal.scaling == scaling_of(group.group.channels[index]));
    }
}

/// Reading several channels fails only with an error of what it reads: the search for a name,
/// the data blocks of the group, or the values or the unit of a channel.
pub proof fn lemma_bulk_errors(group: GroupView, names: Seq<Seq<char>>)
    requires
        group_signals(group, names) is Err,
    ensures
        ({
            let error = group_signals(group, names)->Err_0;
            let channels = group.group.channels;
            ||| exists|k: int|
                0 <= k < names.len() && searched(group.file, channels, #[trigger] names[k])
                    == Err::<Option<int>, ErrorView>(error)
            ||| group_data_blocks(group.data_group, group.file) == Err::<
                Seq<DataBlockView>,
                ErrorView,
            >(error)
            ||| exists|k: int, index: int|
                0 <= k < names.len() && #[trigger] is_first_called(
                    group.file,
                    channels,
                    names[k],
                    index,
                ) && (channel_cells(group, channels[index]) == Err::<
                    Seq<Option<DecodedView>>,
                    ErrorView,
                >(error) || string_block(group.file, channels[index].unit_addr) == Err::<
                    Option<Seq<char>>,
                    ErrorView,
                >(error))
        }),
{
    let channels = group.group.channels;
    let error = group_signals(group, names)->Err_0;
    lemma_resolved(group.file, channels, names);
    if let Ok(targets) = resolved(group.file, channels, names) {
        if let Ok(blocks) = pass_blocks(group, targets) {
            let k = lemma_first_failure(group, blocks, names, targets, names.len() as int);
            let index = targets[k]->0;
            assert(searched(group.file, channels, names[k]) == Ok::<Option<int>, ErrorView>(
                targets[k],
            ));
            lemma_name_is_found(group.file, channels, names[k], index);
            assert(is_first_called(group.file, channels, names[k], index));
        }
    }
}

proof fn lemma_first_failure(
    group: GroupView,
    blocks: Seq<DataBlockView>,
    names: Seq<Seq<char>>,
    targets: Seq<Option<int>>,
    count: int,
) -> (k: int)
    requires
        target_signals(group, blocks, names, targets, count) is Err,
    ensures
        0 <= k < count,
        target_signal(group, blocks, names[k], targets[k]) == Err::<
            Option<SignalF64View>,
            ErrorView,
        >(target_signals(group, blocks, names, targets, count)->Err_0),
    decreases count,
{
    if target_signals(group, blocks, names, targets, count - 1) is Err {
        lemma_first_failure(group, blocks, names, targets, count - 1)
    } else {
        count - 1
    }
}

/// A name that cannot be searched for makes reading several channels fail with the error of
/// its search.
pub proof fn lemma_bulk_name_error(group: GroupView, names: Seq<Seq<char>>, k: int, index: int)
    requires
        0 <= k < names.len(),
        0 <= index < group.group.channels.len(),
        none_called(group.file, group.group.channels, names[k], index),
    ensures
        string_block(group.file, group.group.channels[index].name_addr) matches Err(error)
            ==> group_signals(group, names) == Err::<Seq<Option<SignalF64View>>, ErrorView>(error),
{
    lemma_name_is_found(group.file, group.group.channels, names[k], index);
    if string_block(group.file, group.group.channels[index].name_addr) is Err {
        lemma_resolved_error(group.file, group.group.channels, names, k);
    }
}

/// The time axis of a signal is what reading the master by its own name gives: as many
/// samples, in the same scaling, each the value of the master or no number.
pub proof fn lemma_axis_is_the_master(
    group: GroupView,
    name: Seq<char>,
    index: int,
    master_name: Seq<char>,
    master: int,
)
    requires
        is_first_called(group.file, group.group.channels, name, index),
        is_first_called(group.file, group.group.channels, master_name, master),
        is_first_master(group.group.channels, master),
        master != index,
        group_signal(group, name) is Ok,
        group_signal(group, master_name) is Ok,
    ensures
        ({
            let signal = group_signal(group, name)->Ok_0->0;
            let read = group_signal(group, master_name)->Ok_0->0;
            &&& signal.timestamps.scaling == read.scaling
            &&& shows(signal.timestamps, group.group.channels[master], read.values)
            &&& read.timestamps.samples.len() == 0
        }),
{
    lemma_signal_content(group, name, index);
    lemma_signal_content(group, master_name, master);
    lemma_name_is_found(group.file, group.group.channels, name, index);
    lemma_name_is_found(group.file, group.group.channels, master_name, master);
    lemma_master_is_found(group.group.channels, master);
}

} // verus!
