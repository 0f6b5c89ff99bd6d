//! Files: groups in their order, and what is found first.
use vstd::prelude::*;

use crate::api::agreement::lemma_file_bulk_agrees;
use crate::api::bulk::group_signals;
use crate::api::channel::ChannelView;
use crate::api::channel_group::{first_match, group_signal, lemma_match_is_first, readable_names};
use crate::api::mdf::{absent, lemma_absent, signals_among};
use crate::api::mdf::{all_groups, channel_among, channel_in, group_names, groups_of, signal_among};
use crate::blocks::common::string_block;
use crate::error::ErrorView;
use crate::parsing::mdf_file::FileView;
use crate::parsing::raw_data_group::DataGroupView;
use crate::parsing::records::GroupView;
use crate::signal::{SignalF64View, SignalView};
use crate::text::{decimal, digit_char, digits, hexadecimal};

verus! {

/// The channel groups of data groups are those of the first ones and, behind them, those of
/// the others.
pub proof fn lemma_groups_in_order(
    data_groups: Seq<DataGroupView>,
    more: Seq<DataGroupView>,
    bytes: Seq<u8>,
)
    ensures
        groups_of(data_groups + more, bytes) == groups_of(data_groups, bytes) + groups_of(
            more,
            bytes,
        ),
    decreases more.len(),
{
    if more.len() == 0 {
        assert(data_groups + more =~= data_groups);
        assert(groups_of(data_groups, bytes) + Seq::<GroupView>::empty() =~= groups_of(
            data_groups,
            bytes,
        ));
    } else {
        lemma_groups_in_order(data_groups, more.drop_last(), bytes);
        assert((data_groups + more).drop_last() =~= data_groups + more.drop_last());
        assert((data_groups + more).last() == more.last());
        let first = groups_of(data_groups, bytes);
        let second = groups_of(more.drop_last(), bytes);
        let last = crate::api::mdf::groups_in(more.last(), bytes);
        assert((first + second) + last =~= first + (second + last));
    }
}

/// A data group gives one group for each of its channel groups, in order, each with the bytes
/// of the file.
pub proof fn lemma_groups_of_one(data_group: DataGroupView, bytes: Seq<u8>, i: int)
    ensures
        groups_of(seq![data_group], bytes).len() == data_group.channel_groups.len(),
        0 <= i < data_group.channel_groups.len() ==> groups_of(seq![data_group], bytes)[i] == (
        GroupView { data_group, group: data_group.channel_groups[i], file: bytes }),
{
    assert(seq![data_group].drop_last() =~= Seq::empty());
    assert(seq![data_group].last() == data_group);
    assert(groups_of(Seq::empty(), bytes) =~= Seq::empty());
    assert(groups_of(seq![data_group], bytes) =~= crate::api::mdf::groups_in(data_group, bytes));
}

/// The groups of a file are those of its data groups, with its bytes.
pub proof fn lemma_groups_of_file(file: FileView)
    ensures
        all_groups(file) == groups_of(file.data_groups, file.bytes),
{
}

/// The group with this index is the first whose name can be read and is `name`.
pub open spec fn is_first_group_called(groups: Seq<GroupView>, name: Seq<char>, index: int) -> bool {
    &&& 0 <= index < groups.len()
    &&& string_block(groups[index].file, groups[index].group.block.acq_name_addr) == Ok::<
        Option<Seq<char>>,
        ErrorView,
    >(Some(name))
    &&& forall|i: int|
        0 <= i < index ==> string_block(
            (#[trigger] groups[i]).file,
            groups[i].group.block.acq_name_addr,
        ) != Ok::<Option<Seq<char>>, ErrorView>(Some(name))
}

/// A group is looked up by its acquisition name, and the first that can be read and matches is
/// found.
pub proof fn lemma_group_lookup(groups: Seq<GroupView>, name: Seq<char>, index: int)
    ensures
        first_match(group_names(groups), name) == Some(index) <==> is_first_group_called(
            groups,
            name,
            index,
        ),
{
    let names = group_names(groups);
    lemma_match_is_first(names, name);
    assert forall|i: int| 0 <= i < groups.len() implies (#[trigger] names[i] == Some(name)
        <==> string_block(groups[i].file, groups[i].group.block.acq_name_addr) == Ok::<
        Option<Seq<char>>,
        ErrorView,
    >(Some(name))) by {}
    if is_first_group_called(groups, name, index) {
        assert(names[index] == Some(name));
        if let Some(at) = first_match(names, name) {
            if at < index {
                assert(names[at] == Some(name));
                assert(groups[at].file == groups[at].file);
            }
        }
    }
    if first_match(names, name) == Some(index) {
        assert forall|i: int| 0 <= i < index implies string_block(
            (#[trigger] groups[i]).file,
            groups[i].group.block.acq_name_addr,
        ) != Ok::<Option<Seq<char>>, ErrorView>(Some(name)) by {
            assert(names[i] != Some(name));
        }
    }
}

/// The channel with this index is the first whose name can be read and is `name`.
pub open spec fn is_first_readable(group: GroupView, name: Seq<char>, index: int) -> bool {
    let channels = group.group.channels;
    &&& 0 <= index < channels.len()
    &&& string_block(group.file, channels[index].name_addr) == Ok::<Option<Seq<char>>, ErrorView>(
        Some(name),
    )
    &&& forall|i: int|
        0 <= i < index ==> string_block(group.file, (#[trigger] channels[i]).name_addr) != Ok::<
            Option<Seq<char>>,
            ErrorView,
        >(Some(name))
}

/// A channel is looked up in its group by its name: the first that can be read and matches is
/// found, and none where no name matches.
pub proof fn lemma_channel_lookup(group: GroupView, name: Seq<char>, index: int)
    ensures
        is_first_readable(group, name, index) ==> channel_in(group, name) == Some(
            ChannelView { group, channel: group.group.channels[index] },
        ),
        (forall|i: int|
            0 <= i < group.group.channels.len() ==> string_block(
                group.file,
                (#[trigger] group.group.channels[i]).name_addr,
            ) != Ok::<Option<Seq<char>>, ErrorView>(Some(name))) <==> channel_in(group, name) is None,
{
    let channels = group.group.channels;
    let names = readable_names(group.file, channels);
    lemma_match_is_first(names, name);
    assert forall|i: int| 0 <= i < channels.len() implies (#[trigger] names[i] == Some(name)
        <==> string_block(group.file, channels[i].name_addr) == Ok::<
        Option<Seq<char>>,
        ErrorView,
    >(Some(name))) by {}
    if is_first_readable(group, name, index) {
        assert(names[index] == Some(name));
        if let Some(at) = first_match(names, name) {
            if at < index {
                assert(names[at] == Some(name));
                assert(channels[at].name_addr == channels[at].name_addr);
            }
        }
    }
    match first_match(names, name) {
        Some(at) => {
            assert(names[at] == Some(name));
            assert(channels[at].name_addr == channels[at].name_addr);
        },
        None => {
            assert forall|i: int| 0 <= i < channels.len() implies string_block(
                group.file,
                (#[trigger] channels[i]).name_addr,
            ) != Ok::<Option<Seq<char>>, ErrorView>(Some(name)) by {
                assert(names[i] != Some(name));
            }
        },
    }
}

/// A channel is looked up in a file group by group: that of the first group that has one.
pub proof fn lemma_channel_lookup_in_file(groups: Seq<GroupView>, name: Seq<char>, g: int)
    ensures
        (forall|h: int| 0 <= h < groups.len() ==> channel_in(#[trigger] groups[h], name) is None)
            ==> channel_among(groups, name) is None,
        0 <= g < groups.len() && channel_in(groups[g], name) is Some && (forall|h: int|
            0 <= h < g ==> channel_in(#[trigger] groups[h], name) is None) ==> channel_among(
            groups,
            name,
        ) == channel_in(groups[g], name),
    decreases groups.len(),
{
    if groups.len() > 0 {
        let earlier = groups.drop_last();
        lemma_channel_lookup_in_file(earlier, name, g);
        assert forall|h: int| 0 <= h < earlier.len() implies #[trigger] earlier[h] == groups[h] by {}
        assert(groups.last() == groups[groups.len() - 1]);
    }
}

/// A channel is read from a file group by group: from the first group that has it, provided
/// that the groups before it have none and can be searched.
pub proof fn lemma_signal_in_file(groups: Seq<GroupView>, name: Seq<char>, g: int)
    ensures
        (forall|h: int|
            0 <= h < groups.len() ==> group_signal(#[trigger] groups[h], name) == Ok::<
                Option<SignalView>,
                ErrorView,
            >(None)) ==> signal_among(groups, name) == Ok::<Option<SignalView>, ErrorView>(None),
        0 <= g < groups.len() && group_signal(groups[g], name) != Ok::<
            Option<SignalView>,
            ErrorView,
        >(None) && (forall|h: int|
            0 <= h < g ==> group_signal(#[trigger] groups[h], name) == Ok::<
                Option<SignalView>,
                ErrorView,
            >(None)) ==> signal_among(groups, name) == group_signal(groups[g], name),
    decreases groups.len(),
{
    if groups.len() > 0 {
        let earlier = groups.drop_last();
        lemma_signal_in_file(earlier, name, g);
        assert forall|h: int| 0 <= h < earlier.len() implies #[trigger] earlier[h] == groups[h] by {}
        assert(groups.last() == groups[groups.len() - 1]);
    }
}

/// Reading several channels of a file fails only with the error of one of its groups, for names
/// that were asked for.
pub proof fn lemma_file_bulk_errors(groups: Seq<GroupView>, names: Seq<Seq<char>>)
    requires
        signals_among(groups, names) is Err,
    ensures
        exists|g: int, want: Seq<Seq<char>>|
            0 <= g < groups.len() && #[trigger] group_signals(groups[g], want) == Err::<
                Seq<Option<SignalF64View>>,
                ErrorView,
            >(signals_among(groups, names)->Err_0) && (forall|j: int|
                0 <= j < want.len() ==> names.contains(#[trigger] want[j])),
    decreases groups.len(),
{
    let earlier = groups.drop_last();
    if signals_among(earlier, names) is Err {
        lemma_file_bulk_errors(earlier, names);
        let (g, want) = choose|g: int, want: Seq<Seq<char>>|
            0 <= g < earlier.len() && #[trigger] group_signals(earlier[g], want) == Err::<
                Seq<Option<SignalF64View>>,
                ErrorView,
            >(signals_among(earlier, names)->Err_0) && (forall|j: int|
                0 <= j < want.len() ==> names.contains(#[trigger] want[j]));
        assert(earlier[g] == groups[g]);
    } else {
        lemma_file_bulk_agrees(earlier, names);
        let out = signals_among(earlier, names)->Ok_0;
        let left = absent(out);
        lemma_absent(out);
        let want = Seq::new(left.len(), |j: int| names[left[j]]);
        assert forall|j: int| 0 <= j < want.len() implies names.contains(#[trigger] want[j]) by {
            assert(names[left[j]] == want[j]);
        }
        assert(groups.last() == groups[groups.len() - 1]);
        assert(group_signals(groups[groups.len() - 1], want) is Err);
    }
}

/// The number that a digit stands for.
pub open spec fn digit_value(digit: char) -> int {
    if '0' <= digit && digit <= '9' {
        digit as int - '0' as int
    } else {
        digit as int - 'a' as int + 10
    }
}

/// The number that digits stand for in a base.
pub open spec fn number_of(text: Seq<char>, base: nat) -> int
    decreases text.len(),
{
    if text.len() == 0 {
        0
    } else {
        base * number_of(text.drop_last(), base) + digit_value(text.last())
    }
}

/// A number that was written out is read back from its digits, of which the first is not zero
/// unless it is the only one.
pub proof fn lemma_digits_are_read_back(value: nat, base: nat)
    requires
        2 <= base <= 16,
    ensures
        number_of(digits(value, base), base) == value,
        digits(value, base).len() > 0,
        digits(value, base)[0] == '0' ==> value == 0,
    decreases value,
{
    let text = digits(value, base);
    if value < base {
        assert(text.drop_last() =~= Seq::empty());
        assert(number_of(Seq::empty(), base) == 0);
        assert(base * 0 == 0) by (nonlinear_arith);
        assert(digit_value(digit_char(value)) == value);
        assert(text.last() == digit_char(value));
    } else {
        assert(0 < value / base < value && base * (value / base) + value % base == value && value
            % base < base) by (nonlinear_arith)
            requires
                2 <= base <= value,
        ;
        lemma_digits_are_read_back(value / base, base);
        assert(text.drop_last() =~= digits(value / base, base));
        assert(digit_value(digit_char(value % base)) == value % base);
        assert(text.last() == digit_char(value % base));
        assert(number_of(text, base) == base * number_of(text.drop_last(), base) + digit_value(
            text.last(),
        ));
    }
}

/// Lengths are written in base ten, and addresses in base sixteen behind `0x`.
pub proof fn lemma_notations(value: nat)
    ensures
        number_of(decimal(value), 10) == value,
        hexadecimal(value).subrange(0, 2) == "0x"@,
        number_of(hexadecimal(value).subrange(2, hexadecimal(value).len() as int), 16) == value,
{
    reveal_strlit("0x");
    lemma_digits_are_read_back(value, 10);
    lemma_digits_are_read_back(value, 16);
    assert(hexadecimal(value).subrange(0, 2) =~= "0x"@);
    assert(hexadecimal(value).subrange(2, hexadecimal(value).len() as int) =~= digits(value, 16));
}

} // verus!
