//! A file and what can be looked up in it.
use vstd::prelude::*;

use crate::api::agreement::lemma_bulk_agrees;
use crate::api::bulk::{group_signals, no_signals};
use crate::api::channel::{Channel, ChannelView};
use crate::api::channel_group::{first_match, group_signal, lemma_match_settled};
use crate::api::channel_group::{readable_name, readable_names, ChannelGroup};
use crate::block_layout::{layout, FileLayout};
use crate::error::{outcome, ErrorView, MdfError};
use crate::parsing::mdf_file::{parse_file, FileView, MdfFile};
use crate::parsing::raw_data_group::DataGroupView;
use crate::parsing::records::GroupView;
use crate::signal::{Signal, SignalF64, SignalF64View, SignalView};
use crate::text::same_text;

verus! {

/// High level representation of an MDF file.
///
/// It keeps the bytes of the file and hands out [`ChannelGroup`] handles for inspection.
#[derive(Debug)]
pub struct MDF {
    raw: MdfFile,
}

impl DeepView for MDF {
    type V = FileView;

    closed spec fn deep_view(&self) -> FileView {
        self.raw.deep_view()
    }
}

/// The channel groups of one data group.
pub open spec fn groups_in(data_group: DataGroupView, bytes: Seq<u8>) -> Seq<GroupView> {
    Seq::new(
        data_group.channel_groups.len(),
        |i: int| GroupView { data_group, group: data_group.channel_groups[i], file: bytes },
    )
}

/// The channel groups of data groups, in their order.
pub open spec fn groups_of(data_groups: Seq<DataGroupView>, bytes: Seq<u8>) -> Seq<GroupView>
    decreases data_groups.len(),
{
    if data_groups.len() == 0 {
        Seq::empty()
    } else {
        groups_of(data_groups.drop_last(), bytes) + groups_in(data_groups.last(), bytes)
    }
}

/// All channel groups of a file, in the order of the file.
pub open spec fn all_groups(file: FileView) -> Seq<GroupView> {
    groups_of(file.data_groups, file.bytes)
}

/// The names of channel groups, where they can be read.
pub open spec fn group_names(groups: Seq<GroupView>) -> Seq<Option<Seq<char>>> {
    Seq::new(
        groups.len(),
        |i: int| readable_name(groups[i].file, groups[i].group.block.acq_name_addr),
    )
}

/// The first channel called `name` of a group, where names that cannot be read match
/// nothing.
pub open spec fn channel_in(group: GroupView, name: Seq<char>) -> Option<ChannelView> {
    match first_match(readable_names(group.file, group.group.channels), name) {
        Some(index) => Some(ChannelView { group, channel: group.group.channels[index] }),
        None => None,
    }
}

/// The first channel called `name` across groups.
pub open spec fn channel_among(groups: Seq<GroupView>, name: Seq<char>) -> Option<ChannelView>
    decreases groups.len(),
{
    if groups.len() == 0 {
        None
    } else {
        match channel_among(groups.drop_last(), name) {
            Some(channel) => Some(channel),
            None => channel_in(groups.last(), name),
        }
    }
}

/// The signal of the first channel called `name` across groups. An error that is met before
/// it is found ends the search.
pub open spec fn signal_among(groups: Seq<GroupView>, name: Seq<char>) -> Result<
    Option<SignalView>,
    ErrorView,
>
    decreases groups.len(),
{
    if groups.len() == 0 {
        Ok(None)
    } else {
        match signal_among(groups.drop_last(), name) {
            Err(error) => Err(error),
            Ok(Some(signal)) => Ok(Some(signal)),
            Ok(None) => group_signal(groups.last(), name),
        }
    }
}

/// The indices at which there is no signal, in ascending order.
pub open spec fn absent(out: Seq<Option<SignalF64View>>) -> Seq<int>
    decreases out.len(),
{
    if out.len() == 0 {
        Seq::empty()
    } else if out.last() is None {
        absent(out.drop_last()).push(out.len() - 1)
    } else {
        absent(out.drop_last())
    }
}

/// `out` with the first `count` of `got` put at the indices `at`.
pub open spec fn placed(
    out: Seq<Option<SignalF64View>>,
    at: Seq<int>,
    got: Seq<Option<SignalF64View>>,
    count: int,
) -> Seq<Option<SignalF64View>>
    decreases count,
{
    if count <= 0 {
        out
    } else {
        placed(out, at, got, count - 1).update(at[count - 1], got[count - 1])
    }
}

/// Reading several channels across groups: each group is asked, at once, for the names that
/// no group before has.
pub open spec fn signals_among(groups: Seq<GroupView>, names: Seq<Seq<char>>) -> Result<
    Seq<Option<SignalF64View>>,
    ErrorView,
>
    decreases groups.len(),
{
    if groups.len() == 0 {
        Ok(Seq::new(names.len(), |k: int| None))
    } else {
        match signals_among(groups.drop_last(), names) {
            Err(error) => Err(error),
            Ok(out) => {
                let left = absent(out);
                if left.len() == 0 {
                    Ok(out)
                } else {
                    match group_signals(
                        groups.last(),
                        Seq::new(left.len(), |j: int| names[left[j]]),
                    ) {
                        Err(error) => Err(error),
                        Ok(got) => Ok(placed(out, left, got, left.len() as int)),
                    }
                }
            },
        }
    }
}

/// What a lookup has settled among the first groups, it has settled among all.
proof fn lemma_signal_settled(groups: Seq<GroupView>, name: Seq<char>, count: int)
    requires
        0 <= count <= groups.len(),
        signal_among(groups.subrange(0, count), name) != Ok::<Option<SignalView>, ErrorView>(None),
    ensures
        signal_among(groups, name) == signal_among(groups.subrange(0, count), name),
    decreases groups.len() - count,
{
    if count == groups.len() {
        assert(groups.subrange(0, count) =~= groups);
    } else {
        assert(groups.subrange(0, count + 1).drop_last() =~= groups.subrange(0, count));
        lemma_signal_settled(groups, name, count + 1);
    }
}

/// A channel among the first groups is the channel among all.
proof fn lemma_channel_settled(groups: Seq<GroupView>, name: Seq<char>, count: int)
    requires
        0 <= count <= groups.len(),
        channel_among(groups.subrange(0, count), name) is Some,
    ensures
        channel_among(groups, name) == channel_among(groups.subrange(0, count), name),
    decreases groups.len() - count,
{
    if count == groups.len() {
        assert(groups.subrange(0, count) =~= groups);
    } else {
        assert(groups.subrange(0, count + 1).drop_last() =~= groups.subrange(0, count));
        lemma_channel_settled(groups, name, count + 1);
    }
}

/// There is no signal at the absent indices, which ascend, and one at all others.
pub proof fn lemma_absent(out: Seq<Option<SignalF64View>>)
    ensures
        forall|j: int|
            0 <= j < absent(out).len() ==> 0 <= #[trigger] absent(out)[j] < out.len()
                && out[absent(out)[j]] is None,
        forall|i: int, j: int| 0 <= i < j < absent(out).len() ==> absent(out)[i] < absent(out)[j],
        forall|k: int|
            0 <= k < out.len() && #[trigger] out[k] is None ==> absent(out).contains(k),
    decreases out.len(),
{
    if out.len() > 0 {
        let shorter = out.drop_last();
        lemma_absent(shorter);
        assert forall|k: int| 0 <= k < out.len() && #[trigger] out[k] is None implies absent(
            out,
        ).contains(k) by {
            if k < out.len() - 1 {
                assert(shorter[k] is None);
                let j = choose|j: int| 0 <= j < absent(shorter).len() && absent(shorter)[j] == k;
                assert(absent(out)[j] == k);
            } else {
                assert(absent(out).last() == k);
            }
        }
    }
}

/// What is placed at ascending indices is found there, and nothing else changes.
pub proof fn lemma_placed(
    out: Seq<Option<SignalF64View>>,
    at: Seq<int>,
    got: Seq<Option<SignalF64View>>,
    count: int,
)
    requires
        0 <= count <= at.len(),
        forall|j: int| 0 <= j < at.len() ==> 0 <= #[trigger] at[j] < out.len(),
        forall|i: int, j: int| 0 <= i < j < at.len() ==> at[i] < at[j],
    ensures
        placed(out, at, got, count).len() == out.len(),
        forall|j: int|
            0 <= j < count ==> placed(out, at, got, count)[#[trigger] at[j]] == got[j],
        forall|k: int|
            0 <= k < out.len() && (forall|j: int| 0 <= j < count ==> at[j] != k)
                ==> #[trigger] placed(out, at, got, count)[k] == out[k],
    decreases count,
{
    if count > 0 {
        lemma_placed(out, at, got, count - 1);
    }
}

/// Where every name has its signal among the first groups, the groups behind them are not
/// asked: they cannot change the result or add an error.
pub proof fn lemma_complete_settled(groups: Seq<GroupView>, names: Seq<Seq<char>>, count: int)
    requires
        0 <= count <= groups.len(),
        signals_among(groups.subrange(0, count), names) matches Ok(out) && absent(out).len() == 0,
    ensures
        signals_among(groups, names) == signals_among(groups.subrange(0, count), names),
    decreases groups.len() - count,
{
    if count == groups.len() {
        assert(groups.subrange(0, count) =~= groups);
    } else {
        assert(groups.subrange(0, count + 1).drop_last() =~= groups.subrange(0, count));
        lemma_complete_settled(groups, names, count + 1);
    }
}

/// An error among the first groups is the error of all.
proof fn lemma_error_settled(groups: Seq<GroupView>, names: Seq<Seq<char>>, count: int)
    requires
        0 <= count <= groups.len(),
        signals_among(groups.subrange(0, count), names) is Err,
    ensures
        signals_among(groups, names) == signals_among(groups.subrange(0, count), names),
    decreases groups.len() - count,
{
    if count == groups.len() {
        assert(groups.subrange(0, count) =~= groups);
    } else {
        assert(groups.subrange(0, count + 1).drop_last() =~= groups.subrange(0, count));
        lemma_error_settled(groups, names, count + 1);
    }
}

/// Indices as mathematical integers.
spec fn as_ints(indices: Seq<usize>) -> Seq<int> {
    Seq::new(indices.len(), |j: int| indices[j] as int)
}

/// The indices at which there is no signal.
fn absent_indices(out: &Vec<Option<SignalF64>>) -> (indices: Vec<usize>)
    ensures
        as_ints(indices@) == absent(out.deep_view()),
{
    let ghost view = out.deep_view();
    let mut indices: Vec<usize> = Vec::new();
    let mut k: usize = 0;
    assert(as_ints(indices@) =~= absent(view.subrange(0, 0)));
    while k < out.len()
        invariant
            k <= out.len(),
            view == out.deep_view(),
            as_ints(indices@) == absent(view.subrange(0, k as int)),
        decreases out.len() - k,
    {
        let ghost before = indices@;
        proof {
            assert(view.subrange(0, k + 1).drop_last() =~= view.subrange(0, k as int));
        }
        if out[k].is_none() {
            indices.push(k);
            assert(as_ints(indices@) =~= as_ints(before).push(k as int));
        }
        k = k + 1;
    }
    assert(view.subrange(0, k as int) =~= view);
    indices
}

/// The names at the given indices.
fn names_at<'n>(names: &[&'n str], indices: &Vec<usize>) -> (picked: Vec<&'n str>)
    requires
        forall|j: int| 0 <= j < indices@.len() ==> #[trigger] indices@[j] < names@.len(),
    ensures
        picked.deep_view() == Seq::new(
            indices@.len(),
            |j: int| names.deep_view()[as_ints(indices@)[j]],
        ),
{
    let mut picked: Vec<&'n str> = Vec::new();
    let mut j: usize = 0;
    while j < indices.len()
        invariant
            j <= indices.len(),
            forall|i: int| 0 <= i < indices@.len() ==> #[trigger] indices@[i] < names@.len(),
            picked@.len() == j,
            forall|i: int| 0 <= i < j ==> #[trigger] picked@[i] == names@[indices@[i] as int],
        decreases indices.len() - j,
    {
        picked.push(names[indices[j]]);
        j = j + 1;
    }
    assert(picked.deep_view() =~= Seq::new(
        indices@.len(),
        |j: int| names.deep_view()[as_ints(indices@)[j]],
    ));
    picked
}

/// Put the signals `got` at the given indices of `out`.
fn place(out: &mut Vec<Option<SignalF64>>, at: &Vec<usize>, mut got: Vec<Option<SignalF64>>)
    requires
        got@.len() == at@.len(),
        forall|j: int| 0 <= j < at@.len() ==> #[trigger] at@[j] < old(out)@.len(),
    ensures
        final(out).deep_view() == placed(
            old(out).deep_view(),
            as_ints(at@),
            got.deep_view(),
            at@.len() as int,
        ),
{
    let ghost before = out.deep_view();
    let ghost all = got.deep_view();
    let mut j: usize = 0;
    while j < at.len()
        invariant
            j <= at.len(),
            got@.len() == at@.len() == all.len(),
            out@.len() == before.len(),
            forall|i: int| 0 <= i < at@.len() ==> #[trigger] at@[i] < out@.len(),
            forall|i: int| j <= i < all.len() ==> (#[trigger] got@[i]).deep_view() == all[i],
            out.deep_view() == placed(before, as_ints(at@), all, j as int),
        decreases at.len() - j,
    {
        let ghost known = out.deep_view();
        let signal = got[j].take();
        let ghost view = signal.deep_view();
        let k = at[j];
        out[k] = signal;
        proof {
            assert(view == all[j as int]);
            assert(out.deep_view() =~= known.update(k as int, view));
        }
        j = j + 1;
    }
}

impl MDF {
    /// Parse an MDF4 file from an owned byte buffer.
    pub fn from_bytes(data: Vec<u8>) -> (file: Result<Self, MdfError>)
        ensures
            outcome(file) == parse_file(data@),
    {
        let raw = MdfFile::parse_from_bytes(data)?;
        Ok(MDF { raw })
    }

    /// Retrieve the channel groups of the file. No samples are decoded.
    pub fn channel_groups<'a>(&'a self) -> (groups: Vec<ChannelGroup<'a>>)
        ensures
            groups.deep_view() == all_groups(self.deep_view()),
    {
        let ghost all = self.deep_view().data_groups;
        let ghost bytes = self.deep_view().bytes;
        let mut groups: Vec<ChannelGroup<'a>> = Vec::new();
        let mut d: usize = 0;
        assert(groups.deep_view() =~= Seq::empty());
        assert(all.subrange(0, 0) =~= Seq::empty());
        while d < self.raw.data_groups.len()
            invariant
                d <= self.raw.data_groups.len(),
                all == self.raw.data_groups.deep_view(),
                bytes == self.raw.mmap@,
                groups.deep_view() == groups_of(all.subrange(0, d as int), bytes),
            decreases self.raw.data_groups.len() - d,
        {
            let raw_data_group = &self.raw.data_groups[d];
            let ghost before = groups.deep_view();
            let ghost inner = groups_in(raw_data_group.deep_view(), bytes);
            let mut c: usize = 0;
            assert(before + inner.subrange(0, 0) =~= before);
            while c < raw_data_group.channel_groups.len()
                invariant
                    c <= raw_data_group.channel_groups.len(),
                    bytes == self.raw.mmap@,
                    inner == groups_in(raw_data_group.deep_view(), bytes),
                    groups.deep_view() == before + inner.subrange(0, c as int),
                decreases raw_data_group.channel_groups.len() - c,
            {
                let ghost known = groups.deep_view();
                let group = ChannelGroup::new(
                    raw_data_group,
                    &raw_data_group.channel_groups[c],
                    self.raw.mmap.as_slice(),
                );
                let ghost view = group.deep_view();
                groups.push(group);
                proof {
                    assert(groups.deep_view() =~= known.push(view));
                    assert(view == inner[c as int]);
                    assert(groups.deep_view() =~= before + inner.subrange(0, c + 1));
                }
                c = c + 1;
            }
            proof {
                assert(inner.subrange(0, c as int) =~= inner);
                let longer = all.subrange(0, d + 1);
                assert(longer.drop_last() =~= all.subrange(0, d as int));
                assert(longer.last() == raw_data_group.deep_view());
            }
            d = d + 1;
        }
        assert(all.subrange(0, d as int) =~= all);
        groups
    }

    /// Find a channel group by name (first match). Groups whose name cannot be read are
    /// passed over.
    pub fn group<'a>(&'a self, name: &str) -> (group: Option<ChannelGroup<'a>>)
        ensures
            match group {
                Some(found) => {
                    let groups = all_groups(self.deep_view());
                    &&& first_match(group_names(groups), name@) is Some
                    &&& found.deep_view() == groups[first_match(group_names(groups), name@)->0]
                },
                None => first_match(group_names(all_groups(self.deep_view())), name@) is None,
            },
    {
        let mut groups = self.channel_groups();
        let ghost all = all_groups(self.deep_view());
        let ghost names = group_names(all);
        let mut i: usize = 0;
        assert(names.subrange(0, 0) =~= Seq::empty());
        while i < groups.len()
            invariant
                i <= groups.len(),
                groups.deep_view() == all,
                all == all_groups(self.deep_view()),
                names == group_names(all),
                first_match(names.subrange(0, i as int), name@) is None,
            decreases groups.len() - i,
        {
            assert(groups.deep_view()[i as int] == all[i as int]);
            let same = match groups[i].name() {
                Ok(Some(text)) => same_text(text.as_str(), name),
                _ => false,
            };
            proof {
                assert(names.subrange(0, i + 1).drop_last() =~= names.subrange(0, i as int));
                assert(same == (names[i as int] == Some(name@)));
            }
            if same {
                proof {
                    lemma_match_settled(names, name@, i + 1);
                }
                return Some(groups.swap_remove(i));
            }
            i = i + 1;
        }
        assert(names.subrange(0, i as int) =~= names);
        None
    }

    /// Find a channel by name across all groups (first match). Channels whose name cannot be
    /// read are passed over.
    pub fn channel<'a>(&'a self, name: &str) -> (channel: Option<Channel<'a>>)
        ensures
            channel.deep_view() == channel_among(all_groups(self.deep_view()), name@),
    {
        let groups = self.channel_groups();
        let ghost all = all_groups(self.deep_view());
        let mut i: usize = 0;
        assert(all.subrange(0, 0) =~= Seq::empty());
        while i < groups.len()
            invariant
                i <= groups.len(),
                groups.deep_view() == all,
                all == all_groups(self.deep_view()),
                channel_among(all.subrange(0, i as int), name@) is None,
            decreases groups.len() - i,
        {
            proof {
                assert(groups.deep_view()[i as int] == all[i as int]);
                assert(all.subrange(0, i + 1).drop_last() =~= all.subrange(0, i as int));
            }
            let found = groups[i].channel(name);
            if found.is_some() {
                proof {
                    lemma_channel_settled(all, name@, i + 1);
                }
                return found;
            }
            i = i + 1;
        }
        assert(all.subrange(0, i as int) =~= all);
        None
    }

    /// Read a channel by name as a [`Signal`]: its values, paired with the master axis of
    /// its group. First match across all groups; none if no channel with that name exists.
    pub fn signal(&self, name: &str) -> (signal: Result<Option<Signal>, MdfError>)
        ensures
            outcome(signal) == signal_among(all_groups(self.deep_view()), name@),
    {
        let groups = self.channel_groups();
        let ghost all = all_groups(self.deep_view());
        let mut i: usize = 0;
        assert(all.subrange(0, 0) =~= Seq::empty());
        while i < groups.len()
            invariant
                i <= groups.len(),
                groups.deep_view() == all,
                all == all_groups(self.deep_view()),
                signal_among(all.subrange(0, i as int), name@) == Ok::<
                    Option<SignalView>,
                    ErrorView,
                >(None),
            decreases groups.len() - i,
        {
            proof {
                assert(groups.deep_view()[i as int] == all[i as int]);
                assert(all.subrange(0, i + 1).drop_last() =~= all.subrange(0, i as int));
            }
            match groups[i].signal(name) {
                Err(error) => {
                    proof {
                        lemma_signal_settled(all, name@, i + 1);
                    }
                    return Err(error);
                },
                Ok(Some(signal)) => {
                    proof {
                        lemma_signal_settled(all, name@, i + 1);
                    }
                    return Ok(Some(signal));
                },
                Ok(None) => {},
            }
            i = i + 1;
        }
        assert(all.subrange(0, i as int) =~= all);
        Ok(None)
    }

    /// Read several channels in one pass per channel group; see
    /// [`ChannelGroup::signals_f64`].
    ///
    /// The result is index-aligned with `names`; there is none where no group has a channel
    /// with that name. Each name resolves to its first match in file order, exactly like
    /// calling [`signal`](Self::signal) per name, but the data blocks of a group are read at
    /// most once no matter how many of its channels are requested.
    pub fn signals_f64(&self, names: &[&str]) -> (signals: Result<
        Vec<Option<SignalF64>>,
        MdfError,
    >)
        ensures
            outcome(signals) == signals_among(all_groups(self.deep_view()), names.deep_view()),
    {
        let groups = self.channel_groups();
        let ghost all = all_groups(self.deep_view());
        let ghost wanted = names.deep_view();
        let mut out = no_signals(names.len());
        let mut remaining = absent_indices(&out);
        let mut i: usize = 0;
        assert(all.subrange(0, 0) =~= Seq::empty());
        while i < groups.len() && remaining.len() > 0
            invariant
                i <= groups.len(),
                groups.deep_view() == all,
                all == all_groups(self.deep_view()),
                wanted == names.deep_view(),
                out@.len() == names@.len(),
                as_ints(remaining@) == absent(out.deep_view()),
                signals_among(all.subrange(0, i as int), wanted) == Ok::<
                    Seq<Option<SignalF64View>>,
                    ErrorView,
                >(out.deep_view()),
            decreases groups.len() - i,
        {
            let ghost before = out.deep_view();
            proof {
                assert(groups.deep_view()[i as int] == all[i as int]);
                assert(all.subrange(0, i + 1).drop_last() =~= all.subrange(0, i as int));
                lemma_absent(before);
                assert forall|j: int| 0 <= j < remaining@.len() implies #[trigger] remaining@[j]
                    < names@.len() by {
                    assert(as_ints(remaining@)[j] == absent(before)[j]);
                }
            }
            let want = names_at(names, &remaining);
            assert(want.deep_view() =~= Seq::new(
                absent(before).len(),
                |j: int| wanted[absent(before)[j]],
            ));
            let got = match groups[i].signals_f64(want.as_slice()) {
                Ok(got) => got,
                Err(error) => {
                    proof {
                        lemma_error_settled(all, wanted, i + 1);
                    }
                    return Err(error);
                },
            };
            proof {
                lemma_bulk_agrees(all[i as int], want.deep_view());
                lemma_placed(
                    before,
                    absent(before),
                    got.deep_view(),
                    absent(before).len() as int,
                );
            }
            place(&mut out, &remaining, got);
            remaining = absent_indices(&out);
            i = i + 1;
        }
        proof {
            if i == groups.len() {
                assert(all.subrange(0, i as int) =~= all);
            } else {
                lemma_complete_settled(all, wanted, i as int);
            }
        }
        Ok(out)
    }

    /// Build a [`FileLayout`] that lists the blocks of the file and their links.
    pub fn file_layout(&self) -> (found: Result<FileLayout, MdfError>)
        ensures
            outcome(found) == layout(self.deep_view().bytes),
    {
        FileLayout::from_bytes(self.raw.mmap.as_slice())
    }

    /// Get the start time of the measurement in nanoseconds since the epoch, as the header
    /// of the file states it; none if it is not set.
    pub fn start_time_ns(&self) -> (time: Option<u64>)
        ensures
            time == (if self.deep_view().header.abs_time == 0 {
                None
            } else {
                Some(self.deep_view().header.abs_time)
            }),
    {
        let time = self.raw.header.abs_time;
        if time == 0 {
            None
        } else {
            Some(time)
        }
    }
}

} // verus!
