//! A channel group of a file.
use vstd::prelude::*;

use crate::api::channel::{channel_cells, channel_series, Channel, ChannelView};
use crate::blocks::channel_block::ChannelBlockView;
use crate::blocks::common::{read_string_block, string_block};
use crate::blocks::data_block::DataBlock;
use crate::error::{outcome, ErrorView, MdfError};
use crate::parsing::raw_channel_group::RawChannelGroup;
use crate::parsing::raw_data_group::RawDataGroup;
use crate::parsing::records::{layout_of, record_blocks, GroupView};
use crate::parsing::records::{read_record_blocks, RecordLayout};
use crate::parsing::source_info::{source_at, SourceInfo};
use crate::signal::{no_series, scaling_of, Series, SeriesView, Signal, SignalView};
use crate::text::same_text;

verus! {

/// High level wrapper for a channel group.
///
/// It refers to the raw channel group and gives access to its metadata and channels without
/// decoding any samples.
pub struct ChannelGroup<'a> {
    raw_data_group: &'a RawDataGroup,
    raw_channel_group: &'a RawChannelGroup,
    mmap: &'a [u8],
}

impl<'a> DeepView for ChannelGroup<'a> {
    type V = GroupView;

    closed spec fn deep_view(&self) -> GroupView {
        GroupView {
            data_group: self.raw_data_group.deep_view(),
            group: self.raw_channel_group.deep_view(),
            file: self.mmap@,
        }
    }
}

/// The index of the first of `names` that is `name`.
pub open spec fn first_match(names: Seq<Option<Seq<char>>>, name: Seq<char>) -> Option<int>
    decreases names.len(),
{
    if names.len() == 0 {
        None
    } else {
        match first_match(names.drop_last(), name) {
            Some(index) => Some(index),
            None => if names.last() == Some(name) {
                Some(names.len() - 1)
            } else {
                None
            },
        }
    }
}

/// The index of the first master channel.
pub open spec fn first_master(channels: Seq<ChannelBlockView>) -> Option<int>
    decreases channels.len(),
{
    if channels.len() == 0 {
        None
    } else {
        match first_master(channels.drop_last()) {
            Some(index) => Some(index),
            None => if channels.last().channel_type == 2 {
                Some(channels.len() - 1)
            } else {
                None
            },
        }
    }
}

/// The name at `address`; none where it cannot be read.
pub open spec fn readable_name(file: Seq<u8>, address: u64) -> Option<Seq<char>> {
    match string_block(file, address) {
        Ok(name) => name,
        Err(_) => None,
    }
}

/// The names of channels, where they can be read.
pub open spec fn readable_names(file: Seq<u8>, channels: Seq<ChannelBlockView>) -> Seq<
    Option<Seq<char>>,
> {
    Seq::new(channels.len(), |i: int| readable_name(file, channels[i].name_addr))
}

/// Looking for the first channel called `name`. An error that is met before it is found ends
/// the search.
pub open spec fn searched(file: Seq<u8>, channels: Seq<ChannelBlockView>, name: Seq<char>) -> Result<
    Option<int>,
    ErrorView,
>
    decreases channels.len(),
{
    if channels.len() == 0 {
        Ok(None)
    } else {
        match searched(file, channels.drop_last(), name) {
            Err(error) => Err(error),
            Ok(Some(index)) => Ok(Some(index)),
            Ok(None) => match string_block(file, channels.last().name_addr) {
                Err(error) => Err(error),
                Ok(found) => if found == Some(name) {
                    Ok(Some(channels.len() - 1))
                } else {
                    Ok(None)
                },
            },
        }
    }
}

/// A name that could be read and is not `name`.
pub open spec fn is_other_name(
    read: Result<Option<Seq<char>>, ErrorView>,
    name: Seq<char>,
) -> bool {
    read matches Ok(found) && found != Some(name)
}

/// The names of the first `count` channels can be read, and none of them is `name`.
pub open spec fn passed_over(
    file: Seq<u8>,
    channels: Seq<ChannelBlockView>,
    name: Seq<char>,
    count: int,
) -> bool {
    forall|i: int|
        0 <= i < count ==> is_other_name(
            string_block(file, (#[trigger] channels[i]).name_addr),
            name,
        )
}

/// The time axis of the channel with the given index: the samples of the master, or none
/// where there is no master or the channel is the master.
pub open spec fn axis(group: GroupView, index: int) -> Result<SeriesView, ErrorView> {
    match first_master(group.group.channels) {
        Some(master) => if master != index {
            channel_series(group, group.group.channels[master])
        } else {
            Ok(no_series())
        },
        None => Ok(no_series()),
    }
}

/// The signal of the first channel called `name`.
pub open spec fn group_signal(group: GroupView, name: Seq<char>) -> Result<
    Option<SignalView>,
    ErrorView,
> {
    match searched(group.file, group.group.channels, name) {
        Err(error) => Err(error),
        Ok(None) => Ok(None),
        Ok(Some(index)) => {
            let channel = group.group.channels[index];
            match channel_cells(group, channel) {
                Err(error) => Err(error),
                Ok(values) => match axis(group, index) {
                    Err(error) => Err(error),
                    Ok(timestamps) => match string_block(group.file, channel.unit_addr) {
                        Err(error) => Err(error),
                        Ok(unit) => Ok(
                            Some(
                                SignalView {
                                    name,
                                    unit,
                                    timestamps,
                                    scaling: scaling_of(channel),
                                    values,
                                },
                            ),
                        ),
                    },
                },
            }
        },
    }
}

/// `index` as a mathematical integer.
pub open spec fn as_index(index: Option<usize>) -> Option<int> {
    match index {
        Some(i) => Some(i as int),
        None => None,
    }
}

/// A match is the index of a name that matches, and no earlier one does.
pub proof fn lemma_match_is_first(names: Seq<Option<Seq<char>>>, name: Seq<char>)
    ensures
        match first_match(names, name) {
            Some(index) => {
                &&& 0 <= index < names.len()
                &&& names[index] == Some(name)
                &&& forall|i: int| 0 <= i < index ==> #[trigger] names[i] != Some(name)
            },
            None => forall|i: int| 0 <= i < names.len() ==> #[trigger] names[i] != Some(name),
        },
    decreases names.len(),
{
    if names.len() > 0 {
        lemma_match_is_first(names.drop_last(), name);
        assert forall|i: int| 0 <= i < names.len() - 1 implies names.drop_last()[i]
            == #[trigger] names[i] by {}
    }
}

/// The first master is the index of a master, and no earlier channel is one.
pub proof fn lemma_master_is_first(channels: Seq<ChannelBlockView>)
    ensures
        match first_master(channels) {
            Some(index) => {
                &&& 0 <= index < channels.len()
                &&& channels[index].channel_type == 2
                &&& forall|i: int| 0 <= i < index ==> (#[trigger] channels[i]).channel_type != 2
            },
            None => forall|i: int|
                0 <= i < channels.len() ==> (#[trigger] channels[i]).channel_type != 2,
        },
    decreases channels.len(),
{
    if channels.len() > 0 {
        lemma_master_is_first(channels.drop_last());
        assert forall|i: int| 0 <= i < channels.len() - 1 implies channels.drop_last()[i]
            == #[trigger] channels[i] by {}
    }
}

/// What a search has settled among the first channels, it has settled for all.
pub proof fn lemma_search_settled(
    file: Seq<u8>,
    channels: Seq<ChannelBlockView>,
    name: Seq<char>,
    count: int,
)
    requires
        0 <= count <= channels.len(),
        searched(file, channels.subrange(0, count), name) != Ok::<Option<int>, ErrorView>(None),
    ensures
        searched(file, channels, name) == searched(file, channels.subrange(0, count), name),
    decreases channels.len() - count,
{
    if count == channels.len() {
        assert(channels.subrange(0, count) =~= channels);
    } else {
        assert(channels.subrange(0, count + 1).drop_last() =~= channels.subrange(0, count));
        lemma_search_settled(file, channels, name, count + 1);
    }
}

/// A search finds the first channel that is called so, provided that the names before it can
/// be read; it finds none where all names can be read and none matches, and otherwise ends
/// with the error of the first name that cannot be read.
pub proof fn lemma_search_is_first(file: Seq<u8>, channels: Seq<ChannelBlockView>, name: Seq<char>)
    ensures
        match searched(file, channels, name) {
            Ok(Some(index)) => {
                &&& 0 <= index < channels.len()
                &&& string_block(file, channels[index].name_addr) == Ok::<
                    Option<Seq<char>>,
                    ErrorView,
                >(Some(name))
                &&& passed_over(file, channels, name, index)
            },
            Ok(None) => passed_over(file, channels, name, channels.len() as int),
            Err(error) => exists|index: int|
                0 <= index < channels.len() && string_block(
                    file,
                    (#[trigger] channels[index]).name_addr,
                ) == Err::<Option<Seq<char>>, ErrorView>(error) && passed_over(
                    file,
                    channels,
                    name,
                    index,
                ),
        },
    decreases channels.len(),
{
    if channels.len() > 0 {
        let shorter = channels.drop_last();
        lemma_search_is_first(file, shorter, name);
        assert forall|count: int| 0 <= count <= shorter.len() && #[trigger] passed_over(
            file,
            shorter,
            name,
            count,
        ) implies passed_over(file, channels, name, count) by {
            assert forall|i: int| 0 <= i < count implies is_other_name(
                string_block(file, (#[trigger] channels[i]).name_addr),
                name,
            ) by {
                assert(shorter[i] == channels[i]);
            }
        }
        match searched(file, shorter, name) {
            Ok(None) => {
                assert(channels.last() == channels[channels.len() - 1]);
                assert(passed_over(file, channels, name, channels.len() - 1));
            },
            Err(error) => {
                let index = choose|index: int|
                    0 <= index < shorter.len() && string_block(
                        file,
                        (#[trigger] shorter[index]).name_addr,
                    ) == Err::<Option<Seq<char>>, ErrorView>(error) && passed_over(
                        file,
                        shorter,
                        name,
                        index,
                    );
                assert(channels[index] == shorter[index]);
            },
            _ => {},
        }
    }
}

impl<'a> ChannelGroup<'a> {
    /// A handle for `raw_channel_group`, which belongs to `raw_data_group`; nothing is
    /// decoded.
    pub fn new(
        raw_data_group: &'a RawDataGroup,
        raw_channel_group: &'a RawChannelGroup,
        mmap: &'a [u8],
    ) -> (group: Self)
        ensures
            group.deep_view() == (GroupView {
                data_group: raw_data_group.deep_view(),
                group: raw_channel_group.deep_view(),
                file: mmap@,
            }),
    {
        ChannelGroup { raw_data_group, raw_channel_group, mmap }
    }

    /// Retrieve the human readable group name.
    pub fn name(&self) -> (name: Result<Option<String>, MdfError>)
        ensures
            outcome(name) == string_block(
                self.deep_view().file,
                self.deep_view().group.block.acq_name_addr,
            ),
    {
        read_string_block(self.mmap, self.raw_channel_group.block.acq_name_addr)
    }

    /// Retrieve the group comment if present.
    pub fn comment(&self) -> (comment: Result<Option<String>, MdfError>)
        ensures
            outcome(comment) == string_block(
                self.deep_view().file,
                self.deep_view().group.block.comment_addr,
            ),
    {
        read_string_block(self.mmap, self.raw_channel_group.block.comment_addr)
    }

    /// Get the acquisition source information if available.
    pub fn source(&self) -> (source: Result<Option<SourceInfo>, MdfError>)
        ensures
            outcome(source) == source_at(
                self.deep_view().file,
                self.deep_view().group.block.acq_source_addr,
            ),
    {
        SourceInfo::from_mmap(self.mmap, self.raw_channel_group.block.acq_source_addr)
    }

    /// The handle for the channel with the given index.
    pub(crate) fn channel_at(&self, index: usize) -> (channel: Channel<'a>)
        requires
            index < self.deep_view().group.channels.len(),
        ensures
            channel.deep_view() == (ChannelView {
                group: self.deep_view(),
                channel: self.deep_view().group.channels[index as int],
            }),
    {
        Channel::new(
            &self.raw_channel_group.raw_channels[index].block,
            self.raw_data_group,
            self.raw_channel_group,
            self.mmap,
        )
    }

    /// How many channels there are.
    pub(crate) fn channel_count(&self) -> (count: usize)
        ensures
            count == self.deep_view().group.channels.len(),
    {
        self.raw_channel_group.raw_channels.len()
    }

    /// How the records of the group are laid out.
    pub(crate) fn layout(&self) -> (layout: RecordLayout)
        ensures
            layout == layout_of(self.deep_view()),
    {
        RecordLayout::of(self.raw_data_group, self.raw_channel_group)
    }

    /// Read the data blocks that hold the records of the group.
    pub(crate) fn read_blocks(&self) -> (blocks: Result<Vec<DataBlock<'a>>, MdfError>)
        ensures
            outcome(blocks) == record_blocks(self.deep_view()),
    {
        read_record_blocks(self.raw_data_group, self.raw_channel_group, self.mmap)
    }

    /// Build all [`Channel`] objects for this group. Nothing is decoded.
    pub fn channels(&self) -> (channels: Vec<Channel<'a>>)
        ensures
            channels.deep_view() == Seq::new(
                self.deep_view().group.channels.len(),
                |i: int|
                    ChannelView {
                        group: self.deep_view(),
                        channel: self.deep_view().group.channels[i],
                    },
            ),
    {
        let mut channels: Vec<Channel<'a>> = Vec::new();
        let mut i: usize = 0;
        while i < self.raw_channel_group.raw_channels.len()
            invariant
                i <= self.raw_channel_group.raw_channels.len(),
                channels@.len() == i,
                forall|k: int|
                    0 <= k < i ==> (#[trigger] channels@[k]).deep_view() == (ChannelView {
                        group: self.deep_view(),
                        channel: self.deep_view().group.channels[k],
                    }),
            decreases self.raw_channel_group.raw_channels.len() - i,
        {
            channels.push(self.channel_at(i));
            i = i + 1;
        }
        channels
    }

    /// Find a channel in this group by name (first match). Channels whose name cannot be
    /// read are passed over.
    pub fn channel(&self, name: &str) -> (channel: Option<Channel<'a>>)
        ensures
            match channel {
                Some(found) => {
                    let names = readable_names(
                        self.deep_view().file,
                        self.deep_view().group.channels,
                    );
                    &&& first_match(names, name@) is Some
                    &&& found.deep_view() == (ChannelView {
                        group: self.deep_view(),
                        channel: self.deep_view().group.channels[first_match(names, name@)->0],
                    })
                },
                None => first_match(
                    readable_names(self.deep_view().file, self.deep_view().group.channels),
                    name@,
                ) is None,
            },
    {
        let ghost names = readable_names(self.deep_view().file, self.deep_view().group.channels);
        let mut i: usize = 0;
        assert(names.subrange(0, 0) =~= Seq::empty());
        while i < self.raw_channel_group.raw_channels.len()
            invariant
                i <= self.raw_channel_group.raw_channels.len(),
                names == readable_names(self.deep_view().file, self.deep_view().group.channels),
                first_match(names.subrange(0, i as int), name@) is None,
            decreases self.raw_channel_group.raw_channels.len() - i,
        {
            let candidate = self.channel_at(i);
            let same = match candidate.name() {
                Ok(Some(text)) => same_text(text.as_str(), name),
                _ => false,
            };
            proof {
                assert(names.subrange(0, i + 1).drop_last() =~= names.subrange(0, i as int));
                assert(same == (names[i as int] == Some(name@)));
            }
            if same {
                proof {
                    lemma_match_settled(names, name@, i + 1);
                }
                return Some(candidate);
            }
            i = i + 1;
        }
        assert(names.subrange(0, i as int) =~= names);
        None
    }

    /// Look for the first channel called `name`, and for the first master.
    fn locate(&self, name: &str) -> (found: Result<(Option<usize>, Option<usize>), MdfError>)
        ensures
            match found {
                Ok((target, master)) => {
                    &&& searched(self.deep_view().file, self.deep_view().group.channels, name@)
                        == Ok::<Option<int>, ErrorView>(as_index(target))
                    &&& first_master(self.deep_view().group.channels) == as_index(master)
                },
                Err(error) => searched(
                    self.deep_view().file,
                    self.deep_view().group.channels,
                    name@,
                ) == Err::<Option<int>, ErrorView>(error.deep_view()),
            },
    {
        let ghost file = self.deep_view().file;
        let ghost all = self.deep_view().group.channels;
        let count = self.channel_count();
        let mut target: Option<usize> = None;
        let mut master: Option<usize> = None;
        let mut i: usize = 0;
        assert(all.subrange(0, 0) =~= Seq::empty());
        while i < count
            invariant
                i <= count == all.len(),
                file == self.deep_view().file,
                all == self.deep_view().group.channels,
                as_index(master) == first_master(all.subrange(0, i as int)),
                Ok::<Option<int>, ErrorView>(as_index(target)) == searched(
                    file,
                    all.subrange(0, i as int),
                    name@,
                ),
            decreases count - i,
        {
            proof {
                assert(all.subrange(0, i + 1).drop_last() =~= all.subrange(0, i as int));
            }
            let channel = self.channel_at(i);
            if master.is_none() && channel.block().channel_type == 2 {
                master = Some(i);
            }
            if target.is_none() {
                match channel.name() {
                    Err(error) => {
                        proof {
                            lemma_search_settled(file, all, name@, i + 1);
                        }
                        return Err(error);
                    },
                    Ok(Some(text)) => {
                        if same_text(text.as_str(), name) {
                            target = Some(i);
                        }
                    },
                    Ok(None) => {},
                }
            }
            i = i + 1;
        }
        assert(all.subrange(0, i as int) =~= all);
        Ok((target, master))
    }

    /// Read a channel by name as a [`Signal`]: its values, paired with the group's master
    /// axis.
    ///
    /// There is none if no channel with that name exists in this group. The axis is empty
    /// when the group has no master channel or when the requested channel is the master.
    pub fn signal(&self, name: &str) -> (signal: Result<Option<Signal>, MdfError>)
        ensures
            outcome(signal) == group_signal(self.deep_view(), name@),
    {
        let (target, master) = self.locate(name)?;
        proof {
            let all = self.deep_view().group.channels;
            lemma_search_is_first(self.deep_view().file, all, name@);
            lemma_master_is_first(all);
        }
        let ci = match target {
            None => {
                return Ok(None);
            },
            Some(ci) => ci,
        };
        let channel = self.channel_at(ci);
        let values = channel.values()?;
        let timestamps = match master {
            Some(mi) => {
                if mi != ci {
                    self.channel_at(mi).values_as_f64()?
                } else {
                    Series::empty()
                }
            },
            None => Series::empty(),
        };
        let unit = channel.unit()?;
        Ok(
            Some(
                Signal {
                    name: name.to_string(),
                    unit,
                    timestamps,
                    scaling: channel.scaling(),
                    values,
                },
            ),
        )
    }

    /// Get the raw data group.
    pub fn raw_data_group(&self) -> (group: &RawDataGroup)
        ensures
            group.deep_view() == self.deep_view().data_group,
    {
        self.raw_data_group
    }

    /// Get the raw channel group.
    pub fn raw_channel_group(&self) -> (group: &RawChannelGroup)
        ensures
            group.deep_view() == self.deep_view().group,
    {
        self.raw_channel_group
    }

    /// Get the bytes of the file.
    pub fn mmap(&self) -> (bytes: &[u8])
        ensures
            bytes@ == self.deep_view().file,
    {
        self.mmap
    }
}

/// A match among the first names is the match among all.
pub proof fn lemma_match_settled(names: Seq<Option<Seq<char>>>, name: Seq<char>, count: int)
    requires
        0 <= count <= names.len(),
        first_match(names.subrange(0, count), name) is Some,
    ensures
        first_match(names, name) == first_match(names.subrange(0, count), name),
    decreases names.len() - count,
{
    if count == names.len() {
        assert(names.subrange(0, count) =~= names);
    } else {
        assert(names.subrange(0, count + 1).drop_last() =~= names.subrange(0, count));
        lemma_match_settled(names, name, count + 1);
    }
}

} // verus!
