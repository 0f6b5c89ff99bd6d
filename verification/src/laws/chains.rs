//! Chains of data blocks, of signal data, and of the blocks that describe them.
use vstd::prelude::*;

use crate::blocks::channel_block::{channel_block_at, ChannelBlockView};
use crate::blocks::channel_group_block::parse_channel_group;
use crate::blocks::common::{block_bytes, header_of};
use crate::blocks::data_block::DataBlockView;
use crate::blocks::data_group_block::{parse_data_group, DataGroupBlock};
use crate::blocks::header_block::parse_file_header;
use crate::blocks::identification::parse_identification;
use crate::error::ErrorView;
use crate::laws::blocks::{fails_with, lemma_list_is_parsed};
use crate::laws::encoding::{holds_block, lemma_block_is_read_back};
use crate::laws::walks::{leads, lemma_walk_ends, lemma_walk_from, walk};
use crate::parsing::compressed::data_fragment;
use crate::parsing::mdf_file::{channel_chain, channel_group_at, channel_group_chain};
use crate::parsing::mdf_file::{data_group_at, data_group_chain, parse_file};
use crate::parsing::raw_channel_group::ChannelGroupView;
use crate::parsing::raw_data_group::{chain_step, data_chain, group_data_blocks, list_fragments};
use crate::parsing::raw_data_group::DataGroupView;
use crate::parsing::signal_data::{listed_signal, signal_chain, signal_fragment, signal_step};
use crate::parsing::visited::{addresses_left, lemma_visit_leaves_fewer};
use crate::bytes::u64_at;
use crate::text::hexadecimal;

verus! {

/// The kinds of blocks that chains are made of are all different.
pub proof fn lemma_kinds_differ()
    ensures
        "##DT"@ != "##DV"@,
        "##DT"@ != "##DZ"@,
        "##DT"@ != "##DL"@,
        "##DT"@ != "##HL"@,
        "##DT"@ != "##SD"@,
        "##DV"@ != "##DZ"@,
        "##DV"@ != "##DL"@,
        "##DV"@ != "##HL"@,
        "##DV"@ != "##SD"@,
        "##DZ"@ != "##DL"@,
        "##DZ"@ != "##HL"@,
        "##DZ"@ != "##SD"@,
        "##DL"@ != "##HL"@,
        "##DL"@ != "##SD"@,
        "##HL"@ != "##SD"@,
{
    reveal_strlit("##DT");
    reveal_strlit("##DV");
    reveal_strlit("##DZ");
    reveal_strlit("##DL");
    reveal_strlit("##HL");
    reveal_strlit("##SD");
    assert("##DT"@[2] == 'D' && "##DT"@[3] == 'T');
    assert("##DV"@[2] == 'D' && "##DV"@[3] == 'V');
    assert("##DZ"@[2] == 'D' && "##DZ"@[3] == 'Z');
    assert("##DL"@[2] == 'D' && "##DL"@[3] == 'L');
    assert("##HL"@[2] == 'H' && "##HL"@[3] == 'L');
    assert("##SD"@[2] == 'S' && "##SD"@[3] == 'D');
}

/// A step along the data blocks of a file.
pub open spec fn data_step(file: Seq<u8>) -> spec_fn(u64) -> Result<
    (Seq<DataBlockView>, u64),
    ErrorView,
> {
    |address: u64| chain_step(file, address)
}

proof fn lemma_data_walk(
    file: Seq<u8>,
    address: u64,
    visited: Set<u64>,
    found: Seq<DataBlockView>,
)
    ensures
        data_chain(file, address, visited, found) == walk(
            data_step(file),
            "data block"@,
            address,
            visited,
            found,
        ),
    decreases addresses_left(visited),
{
    if address != 0 && !visited.contains(address) {
        if let Ok(here) = chain_step(file, address) {
            lemma_visit_leaves_fewer(visited, address);
            lemma_data_walk(file, here.1, visited.insert(address), found + here.0);
        }
    }
}

/// Records of several channel groups are not mixed in one chain of data.
pub open spec fn is_sorted(group: DataGroupView) -> bool {
    group.block.record_id_len == 0 || group.channel_groups.len() <= 1
}

/// The group with its data link set to `address`.
pub open spec fn with_data_at(group: DataGroupView, address: u64) -> DataGroupView {
    DataGroupView {
        block: DataGroupBlock { data_block_addr: address, ..group.block },
        channel_groups: group.channel_groups,
    }
}

/// A group that mixes the records of several channel groups is refused, whatever its data.
pub proof fn lemma_unsorted_group_is_refused(group: DataGroupView, file: Seq<u8>)
    requires
        group.block.record_id_len > 0,
        group.channel_groups.len() > 1,
    ensures
        group_data_blocks(group, file) == Err::<Seq<DataBlockView>, ErrorView>(
            ErrorView::BlockSerializationError(
                "unsorted data groups (multiple channel groups per data group) are not supported"@,
            ),
        ),
{
}

/// A null data link gives no data blocks, and a link out of the file an error.
pub proof fn lemma_data_link(group: DataGroupView, file: Seq<u8>)
    requires
        is_sorted(group),
    ensures
        group.block.data_block_addr == 0 ==> group_data_blocks(group, file) == Ok::<
            Seq<DataBlockView>,
            ErrorView,
        >(Seq::empty()),
        group.block.data_block_addr != 0 ==> (block_bytes(
            file,
            group.block.data_block_addr,
        ) matches Err(error) ==> group_data_blocks(group, file) == Err::<
            Seq<DataBlockView>,
            ErrorView,
        >(error)),
{
}

/// A data link to a single fragment gives that fragment.
pub proof fn lemma_single_fragment(group: DataGroupView, file: Seq<u8>, s: Seq<u8>)
    requires
        is_sorted(group),
        group.block.data_block_addr != 0,
        block_bytes(file, group.block.data_block_addr) == Ok::<Seq<u8>, ErrorView>(s),
        header_of(s).id == "##DT"@ || header_of(s).id == "##DV"@ || header_of(s).id == "##DZ"@,
    ensures
        group_data_blocks(group, file) == (match data_fragment(s) {
            Ok(block) => Ok(seq![block]),
            Err(error) => Err(error),
        }),
{
    let first = group.block.data_block_addr;
    lemma_data_walk(file, first, Set::empty(), Seq::empty());
    lemma_walk_from(data_step(file), "data block"@, first);
    assert(data_step(file)(first) == chain_step(file, first));
    if let Ok(block) = data_fragment(s) {
        assert(seq![block] + Seq::<DataBlockView>::empty() =~= seq![block]);
    }
}

/// A data link to a list gives the fragments of the list, and behind them what the next list
/// gives.
pub proof fn lemma_list_of_fragments(
    group: DataGroupView,
    file: Seq<u8>,
    s: Seq<u8>,
    reserved: u32,
    block_len: u64,
    links: Seq<u64>,
    data: Seq<u8>,
)
    requires
        is_sorted(group),
        group.block.data_block_addr != 0,
        block_bytes(file, group.block.data_block_addr) == Ok::<Seq<u8>, ErrorView>(s),
        holds_block(s, "##DL"@, reserved, block_len, links, data),
        links.len() >= 1,
    ensures
        ({
            let fragments = list_fragments(file, links.subrange(1, links.len() as int));
            let rest = group_data_blocks(with_data_at(group, links[0]), file);
            &&& group_data_blocks(group, file) is Ok <==> fragments is Ok && rest is Ok
            &&& group_data_blocks(group, file) is Ok ==> group_data_blocks(group, file)->Ok_0
                == fragments->Ok_0 + rest->Ok_0
            &&& fragments matches Err(error) ==> group_data_blocks(group, file) == Err::<
                Seq<DataBlockView>,
                ErrorView,
            >(error)
        }),
{
    let first = group.block.data_block_addr;
    lemma_block_is_read_back(s, "##DL"@, reserved, block_len, links, data);
    lemma_list_is_parsed(s, reserved, block_len, links, data);
    lemma_kinds_differ();
    lemma_data_walk(file, first, Set::empty(), Seq::empty());
    lemma_data_walk(file, links[0], Set::empty(), Seq::empty());
    lemma_walk_from(data_step(file), "data block"@, first);
    assert(data_step(file)(first) == chain_step(file, first));
}

/// A list header without room for its link is refused, for data and for signal data.
pub proof fn lemma_cut_list_header_is_refused(
    group: DataGroupView,
    file: Seq<u8>,
    address: u64,
    s: Seq<u8>,
)
    requires
        is_sorted(group),
        group.block.data_block_addr == address,
        address != 0,
        address + 32 <= usize::MAX,
        block_bytes(file, address) == Ok::<Seq<u8>, ErrorView>(s),
        header_of(s).id == "##HL"@,
        s.len() < 32,
    ensures
        group_data_blocks(group, file) == Err::<Seq<DataBlockView>, ErrorView>(
            ErrorView::TooShortBuffer { actual: file.len() as int, expected: address + 32 },
        ),
        signal_data(file, address) == Err::<Seq<u8>, ErrorView>(
            ErrorView::TooShortBuffer { actual: file.len() as int, expected: address + 32 },
        ),
{
    lemma_kinds_differ();
}

/// A data link to a block of any other kind is refused.
pub proof fn lemma_other_data_is_refused(group: DataGroupView, file: Seq<u8>, s: Seq<u8>)
    requires
        is_sorted(group),
        group.block.data_block_addr != 0,
        block_bytes(file, group.block.data_block_addr) == Ok::<Seq<u8>, ErrorView>(s),
        ({
            let id = header_of(s).id;
            id != "##DT"@ && id != "##DV"@ && id != "##DZ"@ && id != "##DL"@ && id != "##HL"@
        }),
    ensures
        group_data_blocks(group, file) == Err::<Seq<DataBlockView>, ErrorView>(
            ErrorView::BlockIDError {
                actual: header_of(s).id,
                expected: "##DT / ##DV / ##DL / ##DZ / ##HL"@,
            },
        ),
{
}

/// A chain that comes back to one of its addresses is refused.
pub proof fn lemma_data_cycle_is_refused(
    group: DataGroupView,
    file: Seq<u8>,
    path: Seq<u64>,
    again: u64,
)
    requires
        is_sorted(group),
        leads(data_step(file), group.block.data_block_addr, path, again),
        path.contains(again),
    ensures
        group_data_blocks(group, file) == Err::<Seq<DataBlockView>, ErrorView>(
            ErrorView::BlockLinkError(
                "cycle detected in data block chain at address "@ + hexadecimal(again as nat),
            ),
        ),
{
    reveal_strlit("cycle detected in ");
    reveal_strlit("data block");
    reveal_strlit(" chain at address ");
    reveal_strlit("cycle detected in data block chain at address ");
    assert("cycle detected in "@ + "data block"@ + " chain at address "@
        =~= "cycle detected in data block chain at address "@);
    let i = choose|i: int| 0 <= i < path.len() && path[i] == again;
    assert(path[i] != 0);
    lemma_data_walk(file, group.block.data_block_addr, Set::empty(), Seq::empty());
    lemma_walk_ends(
        data_step(file),
        "data block"@,
        group.block.data_block_addr,
        path,
        again,
    );
}

/// The fragments of a list are those of its first links and, behind them, those of the others.
pub proof fn lemma_fragments_in_order(file: Seq<u8>, links: Seq<u64>, more: Seq<u64>)
    ensures
        list_fragments(file, links + more) == (match list_fragments(file, links) {
            Err(error) => Err(error),
            Ok(first) => match list_fragments(file, more) {
                Err(error) => Err(error),
                Ok(second) => Ok(first + second),
            },
        }),
    decreases more.len(),
{
    if more.len() == 0 {
        assert(links + more =~= links);
        if let Ok(first) = list_fragments(file, links) {
            assert(first + Seq::<DataBlockView>::empty() =~= first);
        }
    } else {
        lemma_fragments_in_order(file, links, more.drop_last());
        assert((links + more).drop_last() =~= links + more.drop_last());
        assert((links + more).last() == more.last());
        if let Ok(first) = list_fragments(file, links) {
            if let Ok(second) = list_fragments(file, more.drop_last()) {
                assert(forall|block: DataBlockView| #[trigger]
                    (first + second).push(block) =~= first + second.push(block));
            }
        }
    }
}

/// A link of a list leads to the fragment at its address; a null link leads to none.
pub proof fn lemma_fragment_at_link(file: Seq<u8>, link: u64)
    requires
        link <= usize::MAX,
    ensures
        list_fragments(file, seq![0u64]) == Ok::<Seq<DataBlockView>, ErrorView>(Seq::empty()),
        link != 0 && link <= file.len() ==> list_fragments(file, seq![link]) == (match data_fragment(
            file.subrange(link as int, file.len() as int),
        ) {
            Err(error) => Err(error),
            Ok(block) => Ok(seq![block]),
        }),
        link != 0 && link > file.len() && link + 24 <= usize::MAX ==> list_fragments(
            file,
            seq![link],
        ) == Err::<Seq<DataBlockView>, ErrorView>(
            ErrorView::TooShortBuffer { actual: file.len() as int, expected: link + 24 },
        ),
        link != 0 && link > file.len() ==> (list_fragments(file, seq![link]) matches Err(error)
            && error is TooShortBuffer),
{
    assert(seq![0u64].drop_last() =~= Seq::empty());
    assert(seq![link].drop_last() =~= Seq::empty());
    assert(list_fragments(file, Seq::empty()) == Ok::<Seq<DataBlockView>, ErrorView>(Seq::empty()));
    if link != 0 && link <= file.len() {
        if let Ok(block) = data_fragment(file.subrange(link as int, file.len() as int)) {
            assert(Seq::<DataBlockView>::empty().push(block) =~= seq![block]);
        }
    }
}

/// A step along the signal data of a file.
pub open spec fn signal_data_step(file: Seq<u8>) -> spec_fn(u64) -> Result<
    (Seq<u8>, u64),
    ErrorView,
> {
    |address: u64| signal_step(file, address)
}

proof fn lemma_signal_walk(file: Seq<u8>, address: u64, visited: Set<u64>, found: Seq<u8>)
    ensures
        signal_chain(file, address, visited, found) == walk(
            signal_data_step(file),
            "data block"@,
            address,
            visited,
            found,
        ),
    decreases addresses_left(visited),
{
    if address != 0 && !visited.contains(address) {
        if let Ok(here) = signal_step(file, address) {
            lemma_visit_leaves_fewer(visited, address);
            lemma_signal_walk(file, here.1, visited.insert(address), found + here.0);
        }
    }
}

/// All signal data from `address` on.
pub open spec fn signal_data(file: Seq<u8>, address: u64) -> Result<Seq<u8>, ErrorView> {
    signal_chain(file, address, Set::empty(), Seq::empty())
}

proof fn lemma_signal_from(file: Seq<u8>, address: u64)
    ensures
        signal_data(file, 0) == Ok::<Seq<u8>, ErrorView>(Seq::empty()),
        address != 0 ==> (signal_step(file, address) matches Err(error) ==> signal_data(
            file,
            address,
        ) == Err::<Seq<u8>, ErrorView>(error)),
        address != 0 ==> (signal_step(file, address) matches Ok(here) ==> {
            &&& signal_data(file, address) is Ok <==> signal_data(file, here.1) is Ok
            &&& signal_data(file, address) is Ok ==> signal_data(file, address)->Ok_0 == here.0
                + signal_data(file, here.1)->Ok_0
        }),
{
    lemma_signal_walk(file, address, Set::empty(), Seq::empty());
    lemma_walk_from(signal_data_step(file), "data block"@, address);
    assert(signal_data_step(file)(address) == signal_step(file, address));
    if let Ok(here) = signal_step(file, address) {
        lemma_signal_walk(file, here.1, Set::empty(), Seq::empty());
    }
}

/// A plain block of signal data holds what follows its header, as much as its length says.
pub proof fn lemma_plain_signal_data(
    file: Seq<u8>,
    address: u64,
    s: Seq<u8>,
    reserved: u32,
    data: Seq<u8>,
)
    requires
        address != 0,
        block_bytes(file, address) == Ok::<Seq<u8>, ErrorView>(s),
        24 + data.len() <= usize::MAX,
        holds_block(s, "##SD"@, reserved, (24 + data.len()) as u64, Seq::empty(), data),
    ensures
        signal_fragment(s) == Ok::<Seq<u8>, ErrorView>(data),
        signal_data(file, address) == Ok::<Seq<u8>, ErrorView>(data),
{
    lemma_block_is_read_back(s, "##SD"@, reserved, (24 + data.len()) as u64, Seq::empty(), data);
    lemma_kinds_differ();
    assert(data.subrange(0, data.len() as int) =~= data);
    lemma_signal_from(file, address);
    assert(data + Seq::<u8>::empty() =~= data);
}

/// A compressed block of signal data holds what it unpacks to.
pub proof fn lemma_compressed_signal_data(file: Seq<u8>, address: u64, s: Seq<u8>)
    requires
        address != 0,
        block_bytes(file, address) == Ok::<Seq<u8>, ErrorView>(s),
        header_of(s).id == "##DZ"@,
    ensures
        signal_fragment(s) == (match data_fragment(s) {
            Ok(block) => Ok(block.data),
            Err(error) => Err(error),
        }),
        signal_data(file, address) == signal_fragment(s),
{
    lemma_kinds_differ();
    lemma_signal_from(file, address);
    if let Ok(block) = data_fragment(s) {
        assert(block.data + Seq::<u8>::empty() =~= block.data);
    }
}

/// Blocks of other kinds hold no signal data.
pub proof fn lemma_other_signal_data_is_refused(file: Seq<u8>, address: u64, s: Seq<u8>)
    requires
        address != 0,
        block_bytes(file, address) == Ok::<Seq<u8>, ErrorView>(s),
        ({
            let id = header_of(s).id;
            id != "##SD"@ && id != "##DZ"@ && id != "##DL"@ && id != "##HL"@
        }),
    ensures
        signal_fragment(s) == Err::<Seq<u8>, ErrorView>(
            ErrorView::BlockIDError { actual: header_of(s).id, expected: "##SD / ##DZ"@ },
        ),
        signal_data(file, address) == signal_fragment(s),
{
    lemma_signal_from(file, address);
}

/// Signal data that comes back to one of its addresses is refused, and so is signal data
/// whose link leads out of the file.
pub proof fn lemma_signal_cycle_is_refused(
    file: Seq<u8>,
    address: u64,
    path: Seq<u64>,
    again: u64,
)
    requires
        address != 0,
    ensures
        leads(signal_data_step(file), address, path, again) && path.contains(again) ==> (
        signal_data(file, address) matches Err(error) && error is BlockLinkError),
        block_bytes(file, address) matches Err(error) ==> signal_data(file, address) == Err::<
            Seq<u8>,
            ErrorView,
        >(error),
{
    if leads(signal_data_step(file), address, path, again) && path.contains(again) {
        let i = choose|i: int| 0 <= i < path.len() && path[i] == again;
        assert(path[i] != 0);
        lemma_signal_walk(file, address, Set::empty(), Seq::empty());
        lemma_walk_ends(signal_data_step(file), "data block"@, address, path, again);
    }
}

/// A list header of signal data contributes nothing: the signal data from it on is that from
/// the list on that it leads to.
pub proof fn lemma_signal_list_header_is_transparent(file: Seq<u8>, address: u64, s: Seq<u8>)
    requires
        address != 0,
        block_bytes(file, address) == Ok::<Seq<u8>, ErrorView>(s),
        header_of(s).id == "##HL"@,
        s.len() >= 32,
    ensures
        signal_data(file, address) is Ok <==> signal_data(file, u64_at(s, 24)) is Ok,
        signal_data(file, address) is Ok ==> signal_data(file, address) == signal_data(
            file,
            u64_at(s, 24),
        ),
{
    lemma_kinds_differ();
    lemma_signal_from(file, address);
    if signal_data(file, address) is Ok {
        let rest = signal_data(file, u64_at(s, 24))->Ok_0;
        assert(Seq::<u8>::empty() + rest =~= rest);
    }
}

/// A list of signal data gives the data of its fragments in order, and behind it that of the
/// next list.
pub proof fn lemma_list_of_signal_data(
    file: Seq<u8>,
    address: u64,
    s: Seq<u8>,
    reserved: u32,
    block_len: u64,
    links: Seq<u64>,
    data: Seq<u8>,
)
    requires
        address != 0,
        block_bytes(file, address) == Ok::<Seq<u8>, ErrorView>(s),
        holds_block(s, "##DL"@, reserved, block_len, links, data),
        links.len() >= 1,
    ensures
        ({
            let fragments = listed_signal(file, links.subrange(1, links.len() as int));
            let rest = signal_data(file, links[0]);
            &&& signal_data(file, address) is Ok <==> fragments is Ok && rest is Ok
            &&& signal_data(file, address) is Ok ==> signal_data(file, address)->Ok_0
                == fragments->Ok_0 + rest->Ok_0
        }),
{
    lemma_block_is_read_back(s, "##DL"@, reserved, block_len, links, data);
    lemma_list_is_parsed(s, reserved, block_len, links, data);
    lemma_kinds_differ();
    lemma_signal_from(file, address);
}

/// The signal data of a list is that of its first links and, behind it, that of the others.
pub proof fn lemma_signal_fragments_in_order(file: Seq<u8>, links: Seq<u64>, more: Seq<u64>)
    ensures
        listed_signal(file, links + more) == (match listed_signal(file, links) {
            Err(error) => Err(error),
            Ok(first) => match listed_signal(file, more) {
                Err(error) => Err(error),
                Ok(second) => Ok(first + second),
            },
        }),
    decreases more.len(),
{
    if more.len() == 0 {
        assert(links + more =~= links);
        if let Ok(first) = listed_signal(file, links) {
            assert(first + Seq::<u8>::empty() =~= first);
        }
    } else {
        lemma_signal_fragments_in_order(file, links, more.drop_last());
        assert((links + more).drop_last() =~= links + more.drop_last());
        assert((links + more).last() == more.last());
        if let Ok(first) = listed_signal(file, links) {
            if let Ok(second) = listed_signal(file, more.drop_last()) {
                assert(forall|data: Seq<u8>| #[trigger]
                    ((first + second) + data) =~= first + (second + data));
            }
        }
    }
}

/// A link of a list leads to the signal data at its address; a null link leads to none.
pub proof fn lemma_signal_fragment_at_link(file: Seq<u8>, link: u64)
    ensures
        listed_signal(file, seq![0u64]) == Ok::<Seq<u8>, ErrorView>(Seq::empty()),
        link != 0 ==> listed_signal(file, seq![link]) == (match block_bytes(file, link) {
            Err(error) => Err(error),
            Ok(s) => signal_fragment(s),
        }),
{
    assert(seq![0u64].drop_last() =~= Seq::empty());
    assert(seq![link].drop_last() =~= Seq::empty());
    assert(listed_signal(file, Seq::empty()) == Ok::<Seq<u8>, ErrorView>(Seq::empty()));
    assert(forall|data: Seq<u8>| #[trigger] (Seq::<u8>::empty() + data) =~= data);
}

/// A step along the channels of a file.
pub open spec fn channel_step(file: Seq<u8>) -> spec_fn(u64) -> Result<
    (Seq<ChannelBlockView>, u64),
    ErrorView,
> {
    |address: u64|
        match channel_block_at(file, address) {
            Err(error) => Err(error),
            Ok(block) => Ok((seq![block], block.next_ch_addr)),
        }
}

proof fn lemma_channel_walk(
    file: Seq<u8>,
    address: u64,
    visited: Set<u64>,
    found: Seq<ChannelBlockView>,
)
    ensures
        channel_chain(file, address, visited, found) == walk(
            channel_step(file),
            "channel"@,
            address,
            visited,
            found,
        ),
    decreases addresses_left(visited),
{
    if address != 0 && !visited.contains(address) {
        if let Ok(block) = channel_block_at(file, address) {
            lemma_visit_leaves_fewer(visited, address);
            lemma_channel_walk(
                file,
                block.next_ch_addr,
                visited.insert(address),
                found.push(block),
            );
            assert(found.push(block) =~= found + seq![block]);
        }
    }
}

/// The channels from `address` on.
pub open spec fn channels_from(file: Seq<u8>, address: u64) -> Result<
    Seq<ChannelBlockView>,
    ErrorView,
> {
    channel_chain(file, address, Set::empty(), Seq::empty())
}

/// The channels from an address on are the channel there and, behind it, those from its next
/// link on; there are none behind a null link.
pub proof fn lemma_channels_in_order(file: Seq<u8>, address: u64)
    ensures
        channels_from(file, 0) == Ok::<Seq<ChannelBlockView>, ErrorView>(Seq::empty()),
        address != 0 ==> (channel_block_at(file, address) matches Err(error) ==> channels_from(
            file,
            address,
        ) == Err::<Seq<ChannelBlockView>, ErrorView>(error)),
        address != 0 ==> (channel_block_at(file, address) matches Ok(block) ==> {
            &&& channels_from(file, address) is Ok <==> channels_from(file, block.next_ch_addr) is Ok
            &&& channels_from(file, address) is Ok ==> channels_from(file, address)->Ok_0
                == seq![block] + channels_from(file, block.next_ch_addr)->Ok_0
        }),
{
    lemma_channel_walk(file, address, Set::empty(), Seq::empty());
    lemma_walk_from(channel_step(file), "channel"@, address);
    if let Ok(block) = channel_block_at(file, address) {
        lemma_channel_walk(file, block.next_ch_addr, Set::empty(), Seq::empty());
    }
}

/// A step along the channel groups of a file.
pub open spec fn channel_group_step(file: Seq<u8>) -> spec_fn(u64) -> Result<
    (Seq<ChannelGroupView>, u64),
    ErrorView,
> {
    |address: u64|
        match channel_group_at(file, address) {
            Err(error) => Err(error),
            Ok(group) => Ok((seq![group], group.block.next_cg_addr)),
        }
}

proof fn lemma_channel_group_walk(
    file: Seq<u8>,
    address: u64,
    visited: Set<u64>,
    found: Seq<ChannelGroupView>,
)
    ensures
        channel_group_chain(file, address, visited, found) == walk(
            channel_group_step(file),
            "channel group"@,
            address,
            visited,
            found,
        ),
    decreases addresses_left(visited),
{
    if address != 0 && !visited.contains(address) {
        if let Ok(group) = channel_group_at(file, address) {
            lemma_visit_leaves_fewer(visited, address);
            lemma_channel_group_walk(
                file,
                group.block.next_cg_addr,
                visited.insert(address),
                found.push(group),
            );
            assert(found.push(group) =~= found + seq![group]);
        }
    }
}

/// The channel groups from `address` on.
pub open spec fn channel_groups_from(file: Seq<u8>, address: u64) -> Result<
    Seq<ChannelGroupView>,
    ErrorView,
> {
    channel_group_chain(file, address, Set::empty(), Seq::empty())
}

/// The channel groups from an address on are the group there, with the channels that it
/// leads to, and, behind it, those from its next link on.
pub proof fn lemma_channel_groups_in_order(file: Seq<u8>, address: u64)
    ensures
        channel_groups_from(file, 0) == Ok::<Seq<ChannelGroupView>, ErrorView>(Seq::empty()),
        address != 0 ==> (channel_groups_from(file, address) matches Ok(groups) ==> {
            &&& groups.len() > 0
            &&& parse_channel_group(block_bytes(file, address)->Ok_0) == Ok::<_, ErrorView>(
                groups[0].block,
            )
            &&& channels_from(file, groups[0].block.first_ch_addr) == Ok::<_, ErrorView>(
                groups[0].channels,
            )
            &&& channel_groups_from(file, groups[0].block.next_cg_addr) == Ok::<_, ErrorView>(
                groups.drop_first(),
            )
        }),
        address != 0 ==> (block_bytes(file, address) matches Ok(s) ==> (parse_channel_group(
            s,
        ) matches Ok(block) ==> channels_from(file, block.first_ch_addr) is Ok
            && channel_groups_from(file, block.next_cg_addr) is Ok ==> channel_groups_from(
            file,
            address,
        ) is Ok)),
{
    lemma_channel_group_walk(file, address, Set::empty(), Seq::empty());
    lemma_walk_from(channel_group_step(file), "channel group"@, address);
    if let Ok(group) = channel_group_at(file, address) {
        lemma_channel_group_walk(file, group.block.next_cg_addr, Set::empty(), Seq::empty());
        if let Ok(rest) = channel_groups_from(file, group.block.next_cg_addr) {
            assert((seq![group] + rest).drop_first() =~= rest);
        }
    }
}

/// A step along the data groups of a file.
pub open spec fn data_group_step(file: Seq<u8>) -> spec_fn(u64) -> Result<
    (Seq<DataGroupView>, u64),
    ErrorView,
> {
    |address: u64|
        match data_group_at(file, address) {
            Err(error) => Err(error),
            Ok(group) => Ok((seq![group], group.block.next_dg_addr)),
        }
}

proof fn lemma_data_group_walk(
    file: Seq<u8>,
    address: u64,
    visited: Set<u64>,
    found: Seq<DataGroupView>,
)
    ensures
        data_group_chain(file, address, visited, found) == walk(
            data_group_step(file),
            "data group"@,
            address,
            visited,
            found,
        ),
    decreases addresses_left(visited),
{
    if address != 0 && !visited.contains(address) {
        if let Ok(group) = data_group_at(file, address) {
            lemma_visit_leaves_fewer(visited, address);
            lemma_data_group_walk(
                file,
                group.block.next_dg_addr,
                visited.insert(address),
                found.push(group),
            );
            assert(found.push(group) =~= found + seq![group]);
        }
    }
}

/// The data groups from `address` on.
pub open spec fn data_groups_from(file: Seq<u8>, address: u64) -> Result<
    Seq<DataGroupView>,
    ErrorView,
> {
    data_group_chain(file, address, Set::empty(), Seq::empty())
}

/// The data groups from an address on are the group there, with the channel groups that it
/// leads to, and, behind it, those from its next link on.
pub proof fn lemma_data_groups_in_order(file: Seq<u8>, address: u64)
    ensures
        data_groups_from(file, 0) == Ok::<Seq<DataGroupView>, ErrorView>(Seq::empty()),
        address != 0 ==> (data_groups_from(file, address) matches Ok(groups) ==> {
            &&& groups.len() > 0
            &&& parse_data_group(block_bytes(file, address)->Ok_0) == Ok::<_, ErrorView>(
                groups[0].block,
            )
            &&& channel_groups_from(file, groups[0].block.first_cg_addr) == Ok::<_, ErrorView>(
                groups[0].channel_groups,
            )
            &&& data_groups_from(file, groups[0].block.next_dg_addr) == Ok::<_, ErrorView>(
                groups.drop_first(),
            )
        }),
        address != 0 ==> (block_bytes(file, address) matches Ok(s) ==> (parse_data_group(
            s,
        ) matches Ok(block) ==> channel_groups_from(file, block.first_cg_addr) is Ok
            && data_groups_from(file, block.next_dg_addr) is Ok ==> data_groups_from(
            file,
            address,
        ) is Ok)),
{
    lemma_data_group_walk(file, address, Set::empty(), Seq::empty());
    lemma_walk_from(data_group_step(file), "data group"@, address);
    if let Ok(group) = data_group_at(file, address) {
        lemma_data_group_walk(file, group.block.next_dg_addr, Set::empty(), Seq::empty());
        if let Ok(rest) = data_groups_from(file, group.block.next_dg_addr) {
            assert((seq![group] + rest).drop_first() =~= rest);
        }
    }
}

/// A file is read exactly when its identification, the header 64 bytes behind its start and
/// the data groups that the header leads to can be; and then it is made of these.
pub proof fn lemma_file_is_read(file: Seq<u8>)
    ensures
        parse_file(file) matches Ok(read) ==> {
            &&& parse_identification(file) == Ok::<u16, ErrorView>(read.version)
            &&& parse_file_header(file.subrange(64, file.len() as int)) == Ok::<_, ErrorView>(
                read.header,
            )
            &&& data_groups_from(file, read.header.first_dg_addr) == Ok::<_, ErrorView>(
                read.data_groups,
            )
            &&& read.bytes == file
        },
        parse_identification(file) is Ok ==> (parse_file_header(
            file.subrange(64, file.len() as int),
        ) matches Ok(header) ==> data_groups_from(file, header.first_dg_addr) is Ok ==> parse_file(
            file,
        ) is Ok),
        parse_identification(file) matches Err(error) ==> fails_with(parse_file(file), error),
        parse_identification(file) is Ok ==> (parse_file_header(
            file.subrange(64, file.len() as int),
        ) matches Err(error) ==> fails_with(parse_file(file), error)),
        parse_identification(file) is Ok ==> (parse_file_header(
            file.subrange(64, file.len() as int),
        ) matches Ok(header) ==> (data_groups_from(file, header.first_dg_addr) matches Err(error)
            ==> fails_with(parse_file(file), error))),
{
}

/// A channel group or a data group that cannot be read, or whose parts cannot be, fails with
/// their error.
pub proof fn lemma_group_errors(file: Seq<u8>, address: u64)
    requires
        address != 0,
    ensures
        block_bytes(file, address) matches Err(error) ==> fails_with(
            channel_groups_from(file, address),
            error,
        ) && fails_with(data_groups_from(file, address), error),
        block_bytes(file, address) matches Ok(s) ==> {
            &&& parse_channel_group(s) matches Err(error) ==> fails_with(
                channel_groups_from(file, address),
                error,
            )
            &&& parse_channel_group(s) matches Ok(block) ==> (channels_from(
                file,
                block.first_ch_addr,
            ) matches Err(error) ==> fails_with(channel_groups_from(file, address), error))
            &&& parse_data_group(s) matches Err(error) ==> fails_with(
                data_groups_from(file, address),
                error,
            )
            &&& parse_data_group(s) matches Ok(block) ==> (channel_groups_from(
                file,
                block.first_cg_addr,
            ) matches Err(error) ==> fails_with(data_groups_from(file, address), error))
        },
{
    lemma_channel_group_walk(file, address, Set::empty(), Seq::empty());
    lemma_walk_from(channel_group_step(file), "channel group"@, address);
    lemma_data_group_walk(file, address, Set::empty(), Seq::empty());
    lemma_walk_from(data_group_step(file), "data group"@, address);
}

/// Channels, channel groups and data groups whose links come back to one of them are refused.
pub proof fn lemma_group_cycles_are_refused(
    file: Seq<u8>,
    first: u64,
    path: Seq<u64>,
    again: u64,
)
    requires
        path.contains(again),
    ensures
        leads(channel_step(file), first, path, again) ==> (channels_from(file, first) matches Err(
            error,
        ) && error is BlockLinkError),
        leads(channel_group_step(file), first, path, again) ==> (channel_groups_from(
            file,
            first,
        ) matches Err(error) && error is BlockLinkError),
        leads(data_group_step(file), first, path, again) ==> (data_groups_from(
            file,
            first,
        ) matches Err(error) && error is BlockLinkError),
{
    let i = choose|i: int| 0 <= i < path.len() && path[i] == again;
    if leads(channel_step(file), first, path, again) {
        assert(path[i] != 0);
        lemma_channel_walk(file, first, Set::empty(), Seq::empty());
        lemma_walk_ends(channel_step(file), "channel"@, first, path, again);
    }
    if leads(channel_group_step(file), first, path, again) {
        assert(path[i] != 0);
        lemma_channel_group_walk(file, first, Set::empty(), Seq::empty());
        lemma_walk_ends(channel_group_step(file), "channel group"@, first, path, again);
    }
    if leads(data_group_step(file), first, path, again) {
        assert(path[i] != 0);
        lemma_data_group_walk(file, first, Set::empty(), Seq::empty());
        lemma_walk_ends(data_group_step(file), "data group"@, first, path, again);
    }
}

} // verus!
