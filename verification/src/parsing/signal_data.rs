//! Values of variable length (VLSD), which are kept in blocks of signal data (`##SD`).
use std::collections::HashSet;
use vstd::prelude::*;

use crate::blocks::channel_block::{ChannelBlock, ChannelBlockView};
use crate::blocks::common::{block_at, block_bytes, body_len, header_of, BlockHeader, HEADER_LEN};
use crate::blocks::data_list_block::{parse_data_list, DataListBlock};
use crate::bytes::{read_u32, read_u64, u32_at, u64_at};
use crate::error::{outcome, too_short, ErrorView, MdfError};
use crate::parsing::compressed::{data_fragment, parse_data_fragment};
use crate::parsing::decoder::{decode_channel_value, decoded, DecodedValue, DecodedView};
use crate::parsing::visited::{addresses_left, cycle, cycle_error, lemma_visit_leaves_fewer};

verus! {

/// The signal data in the block that `s` starts with: plain, or compressed.
pub open spec fn signal_fragment(s: Seq<u8>) -> Result<Seq<u8>, ErrorView> {
    if s.len() < HEADER_LEN {
        Err(too_short(s.len() as int, HEADER_LEN as int))
    } else {
        let header = header_of(s);
        let end = HEADER_LEN + body_len(header);
        if header.id == "##SD"@ {
            if s.len() < end {
                Err(too_short(s.len() as int, end))
            } else {
                Ok(s.subrange(HEADER_LEN as int, end))
            }
        } else if header.id == "##DZ"@ {
            match data_fragment(s) {
                Err(error) => Err(error),
                Ok(block) => Ok(block.data),
            }
        } else {
            Err(ErrorView::BlockIDError { actual: header.id, expected: "##SD / ##DZ"@ })
        }
    }
}

/// The signal data that the links of a list lead to, one after the other.
pub open spec fn listed_signal(file: Seq<u8>, links: Seq<u64>) -> Result<Seq<u8>, ErrorView>
    decreases links.len(),
{
    if links.len() == 0 {
        Ok(Seq::empty())
    } else {
        match listed_signal(file, links.drop_last()) {
            Err(error) => Err(error),
            Ok(before) => if links.last() == 0 {
                Ok(before)
            } else {
                match block_bytes(file, links.last()) {
                    Err(error) => Err(error),
                    Ok(block) => match signal_fragment(block) {
                        Err(error) => Err(error),
                        Ok(data) => Ok(before + data),
                    },
                }
            },
        }
    }
}

/// What the block at `address` contributes to a chain of signal data, and the address at
/// which the chain goes on (0 at its end).
pub open spec fn signal_step(file: Seq<u8>, address: u64) -> Result<(Seq<u8>, u64), ErrorView> {
    match block_bytes(file, address) {
        Err(error) => Err(error),
        Ok(block) => {
            let id = header_of(block).id;
            if id == "##HL"@ {
                if block.len() < 32 {
                    Err(too_short(file.len() as int, (address as usize) + 32))
                } else {
                    Ok((Seq::empty(), u64_at(block, 24)))
                }
            } else if id == "##DL"@ {
                match parse_data_list(block) {
                    Err(error) => Err(error),
                    Ok(list) => match listed_signal(file, list.data_links) {
                        Err(error) => Err(error),
                        Ok(data) => Ok((data, list.next)),
                    },
                }
            } else {
                match signal_fragment(block) {
                    Err(error) => Err(error),
                    Ok(data) => Ok((data, 0)),
                }
            }
        },
    }
}

/// The signal data of the chain from `address` on, behind the data `found` before, where the
/// chain has already passed the addresses `visited`.
pub open spec fn signal_chain(
    file: Seq<u8>,
    address: u64,
    visited: Set<u64>,
    found: Seq<u8>,
) -> Result<Seq<u8>, ErrorView>
    decreases addresses_left(visited),
{
    if address == 0 {
        Ok(found)
    } else if visited.contains(address) {
        Err(cycle_error("data block"@, address))
    } else {
        match signal_step(file, address) {
            Err(error) => Err(error),
            Ok((data, next)) => {
                proof {
                    lemma_visit_leaves_fewer(visited, address);
                }
                signal_chain(file, next, visited.insert(address), found + data)
            },
        }
    }
}

/// The value that an entry of the signal data holds.
pub open spec fn entry_cell(entry: Seq<u8>, channel: ChannelBlockView) -> Option<DecodedView> {
    if channel.flags & 0x01 != 0 {
        None
    } else {
        decoded(entry, 0, channel)
    }
}

/// The values in signal data from `at` on: entries of a length (4 bytes) and as many bytes.
/// What is left at the end and is too short for a length is no entry.
pub open spec fn entry_cells(data: Seq<u8>, at: int, channel: ChannelBlockView) -> Result<
    Seq<Option<DecodedView>>,
    ErrorView,
>
    decreases data.len() - at,
{
    if at < 0 || at + 4 > data.len() {
        Ok(Seq::empty())
    } else {
        let end = at + 4 + u32_at(data, at);
        if end > data.len() {
            Err(too_short(data.len() as int, end))
        } else {
            match entry_cells(data, end, channel) {
                Err(error) => Err(error),
                Ok(rest) => Ok(seq![entry_cell(data.subrange(at + 4, end), channel)] + rest),
            }
        }
    }
}

/// All values of a channel with values of variable length.
pub open spec fn vlsd_cells(file: Seq<u8>, channel: ChannelBlockView) -> Result<
    Seq<Option<DecodedView>>,
    ErrorView,
> {
    match signal_chain(file, channel.data, Set::empty(), Seq::empty()) {
        Err(error) => Err(error),
        Ok(data) => entry_cells(data, 0, channel),
    }
}

/// Put the signal data of the block that `bytes` start with behind `collected`.
fn collect_fragment(bytes: &[u8], collected: &mut Vec<u8>) -> (done: Result<(), MdfError>)
    ensures
        match done {
            Ok(()) => signal_fragment(bytes@) is Ok && final(collected)@ == old(collected)@
                + signal_fragment(bytes@)->Ok_0,
            Err(error) => signal_fragment(bytes@) == Err::<Seq<u8>, ErrorView>(error.deep_view()),
        },
{
    let header = BlockHeader::from_bytes(bytes)?;
    if header.is("##SD") {
        let data_len = (header.block_len as usize).saturating_sub(HEADER_LEN);
        let end = HEADER_LEN + data_len;
        if bytes.len() < end {
            return Err(MdfError::TooShortBuffer { actual: bytes.len(), expected: end });
        }
        let ghost before = collected@;
        collected.extend_from_slice(&bytes[HEADER_LEN..end]);
        assert(collected@ =~= before + bytes@.subrange(HEADER_LEN as int, end as int));
        return Ok(());
    }
    if header.is("##DZ") {
        let block = parse_data_fragment(bytes)?;
        let ghost before = collected@;
        collected.extend_from_slice(block.bytes());
        assert(collected@ =~= before + block.deep_view().data);
        return Ok(());
    }
    Err(MdfError::BlockIDError { actual: header.id, expected: "##SD / ##DZ".to_string() })
}

/// An error among the first links is the error of the whole list.
proof fn lemma_listed_error(file: Seq<u8>, links: Seq<u64>, count: int)
    requires
        0 <= count <= links.len(),
        listed_signal(file, links.subrange(0, count)) is Err,
    ensures
        listed_signal(file, links) == listed_signal(file, links.subrange(0, count)),
    decreases links.len() - count,
{
    if count == links.len() {
        assert(links.subrange(0, count) =~= links);
    } else {
        assert(links.subrange(0, count + 1).drop_last() =~= links.subrange(0, count));
        lemma_listed_error(file, links, count + 1);
    }
}

/// Put the signal data that `links` lead to behind `collected`.
fn collect_listed(mmap: &[u8], links: &Vec<u64>, collected: &mut Vec<u8>) -> (done: Result<
    (),
    MdfError,
>)
    ensures
        match done {
            Ok(()) => listed_signal(mmap@, links@) is Ok && final(collected)@ == old(collected)@
                + listed_signal(mmap@, links@)->Ok_0,
            Err(error) => listed_signal(mmap@, links@) == Err::<Seq<u8>, ErrorView>(
                error.deep_view(),
            ),
        },
{
    let ghost before = collected@;
    let mut i: usize = 0;
    assert(links@.subrange(0, 0) =~= Seq::empty());
    assert(before + Seq::<u8>::empty() =~= before);
    while i < links.len()
        invariant
            i <= links.len(),
            listed_signal(mmap@, links@.subrange(0, i as int)) is Ok,
            collected@ == before + listed_signal(mmap@, links@.subrange(0, i as int))->Ok_0,
        decreases links.len() - i,
    {
        let link = links[i];
        let ghost longer = links@.subrange(0, i + 1);
        let ghost known = collected@;
        proof {
            assert(longer.drop_last() =~= links@.subrange(0, i as int));
        }
        if link != 0 {
            let block = match block_at(mmap, link) {
                Ok(block) => block,
                Err(error) => {
                    proof {
                        lemma_listed_error(mmap@, links@, i + 1);
                    }
                    return Err(error);
                },
            };
            match collect_fragment(block, collected) {
                Ok(()) => {
                    assert(collected@ =~= before + listed_signal(mmap@, longer)->Ok_0);
                },
                Err(error) => {
                    proof {
                        lemma_listed_error(mmap@, links@, i + 1);
                    }
                    return Err(error);
                },
            }
        }
        i = i + 1;
    }
    assert(links@.subrange(0, i as int) =~= links@);
    Ok(())
}

/// Collect the signal data of the chain that starts at `address`.
pub fn read_signal_data(mmap: &[u8], address: u64) -> (data: Result<Vec<u8>, MdfError>)
    ensures
        match data {
            Ok(bytes) => signal_chain(mmap@, address, Set::empty(), Seq::empty()) == Ok::<
                Seq<u8>,
                ErrorView,
            >(bytes@),
            Err(error) => signal_chain(mmap@, address, Set::empty(), Seq::empty()) == Err::<
                Seq<u8>,
                ErrorView,
            >(error.deep_view()),
        },
{
    broadcast use vstd::std_specs::hash::group_hash_axioms;

    let mut collected: Vec<u8> = Vec::new();
    let mut current = address;
    let mut visited: HashSet<u64> = HashSet::new();
    while current != 0
        invariant
            signal_chain(mmap@, address, Set::empty(), Seq::empty()) == signal_chain(
                mmap@,
                current,
                visited@,
                collected@,
            ),
        decreases addresses_left(visited@),
    {
        broadcast use vstd::std_specs::hash::group_hash_axioms;

        let ghost seen = visited@;
        let ghost found = collected@;
        if !visited.insert(current) {
            return Err(cycle("data block", current));
        }
        proof {
            lemma_visit_leaves_fewer(seen, current);
        }
        let block = block_at(mmap, current)?;
        let header = BlockHeader::from_bytes(block)?;
        if header.is("##HL") {
            if block.len() < 32 {
                return Err(
                    MdfError::TooShortBuffer {
                        actual: mmap.len(),
                        expected: (current as usize).saturating_add(32),
                    },
                );
            }
            assert(found + Seq::<u8>::empty() =~= found);
            current = read_u64(block, 24);
        } else if header.is("##DL") {
            let list = DataListBlock::from_bytes(block)?;
            collect_listed(mmap, &list.data_links, &mut collected)?;
            current = list.next;
        } else {
            collect_fragment(block, &mut collected)?;
            current = 0;
        }
    }
    Ok(collected)
}

/// Read all values of a channel with values of variable length.
pub fn read_vlsd_cells(mmap: &[u8], channel: &ChannelBlock) -> (values: Result<
    Vec<Option<DecodedValue>>,
    MdfError,
>)
    ensures
        outcome(values) == vlsd_cells(mmap@, channel.deep_view()),
{
    let ghost view = channel.deep_view();
    let data = read_signal_data(mmap, channel.data)?;
    let bytes = data.as_slice();
    let mut values: Vec<Option<DecodedValue>> = Vec::new();
    let mut at: usize = 0;
    assert(values.deep_view() =~= Seq::empty());
    proof {
        if let Ok(all) = entry_cells(bytes@, 0, view) {
            assert(values.deep_view() + all =~= all);
        }
    }
    while at < bytes.len() && bytes.len() - at >= 4
        invariant
            at <= bytes.len(),
            view == channel.deep_view(),
            vlsd_cells(mmap@, view) == entry_cells(bytes@, 0, view),
            match entry_cells(bytes@, at as int, view) {
                Ok(rest) => entry_cells(bytes@, 0, view) == Ok::<
                    Seq<Option<DecodedView>>,
                    ErrorView,
                >(values.deep_view() + rest),
                Err(error) => entry_cells(bytes@, 0, view) == Err::<
                    Seq<Option<DecodedView>>,
                    ErrorView,
                >(error),
            },
        decreases bytes.len() - at,
    {
        let start = at + 4;
        let len = read_u32(bytes, at) as usize;
        if len > bytes.len() - start {
            return Err(
                MdfError::TooShortBuffer {
                    actual: bytes.len(),
                    expected: start.saturating_add(len),
                },
            );
        }
        let end = start + len;
        let value = if channel.flags & 0x01 != 0 {
            None
        } else {
            decode_channel_value(&bytes[start..end], 0, channel)
        };
        let ghost known = values.deep_view();
        values.push(value);
        proof {
            assert(values.deep_view() =~= known.push(value.deep_view()));
            if let Ok(rest) = entry_cells(bytes@, end as int, view) {
                assert(values.deep_view() + rest =~= known + (seq![value.deep_view()] + rest));
            }
        }
        at = end;
    }
    assert(values.deep_view() + Seq::<Option<DecodedView>>::empty() =~= values.deep_view());
    Ok(values)
}

} // verus!
