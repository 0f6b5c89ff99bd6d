//! What holds of chains of data blocks.
use vstd::prelude::*;

use crate::blocks::common::{block_bytes, body_len, header_of};
use crate::blocks::data_block::DataBlockView;
use crate::blocks::data_list_block::parse_data_list;
use crate::bytes::u64_at;
use crate::error::ErrorView;
use crate::parsing::raw_data_group::{chain_step, data_chain, group_data_blocks, list_fragments};
use crate::parsing::raw_data_group::DataGroupView;
use crate::parsing::visited::{addresses_left, lemma_visit_leaves_fewer};

verus! {

/// The address behind the `index`-th of `path`; 0 behind the last.
pub open spec fn following(path: Seq<u64>, index: int) -> u64 {
    if index + 1 < path.len() {
        path[index + 1]
    } else {
        0
    }
}

/// `path` starts at `first`, follows the links from block to block without coming back to
/// an address, and ends at a null link.
pub open spec fn is_chain(file: Seq<u8>, first: u64, path: Seq<u64>) -> bool {
    &&& first == following(path, -1)
    &&& path.no_duplicates()
    &&& forall|i: int|
        0 <= i < path.len() ==> #[trigger] path[i] != 0 && (chain_step(file, path[i]) matches Ok(
            step,
        ) && step.1 == following(path, i))
}

/// The data blocks that the blocks along `path` contribute, in order.
pub open spec fn along(file: Seq<u8>, path: Seq<u64>) -> Seq<DataBlockView>
    decreases path.len(),
{
    if path.len() == 0 {
        Seq::empty()
    } else {
        chain_step(file, path[0])->Ok_0.0 + along(file, path.drop_first())
    }
}

/// What follows the first address of a chain is a chain.
proof fn lemma_chain_tail(file: Seq<u8>, first: u64, path: Seq<u64>)
    requires
        is_chain(file, first, path),
        path.len() > 0,
    ensures
        is_chain(file, chain_step(file, first)->Ok_0.1, path.drop_first()),
{
    let rest = path.drop_first();
    assert(path[0] == first);
    assert forall|i: int| 0 <= i < rest.len() implies {
        &&& #[trigger] rest[i] != 0
        &&& chain_step(file, rest[i]) matches Ok(next) && next.1 == following(rest, i)
    } by {
        assert(rest[i] == path[i + 1]);
    }
    assert forall|i: int, j: int|
        0 <= i < rest.len() && 0 <= j < rest.len() && i != j implies rest[i] != rest[j] by {
        assert(path[i + 1] != path[j + 1]);
    }
}

proof fn lemma_chain_from(
    file: Seq<u8>,
    first: u64,
    path: Seq<u64>,
    visited: Set<u64>,
    found: Seq<DataBlockView>,
)
    requires
        is_chain(file, first, path),
        forall|i: int| 0 <= i < path.len() ==> !visited.contains(#[trigger] path[i]),
    ensures
        data_chain(file, first, visited, found) == Ok::<Seq<DataBlockView>, ErrorView>(
            found + along(file, path),
        ),
    decreases path.len(),
{
    if path.len() == 0 {
        assert(found + along(file, path) =~= found);
    } else {
        let rest = path.drop_first();
        let step = chain_step(file, path[0])->Ok_0;
        lemma_chain_tail(file, first, path);
        assert(path[0] == first);
        assert forall|i: int| 0 <= i < rest.len() implies !visited.insert(first).contains(
            #[trigger] rest[i],
        ) by {
            assert(rest[i] == path[i + 1]);
        }
        lemma_chain_from(file, step.1, rest, visited.insert(first), found + step.0);
        assert(found + step.0 + along(file, rest) =~= found + along(file, path));
    }
}

proof fn lemma_path_of(
    file: Seq<u8>,
    first: u64,
    visited: Set<u64>,
    found: Seq<DataBlockView>,
) -> (path: Seq<u64>)
    requires
        data_chain(file, first, visited, found) is Ok,
    ensures
        is_chain(file, first, path),
        forall|i: int| 0 <= i < path.len() ==> !visited.contains(#[trigger] path[i]),
    decreases addresses_left(visited),
{
    if first == 0 {
        Seq::empty()
    } else {
        lemma_visit_leaves_fewer(visited, first);
        let step = chain_step(file, first)->Ok_0;
        let rest = lemma_path_of(file, step.1, visited.insert(first), found + step.0);
        let path = seq![first] + rest;
        assert forall|i: int| 0 <= i < path.len() implies {
            &&& #[trigger] path[i] != 0
            &&& !visited.contains(path[i])
            &&& chain_step(file, path[i]) matches Ok(next) && next.1 == following(path, i)
        } by {
            if i > 0 {
                assert(path[i] == rest[i - 1]);
            }
        }
        assert(path.no_duplicates()) by {
            assert forall|i: int, j: int| 0 <= i < j < path.len() implies path[i] != path[j] by {
                assert(path[j] == rest[j - 1]);
                if i > 0 {
                    assert(path[i] == rest[i - 1]);
                }
            }
        }
        path
    }
}

/// The data blocks of a group that is not refused can be read exactly when its data link
/// leads along a chain, and they are what the chain contributes, in the order of the chain.
pub proof fn lemma_data_blocks_follow_chain(group: DataGroupView, file: Seq<u8>)
    requires
        group.block.record_id_len == 0 || group.channel_groups.len() <= 1,
    ensures
        forall|path: Seq<u64>| #[trigger]
            is_chain(file, group.block.data_block_addr, path) ==> group_data_blocks(group, file)
                == Ok::<Seq<DataBlockView>, ErrorView>(along(file, path)),
        group_data_blocks(group, file) is Ok ==> exists|path: Seq<u64>| #[trigger]
            is_chain(file, group.block.data_block_addr, path),
{
    let first = group.block.data_block_addr;
    assert forall|path: Seq<u64>| #[trigger] is_chain(file, first, path) implies group_data_blocks(
        group,
        file,
    ) == Ok::<Seq<DataBlockView>, ErrorView>(along(file, path)) by {
        lemma_chain_from(file, first, path, Set::empty(), Seq::empty());
        assert(Seq::<DataBlockView>::empty() + along(file, path) =~= along(file, path));
    }
    if group_data_blocks(group, file) is Ok {
        let path = lemma_path_of(file, first, Set::empty(), Seq::empty());
    }
}

/// An address that leads to a chain is not on it, and comes before it.
proof fn lemma_chain_head(file: Seq<u8>, first: u64, rest: Seq<u64>)
    requires
        first != 0,
        chain_step(file, first) is Ok,
        is_chain(file, chain_step(file, first)->Ok_0.1, rest),
    ensures
        is_chain(file, first, seq![first] + rest),
{
    let path = seq![first] + rest;
    assert(!rest.contains(first)) by {
        if rest.contains(first) {
            let i = choose|i: int| 0 <= i < rest.len() && rest[i] == first;
            assert(following(rest, i) == rest[0]);
            assert(rest[0] != 0);
            assert(rest[i + 1] == rest[0]);
        }
    }
    assert forall|i: int| 0 <= i < path.len() implies {
        &&& #[trigger] path[i] != 0
        &&& chain_step(file, path[i]) matches Ok(next) && next.1 == following(path, i)
    } by {
        if i > 0 {
            assert(path[i] == rest[i - 1]);
        }
    }
    assert forall|i: int, j: int| 0 <= i < j < path.len() implies path[i] != path[j] by {
        assert(path[j] == rest[j - 1]);
        if i > 0 {
            assert(path[i] == rest[i - 1]);
        } else {
            assert(rest.contains(rest[j - 1]));
        }
    }
}

/// The step at a list header contributes nothing and goes on at its link.
proof fn lemma_list_header_step(file: Seq<u8>, address: u64)
    requires
        block_bytes(file, address) matches Ok(header) && header_of(header).id == "##HL"@
            && header.len() >= 32,
    ensures
        chain_step(file, address) == Ok::<(Seq<DataBlockView>, u64), ErrorView>(
            (Seq::empty(), u64_at(block_bytes(file, address)->Ok_0, 24)),
        ),
{
    reveal_strlit("##HL");
    reveal_strlit("##DT");
    reveal_strlit("##DV");
    reveal_strlit("##DZ");
    assert("##HL"@[2] == 'H' && "##DT"@[2] == 'D' && "##DV"@[2] == 'D' && "##DZ"@[2] == 'D');
}

/// A list header contributes nothing: the data blocks of a group whose data link leads to
/// one can be read exactly when those from the list on can that it leads to, and then they
/// are the same.
pub proof fn lemma_list_header_is_transparent(
    group: DataGroupView,
    inner: DataGroupView,
    file: Seq<u8>,
)
    requires
        inner.channel_groups == group.channel_groups,
        inner.block.record_id_len == group.block.record_id_len,
        group.block.data_block_addr != 0,
        block_bytes(file, group.block.data_block_addr) matches Ok(header) && header_of(header).id
            == "##HL"@ && header.len() >= 32 && inner.block.data_block_addr == u64_at(header, 24),
    ensures
        group_data_blocks(group, file) is Ok <==> group_data_blocks(inner, file) is Ok,
        group_data_blocks(group, file) is Ok ==> group_data_blocks(group, file)
            == group_data_blocks(inner, file),
{
    let first = group.block.data_block_addr;
    let second = inner.block.data_block_addr;
    lemma_list_header_step(file, first);
    if group.block.record_id_len == 0 || group.channel_groups.len() <= 1 {
        lemma_data_blocks_follow_chain(group, file);
        lemma_data_blocks_follow_chain(inner, file);
        if group_data_blocks(group, file) is Ok {
            let path = choose|path: Seq<u64>| #[trigger] is_chain(file, first, path);
            lemma_chain_tail(file, first, path);
            assert(path[0] == first);
            assert(along(file, path) =~= along(file, path.drop_first()));
        }
        if group_data_blocks(inner, file) is Ok {
            let rest = choose|rest: Seq<u64>| #[trigger] is_chain(file, second, rest);
            lemma_chain_head(file, first, rest);
        }
    }
}

/// A plain block whose data is as long as its header says, or an inflated one.
pub open spec fn is_data(block: DataBlockView) -> bool {
    ||| (block.header.id == "##DT"@ || block.header.id == "##DV"@) && block.data.len() == body_len(
        block.header,
    )
    ||| block.header.id == "##DZ"@
}

proof fn lemma_listed_are_data(file: Seq<u8>, links: Seq<u64>)
    ensures
        list_fragments(file, links) matches Ok(blocks) ==> forall|i: int|
            0 <= i < blocks.len() ==> is_data(#[trigger] blocks[i]),
    decreases links.len(),
{
    if links.len() > 0 {
        lemma_listed_are_data(file, links.drop_last());
    }
}

proof fn lemma_chained_are_data(
    file: Seq<u8>,
    address: u64,
    visited: Set<u64>,
    found: Seq<DataBlockView>,
)
    requires
        forall|i: int| 0 <= i < found.len() ==> is_data(#[trigger] found[i]),
    ensures
        data_chain(file, address, visited, found) matches Ok(blocks) ==> forall|i: int|
            0 <= i < blocks.len() ==> is_data(#[trigger] blocks[i]),
    decreases addresses_left(visited),
{
    if address != 0 && !visited.contains(address) {
        if let Ok(step) = chain_step(file, address) {
            if let Ok(list) = parse_data_list(block_bytes(file, address)->Ok_0) {
                lemma_listed_are_data(file, list.data_links);
            }
            lemma_visit_leaves_fewer(visited, address);
            lemma_chained_are_data(file, step.1, visited.insert(address), found + step.0);
        }
    }
}

/// The data blocks of a group are plain ones or inflated ones: lists and list headers are
/// followed, and never handed out.
pub proof fn lemma_data_blocks_are_data(group: DataGroupView, file: Seq<u8>)
    ensures
        group_data_blocks(group, file) matches Ok(blocks) ==> forall|i: int|
            0 <= i < blocks.len() ==> is_data(#[trigger] blocks[i]),
{
    lemma_chained_are_data(file, group.block.data_block_addr, Set::empty(), Seq::empty());
}

/// Null links in a list of fragments make no difference.
pub proof fn lemma_null_links_are_skipped(file: Seq<u8>, links: Seq<u64>)
    ensures
        list_fragments(file, links) == list_fragments(file, links.filter(|link: u64| link != 0)),
    decreases links.len(),
{
    let set = |link: u64| link != 0;
    reveal(Seq::filter);
    if links.len() > 0 {
        lemma_null_links_are_skipped(file, links.drop_last());
        let before = links.drop_last().filter(set);
        if links.last() != 0 {
            assert(links.filter(set) =~= before.push(links.last()));
            assert(before.push(links.last()).drop_last() =~= before);
        }
    }
}

} // verus!
