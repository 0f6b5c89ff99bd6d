//! The layout of a file: its blocks and how they are linked.
use std::collections::HashSet;
use vstd::prelude::*;

use crate::blocks::common::{block_at, block_bytes, header_of, link_at, BlockHeader, HEADER_LEN};
use crate::blocks::identification::{check_identification, parse_identification};
use crate::blocks::identification::IDENTIFICATION_LEN;
use crate::bytes::read_u64;
use crate::error::{outcome, too_short, ErrorView, MdfError};
use crate::parsing::visited::{addresses_left, lemma_visit_leaves_fewer};

verus! {

/// A block in the file.
#[derive(Debug)]
pub struct BlockInfo {
    pub address: u64,
    /// The kind of the block, such as `##DT`.
    pub id: String,
    /// Length of the whole block, header and links included.
    pub block_len: u64,
    /// The addresses that the block links to; 0 for a null link.
    pub links: Vec<u64>,
}

/// The content of a [`BlockInfo`].
pub struct BlockInfoView {
    pub address: u64,
    pub id: Seq<char>,
    pub block_len: u64,
    pub links: Seq<u64>,
}

impl DeepView for BlockInfo {
    type V = BlockInfoView;

    open spec fn deep_view(&self) -> BlockInfoView {
        BlockInfoView {
            address: self.address,
            id: self.id@,
            block_len: self.block_len,
            links: self.links@,
        }
    }
}

/// Every block of a file that its header leads to.
#[derive(Debug)]
pub struct FileLayout {
    /// Length of the file in bytes.
    pub file_size: usize,
    /// The blocks, each before those that only it leads to.
    pub blocks: Vec<BlockInfo>,
}

/// The content of a [`FileLayout`].
pub struct LayoutView {
    pub file_size: nat,
    pub blocks: Seq<BlockInfoView>,
}

impl DeepView for FileLayout {
    type V = LayoutView;

    open spec fn deep_view(&self) -> LayoutView {
        LayoutView { file_size: self.file_size as nat, blocks: self.blocks.deep_view() }
    }
}

/// The block at `address` with its links.
pub open spec fn block_info(file: Seq<u8>, address: u64) -> Result<BlockInfoView, ErrorView> {
    match block_bytes(file, address) {
        Err(error) => Err(error),
        Ok(block) => {
            let header = header_of(block);
            if HEADER_LEN + 8 * header.links_nr > block.len() {
                Err(too_short(block.len() as int, HEADER_LEN + 8 * header.links_nr))
            } else {
                Ok(
                    BlockInfoView {
                        address,
                        id: header.id,
                        block_len: header.block_len,
                        links: Seq::new(header.links_nr as nat, |i: int| link_at(block, i)),
                    },
                )
            }
        },
    }
}

/// Walking the blocks that the `pending` addresses, the last of them first, lead to; the
/// addresses `visited` have been passed and their blocks `found`. A block is followed by what
/// it links to, in the order of its links.
pub open spec fn walked(
    file: Seq<u8>,
    pending: Seq<u64>,
    visited: Set<u64>,
    found: Seq<BlockInfoView>,
) -> Result<Seq<BlockInfoView>, ErrorView>
    decreases addresses_left(visited), pending.len(),
{
    if pending.len() == 0 {
        Ok(found)
    } else {
        let address = pending.last();
        if address == 0 || visited.contains(address) {
            walked(file, pending.drop_last(), visited, found)
        } else {
            match block_info(file, address) {
                Err(error) => Err(error),
                Ok(info) => {
                    proof {
                        lemma_visit_leaves_fewer(visited, address);
                    }
                    walked(
                        file,
                        pending.drop_last() + info.links.reverse(),
                        visited.insert(address),
                        found.push(info),
                    )
                },
            }
        }
    }
}

/// The layout of a file: what the header behind the identification leads to.
pub open spec fn layout(file: Seq<u8>) -> Result<LayoutView, ErrorView> {
    match parse_identification(file) {
        Err(error) => Err(error),
        Ok(_) => match walked(
            file,
            seq![IDENTIFICATION_LEN as u64],
            Set::empty(),
            Seq::empty(),
        ) {
            Err(error) => Err(error),
            Ok(blocks) => Ok(LayoutView { file_size: file.len(), blocks }),
        },
    }
}

/// There is a block at `address`.
pub open spec fn listed(blocks: Seq<BlockInfoView>, address: u64) -> bool {
    exists|i: int| 0 <= i < blocks.len() && (#[trigger] blocks[i]).address == address
}

/// One of the first `count` blocks links to `address`.
pub open spec fn linked(blocks: Seq<BlockInfoView>, count: int, address: u64) -> bool {
    exists|i: int| 0 <= i < count && #[trigger] blocks[i].links.contains(address)
}

/// The blocks are what the file holds at their addresses, no address is listed twice, and a
/// block other than the header is linked to by one before it.
pub open spec fn sound(file: Seq<u8>, blocks: Seq<BlockInfoView>) -> bool {
    &&& forall|i: int|
        0 <= i < blocks.len() ==> {
            &&& block_info(file, (#[trigger] blocks[i]).address) == Ok::<BlockInfoView, ErrorView>(
                blocks[i],
            )
            &&& blocks[i].address == IDENTIFICATION_LEN || linked(blocks, i, blocks[i].address)
        }
    &&& forall|i: int, j: int|
        0 <= i < j < blocks.len() ==> (#[trigger] blocks[i]).address != (
        #[trigger] blocks[j]).address
}

/// The header is listed, and so is every block that a listed one links to.
pub open spec fn complete(blocks: Seq<BlockInfoView>) -> bool {
    &&& listed(blocks, IDENTIFICATION_LEN as u64)
    &&& forall|i: int, link: u64|
        0 <= i < blocks.len() && link != 0 && #[trigger] blocks[i].links.contains(link) ==> listed(
            blocks,
            link,
        )
}

/// What holds at every step of a walk.
spec fn walk_holds(
    file: Seq<u8>,
    pending: Seq<u64>,
    visited: Set<u64>,
    found: Seq<BlockInfoView>,
) -> bool {
    let header = IDENTIFICATION_LEN as u64;
    &&& sound(file, found)
    &&& forall|address: u64| #[trigger] visited.contains(address) <==> listed(found, address)
    &&& visited.contains(header) || pending.contains(header)
    &&& forall|i: int, link: u64|
        0 <= i < found.len() && link != 0 && #[trigger] found[i].links.contains(link)
            ==> visited.contains(link) || pending.contains(link)
    &&& forall|p: int|
        0 <= p < pending.len() ==> #[trigger] pending[p] == header || linked(
            found,
            found.len() as int,
            pending[p],
        )
}

proof fn lemma_skip(
    file: Seq<u8>,
    pending: Seq<u64>,
    visited: Set<u64>,
    found: Seq<BlockInfoView>,
)
    requires
        walk_holds(file, pending, visited, found),
        pending.len() > 0,
        pending.last() == 0 || visited.contains(pending.last()),
    ensures
        walk_holds(file, pending.drop_last(), visited, found),
{
    let rest = pending.drop_last();
    assert forall|address: u64| address != 0 && #[trigger] pending.contains(address)
        && !visited.contains(address) implies rest.contains(address) by {
        let p = choose|p: int| 0 <= p < pending.len() && pending[p] == address;
        assert(rest[p] == address);
    }
    assert forall|p: int| 0 <= p < rest.len() implies #[trigger] rest[p]
        == IDENTIFICATION_LEN as u64 || linked(found, found.len() as int, rest[p]) by {
        assert(rest[p] == pending[p]);
    }
}

/// A block more takes no link away.
proof fn lemma_still_linked(found: Seq<BlockInfoView>, info: BlockInfoView, count: int, address: u64)
    requires
        0 <= count <= found.len(),
        linked(found, count, address),
    ensures
        linked(found.push(info), count, address),
        linked(found.push(info), found.push(info).len() as int, address),
{
    let grown = found.push(info);
    let i = choose|i: int| 0 <= i < count && #[trigger] found[i].links.contains(address);
    assert(grown[i].links.contains(address));
}

/// A block more lists its address besides those listed before.
proof fn lemma_listed_push(found: Seq<BlockInfoView>, info: BlockInfoView, address: u64)
    ensures
        listed(found.push(info), address) <==> listed(found, address) || info.address == address,
{
    let grown = found.push(info);
    if listed(found, address) {
        let i = choose|i: int| 0 <= i < found.len() && (#[trigger] found[i]).address == address;
        assert(grown[i].address == address);
    }
    if info.address == address {
        assert(grown[found.len() as int].address == address);
    }
    if listed(grown, address) && info.address != address {
        let i = choose|i: int| 0 <= i < grown.len() && (#[trigger] grown[i]).address == address;
        assert(found[i].address == address);
    }
}

/// A block at a new address that is the header or linked to keeps the blocks sound.
proof fn lemma_sound_push(file: Seq<u8>, found: Seq<BlockInfoView>, info: BlockInfoView)
    requires
        sound(file, found),
        !listed(found, info.address),
        block_info(file, info.address) == Ok::<BlockInfoView, ErrorView>(info),
        info.address == IDENTIFICATION_LEN || linked(found, found.len() as int, info.address),
    ensures
        sound(file, found.push(info)),
{
    let grown = found.push(info);
    assert forall|i: int| 0 <= i < grown.len() implies {
        &&& block_info(file, (#[trigger] grown[i]).address) == Ok::<BlockInfoView, ErrorView>(
            grown[i],
        )
        &&& grown[i].address == IDENTIFICATION_LEN || linked(grown, i, grown[i].address)
    } by {
        if i < found.len() {
            assert(grown[i] == found[i]);
        }
        if grown[i].address != IDENTIFICATION_LEN {
            lemma_still_linked(found, info, i, grown[i].address);
        }
    }
    assert forall|i: int, j: int| 0 <= i < j < grown.len() implies (#[trigger] grown[i]).address
        != (#[trigger] grown[j]).address by {
        assert(grown[i] == found[i]);
        if j < found.len() {
            assert(grown[j] == found[j]);
        }
    }
}

/// What waits after a visit: all that waited before it but the address visited, and the links.
proof fn lemma_waiting(pending: Seq<u64>, links: Seq<u64>, address: u64)
    requires
        pending.len() > 0,
    ensures
        pending.contains(address) && address != pending.last() ==> (pending.drop_last()
            + links.reverse()).contains(address),
        links.contains(address) ==> (pending.drop_last() + links.reverse()).contains(address),
{
    let rest = pending.drop_last();
    let back = links.reverse();
    let next = rest + back;
    if pending.contains(address) && address != pending.last() {
        let p = choose|p: int| 0 <= p < pending.len() && pending[p] == address;
        assert(next[p] == address);
    }
    if links.contains(address) {
        let l = choose|l: int| 0 <= l < links.len() && links[l] == address;
        assert(back[links.len() - 1 - l] == address);
        assert(next[rest.len() + (links.len() - 1 - l)] == address);
    }
}

proof fn lemma_visit(
    file: Seq<u8>,
    pending: Seq<u64>,
    visited: Set<u64>,
    found: Seq<BlockInfoView>,
    info: BlockInfoView,
)
    requires
        walk_holds(file, pending, visited, found),
        pending.len() > 0,
        pending.last() != 0,
        !visited.contains(pending.last()),
        block_info(file, pending.last()) == Ok::<BlockInfoView, ErrorView>(info),
    ensures
        walk_holds(
            file,
            pending.drop_last() + info.links.reverse(),
            visited.insert(pending.last()),
            found.push(info),
        ),
{
    let address = pending.last();
    let rest = pending.drop_last();
    let next = rest + info.links.reverse();
    let seen = visited.insert(address);
    let grown = found.push(info);
    let header = IDENTIFICATION_LEN as u64;
    assert(info.address == address);
    assert(pending[pending.len() - 1] == address);
    assert(!listed(found, address));
    lemma_sound_push(file, found, info);
    assert forall|a: u64| #[trigger] seen.contains(a) <==> listed(grown, a) by {
        lemma_listed_push(found, info, a);
        assert(visited.contains(a) <==> listed(found, a));
    }
    lemma_waiting(pending, info.links, header);
    assert forall|i: int, link: u64| 0 <= i < grown.len() && link != 0
        && #[trigger] grown[i].links.contains(link) implies seen.contains(link) || next.contains(
        link,
    ) by {
        lemma_waiting(pending, info.links, link);
        if i < found.len() {
            assert(found[i].links.contains(link));
        }
    }
    assert forall|p: int| 0 <= p < next.len() implies #[trigger] next[p] == header || linked(
        grown,
        grown.len() as int,
        next[p],
    ) by {
        if p < rest.len() {
            assert(next[p] == pending[p]);
            if next[p] != header {
                lemma_still_linked(found, info, found.len() as int, next[p]);
            }
        } else {
            let l = info.links.len() - 1 - (p - rest.len());
            assert(next[p] == info.links[l]);
            assert(grown[found.len() as int].links.contains(next[p]));
        }
    }
}

proof fn lemma_walked(
    file: Seq<u8>,
    pending: Seq<u64>,
    visited: Set<u64>,
    found: Seq<BlockInfoView>,
)
    requires
        walk_holds(file, pending, visited, found),
    ensures
        walked(file, pending, visited, found) matches Ok(blocks) ==> sound(file, blocks)
            && complete(blocks),
    decreases addresses_left(visited), pending.len(),
{
    if pending.len() > 0 {
        let address = pending.last();
        if address == 0 || visited.contains(address) {
            lemma_skip(file, pending, visited, found);
            lemma_walked(file, pending.drop_last(), visited, found);
        } else if let Ok(info) = block_info(file, address) {
            lemma_visit(file, pending, visited, found, info);
            lemma_visit_leaves_fewer(visited, address);
            lemma_walked(
                file,
                pending.drop_last() + info.links.reverse(),
                visited.insert(address),
                found.push(info),
            );
        }
    }
}

/// A layout lists every block that can be reached from the header of the file, and no other,
/// and lists each once.
pub proof fn lemma_layout_lists_reachable_blocks(file: Seq<u8>)
    requires
        layout(file) is Ok,
    ensures
        sound(file, layout(file)->Ok_0.blocks),
        complete(layout(file)->Ok_0.blocks),
{
    let pending = seq![IDENTIFICATION_LEN as u64];
    assert(pending[0] == IDENTIFICATION_LEN as u64);
    lemma_walked(file, pending, Set::empty(), Seq::empty());
}

/// Read the block at `address` with its links.
pub fn read_block_info(mmap: &[u8], address: u64) -> (info: Result<BlockInfo, MdfError>)
    ensures
        outcome(info) == block_info(mmap@, address),
{
    let block = block_at(mmap, address)?;
    let header = BlockHeader::from_bytes(block)?;
    let room = (block.len() - HEADER_LEN) / 8;
    if header.links_nr > room as u64 {
        let needed: u128 = 24 + 8 * header.links_nr as u128;
        let expected = if needed > usize::MAX as u128 { usize::MAX } else { needed as usize };
        return Err(MdfError::TooShortBuffer { actual: block.len(), expected });
    }
    let count = header.links_nr as usize;
    let mut links: Vec<u64> = Vec::new();
    let mut i: usize = 0;
    while i < count
        invariant
            i <= count <= room,
            room == (block.len() - HEADER_LEN) / 8,
            HEADER_LEN <= block.len(),
            links@ == Seq::new(i as nat, |k: int| link_at(block@, k)),
        decreases count - i,
    {
        links.push(read_u64(block, HEADER_LEN + 8 * i));
        i = i + 1;
    }
    Ok(BlockInfo { address, id: header.id, block_len: header.block_len, links })
}

/// Put the links behind the pending addresses, so that the first link is the last address.
fn push_links(pending: &mut Vec<u64>, links: &Vec<u64>)
    ensures
        final(pending)@ == old(pending)@ + links@.reverse(),
{
    let ghost before = pending@;
    let mut i: usize = links.len();
    while i > 0
        invariant
            i <= links.len(),
            pending@ =~= before + links@.subrange(i as int, links.len() as int).reverse(),
        decreases i,
    {
        i = i - 1;
        pending.push(links[i]);
    }
    assert(links@.subrange(0, links.len() as int) =~= links@);
}

impl FileLayout {
    /// Find every block that the header of a file leads to.
    pub fn from_bytes(bytes: &[u8]) -> (found: Result<Self, MdfError>)
        ensures
            outcome(found) == layout(bytes@),
    {
        broadcast use vstd::std_specs::hash::group_hash_axioms;

        check_identification(bytes)?;
        let mut blocks: Vec<BlockInfo> = Vec::new();
        let mut visited: HashSet<u64> = HashSet::new();
        let mut pending: Vec<u64> = Vec::new();
        pending.push(IDENTIFICATION_LEN as u64);
        let ghost start = pending@;
        assert(blocks.deep_view() =~= Seq::empty());
        assert(start =~= seq![IDENTIFICATION_LEN as u64]);
        while pending.len() > 0
            invariant
                walked(bytes@, start, Set::empty(), Seq::empty()) == walked(
                    bytes@,
                    pending@,
                    visited@,
                    blocks.deep_view(),
                ),
                start == seq![IDENTIFICATION_LEN as u64],
                parse_identification(bytes@) is Ok,
            decreases addresses_left(visited@), pending.len(),
        {
            broadcast use vstd::std_specs::hash::group_hash_axioms;

            let ghost waiting = pending@;
            let ghost seen = visited@;
            let ghost found = blocks.deep_view();
            let address = pending[pending.len() - 1];
            pending.pop();
            assert(pending@ =~= waiting.drop_last());
            if address != 0 && !visited.contains(&address) {
                let info = read_block_info(bytes, address)?;
                let ghost view = info.deep_view();
                visited.insert(address);
                push_links(&mut pending, &info.links);
                blocks.push(info);
                proof {
                    lemma_visit_leaves_fewer(seen, address);
                    assert(blocks.deep_view() =~= found.push(view));
                }
            }
        }
        Ok(FileLayout { file_size: bytes.len(), blocks })
    }
}

} // verus!
