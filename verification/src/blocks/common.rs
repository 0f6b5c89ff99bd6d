//! What all blocks share: the header, and texts kept in blocks of their own.
use vstd::prelude::*;
use vstd::utf8::encode_utf8;

use crate::bytes::{read_u32, read_u64, u32_at, u64_at};
use crate::error::{outcome, too_short, ErrorView, MdfError};
use crate::text::{decode_text, decoded_text, lemma_stored_text, same_text};

verus! {

/// Every block starts with a header of this many bytes.
pub const HEADER_LEN: usize = 24;

/// The header of a block.
#[derive(Debug)]
pub struct BlockHeader {
    /// The kind of the block, such as `##DT`.
    pub id: String,
    pub reserved0: u32,
    /// Length of the whole block, header and links included.
    pub block_len: u64,
    /// How many links follow the header.
    pub links_nr: u64,
}

/// The content of a [`BlockHeader`].
pub struct HeaderView {
    pub id: Seq<char>,
    pub reserved0: u32,
    pub block_len: u64,
    pub links_nr: u64,
}

impl DeepView for BlockHeader {
    type V = HeaderView;

    open spec fn deep_view(&self) -> HeaderView {
        HeaderView {
            id: self.id@,
            reserved0: self.reserved0,
            block_len: self.block_len,
            links_nr: self.links_nr,
        }
    }
}

/// The header that the first bytes of `s` hold.
pub open spec fn header_of(s: Seq<u8>) -> HeaderView {
    HeaderView {
        id: decoded_text(s.subrange(0, 4)),
        reserved0: u32_at(s, 4),
        block_len: u64_at(s, 8),
        links_nr: u64_at(s, 16),
    }
}

/// Reading a header from the front of `s`.
pub open spec fn parse_header(s: Seq<u8>) -> Result<HeaderView, ErrorView> {
    if s.len() < HEADER_LEN {
        Err(too_short(s.len() as int, HEADER_LEN as int))
    } else {
        Ok(header_of(s))
    }
}

impl BlockHeader {
    /// Read the header at the front of `bytes`.
    pub fn from_bytes(bytes: &[u8]) -> (header: Result<Self, MdfError>)
        ensures
            outcome(header) == parse_header(bytes@),
    {
        if bytes.len() < HEADER_LEN {
            return Err(MdfError::TooShortBuffer { actual: bytes.len(), expected: HEADER_LEN });
        }
        Ok(
            BlockHeader {
                id: decode_text(&bytes[0..4]),
                reserved0: read_u32(bytes, 4),
                block_len: read_u64(bytes, 8),
                links_nr: read_u64(bytes, 16),
            },
        )
    }

    /// Whether the block is of the kind `id`.
    pub fn is(&self, id: &str) -> (same: bool)
        ensures
            same == (self.deep_view().id == id@),
    {
        same_text(self.id.as_str(), id)
    }
}

/// How many of the first bytes of `s` come before the first zero.
pub open spec fn text_len(s: Seq<u8>) -> nat
    decreases s.len(),
{
    if s.len() == 0 || s[0] == 0 {
        0
    } else {
        1 + text_len(s.drop_first())
    }
}

/// The text of a text block: what precedes the first zero byte.
pub open spec fn zero_terminated(s: Seq<u8>) -> Seq<char> {
    decoded_text(s.subrange(0, text_len(s) as int))
}

/// Length of what follows the header of a block.
pub open spec fn body_len(header: HeaderView) -> int {
    if header.block_len as usize >= HEADER_LEN {
        header.block_len as usize - HEADER_LEN
    } else {
        0
    }
}

/// The bytes from the block at `address` to the end of the file.
pub open spec fn block_bytes(file: Seq<u8>, address: u64) -> Result<Seq<u8>, ErrorView> {
    let offset = address as usize as int;
    if offset + HEADER_LEN > file.len() {
        Err(too_short(file.len() as int, offset + HEADER_LEN))
    } else {
        Ok(file.subrange(offset, file.len() as int))
    }
}

/// Where the data section of a block of the kind `id` starts: behind the header and the
/// links, of which there are at least `min_links`. The section has at least `data_len` bytes.
pub open spec fn data_section(
    s: Seq<u8>,
    id: Seq<char>,
    min_links: nat,
    data_len: nat,
) -> Result<int, ErrorView> {
    if s.len() < HEADER_LEN {
        Err(too_short(s.len() as int, HEADER_LEN as int))
    } else {
        let header = header_of(s);
        let start = HEADER_LEN + 8 * header.links_nr;
        if header.id != id {
            Err(ErrorView::BlockIDError { actual: header.id, expected: id })
        } else if header.links_nr < min_links {
            Err(ErrorView::BlockLinkError("block with too few links"@))
        } else if start + data_len > s.len() {
            Err(too_short(s.len() as int, start + data_len))
        } else {
            Ok(start)
        }
    }
}

/// The `index`-th link of the block that `s` starts with.
pub open spec fn link_at(s: Seq<u8>, index: int) -> u64 {
    u64_at(s, HEADER_LEN + 8 * index)
}

/// The text that the block at `address` holds: nothing for a null link or for a block that
/// is neither a text block (`##TX`) nor a metadata block (`##MD`).
pub open spec fn string_block(file: Seq<u8>, address: u64) -> Result<Option<Seq<char>>, ErrorView> {
    if address == 0 {
        Ok(None)
    } else {
        match block_bytes(file, address) {
            Err(error) => Err(error),
            Ok(block) => {
                let header = header_of(block);
                let end = HEADER_LEN + body_len(header);
                if header.id != "##TX"@ && header.id != "##MD"@ {
                    Ok(None)
                } else if end > block.len() {
                    Err(too_short(block.len() as int, end))
                } else {
                    Ok(Some(zero_terminated(block.subrange(HEADER_LEN as int, end))))
                }
            },
        }
    }
}

/// What precedes the first zero byte of a text that is filled up with zeros is the text.
proof fn lemma_text_len(text: Seq<u8>, padding: Seq<u8>)
    requires
        forall|i: int| 0 <= i < text.len() ==> #[trigger] text[i] != 0,
        forall|i: int| 0 <= i < padding.len() ==> #[trigger] padding[i] == 0,
    ensures
        text_len(text + padding) == text.len(),
    decreases text.len(),
{
    if text.len() > 0 {
        lemma_text_len(text.drop_first(), padding);
        assert((text + padding).drop_first() =~= text.drop_first() + padding);
        assert((text + padding)[0] == text[0]);
    } else if padding.len() > 0 {
        assert((text + padding)[0] == padding[0]);
    }
}

/// A text block that holds a text in UTF-8, filled up with zeros, is read as that text.
pub proof fn lemma_text_block_is_read(
    file: Seq<u8>,
    address: u64,
    text: Seq<char>,
    padding: Seq<u8>,
)
    requires
        address != 0,
        block_bytes(file, address) matches Ok(block) && {
            let header = header_of(block);
            let end = HEADER_LEN + body_len(header);
            &&& header.id == "##TX"@ || header.id == "##MD"@
            &&& end <= block.len()
            &&& block.subrange(HEADER_LEN as int, end) == encode_utf8(text) + padding
        },
        forall|i: int| 0 <= i < encode_utf8(text).len() ==> #[trigger] encode_utf8(text)[i] != 0,
        forall|i: int| 0 <= i < padding.len() ==> #[trigger] padding[i] == 0,
    ensures
        string_block(file, address) == Ok::<Option<Seq<char>>, ErrorView>(Some(text)),
{
    let stored = encode_utf8(text);
    lemma_text_len(stored, padding);
    assert((stored + padding).subrange(0, stored.len() as int) =~= stored);
    lemma_stored_text(text);
}

/// The bytes from the block at `address` to the end of the file.
pub fn block_at<'a>(mmap: &'a [u8], address: u64) -> (block: Result<&'a [u8], MdfError>)
    ensures
        match block {
            Ok(bytes) => block_bytes(mmap@, address) == Ok::<Seq<u8>, ErrorView>(bytes@),
            Err(error) => block_bytes(mmap@, address) == Err::<Seq<u8>, ErrorView>(
                error.deep_view(),
            ),
        },
{
    let offset = address as usize;
    if mmap.len() < HEADER_LEN || offset > mmap.len() - HEADER_LEN {
        return Err(
            MdfError::TooShortBuffer {
                actual: mmap.len(),
                expected: offset.saturating_add(HEADER_LEN),
            },
        );
    }
    Ok(&mmap[offset..mmap.len()])
}

/// Check that `bytes` start with a block of the kind `id`, and find its data section.
pub fn open_block(bytes: &[u8], id: &str, min_links: u64, data_len: usize) -> (start: Result<
    usize,
    MdfError,
>)
    ensures
        match start {
            Ok(at) => data_section(bytes@, id@, min_links as nat, data_len as nat) == Ok::<
                int,
                ErrorView,
            >(at as int),
            Err(error) => data_section(bytes@, id@, min_links as nat, data_len as nat) == Err::<
                int,
                ErrorView,
            >(error.deep_view()),
        },
{
    let header = BlockHeader::from_bytes(bytes)?;
    if !header.is(id) {
        return Err(MdfError::BlockIDError { actual: header.id, expected: id.to_string() });
    }
    if header.links_nr < min_links {
        return Err(MdfError::BlockLinkError("block with too few links".to_string()));
    }
    let start: u128 = 24 + 8 * header.links_nr as u128;
    let needed: u128 = start + data_len as u128;
    if needed > bytes.len() as u128 {
        let expected = if needed > usize::MAX as u128 { usize::MAX } else { needed as usize };
        return Err(MdfError::TooShortBuffer { actual: bytes.len(), expected });
    }
    Ok(start as usize)
}

fn text_end(bytes: &[u8]) -> (end: usize)
    ensures
        end == text_len(bytes@),
        end <= bytes.len(),
{
    let mut i: usize = 0;
    assert(bytes@.subrange(0, bytes.len() as int) =~= bytes@);
    while i < bytes.len() && bytes[i] != 0
        invariant
            i <= bytes.len(),
            text_len(bytes@) == i + text_len(bytes@.subrange(i as int, bytes.len() as int)),
        decreases bytes.len() - i,
    {
        assert(bytes@.subrange(i as int, bytes.len() as int).drop_first() =~= bytes@.subrange(
            i + 1,
            bytes.len() as int,
        ));
        i = i + 1;
    }
    i
}

/// Read the text that the block at `address` holds.
pub fn read_string_block(mmap: &[u8], address: u64) -> (text: Result<Option<String>, MdfError>)
    ensures
        outcome(text) == string_block(mmap@, address),
{
    if address == 0 {
        return Ok(None);
    }
    let block = block_at(mmap, address)?;
    let header = BlockHeader::from_bytes(block)?;
    if !header.is("##TX") && !header.is("##MD") {
        return Ok(None);
    }
    let data_len = (header.block_len as usize).saturating_sub(HEADER_LEN);
    let needed = HEADER_LEN + data_len;
    if needed > block.len() {
        return Err(MdfError::TooShortBuffer { actual: block.len(), expected: needed });
    }
    let data = &block[HEADER_LEN..needed];
    let end = text_end(data);
    Ok(Some(decode_text(&data[0..end])))
}

} // verus!
