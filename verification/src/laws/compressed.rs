//! Compressed blocks: what a compressor packed is unpacked.
use vstd::arithmetic::div_mod::lemma_fundamental_div_mod_converse;
use vstd::prelude::*;

use crate::blocks::data_block::parse_data_block;
use crate::blocks::common::header_of;
use crate::error::ErrorView;
use crate::laws::blocks::fails_with;
use crate::laws::encoding::{holds_block, le_bytes, lemma_block_is_read_back};
use crate::laws::encoding::{lemma_u32_is_read_back, lemma_u64_is_read_back};
use crate::parsing::compressed::{data_fragment, lemma_untransposed_transposed, transposed};
use crate::parsing::compressed::{untransposed, zlib_inflated};
use crate::text::decimal;

verus! {

/// Rows of `cols` bytes are stored column by column: byte `col` of row `line` stands at place
/// `line` of column `col`. A tail that is shorter than a row keeps its place.
pub proof fn lemma_transposed_by_columns(original: Seq<u8>, cols: nat, line: int, col: int, k: int)
    requires
        0 < cols <= original.len(),
    ensures
        transposed(original, cols).len() == original.len(),
        0 <= line < original.len() / cols && 0 <= col < cols ==> transposed(original, cols)[col * (
        original.len() / cols) + line] == original[line * cols + col],
        (original.len() / cols) * cols <= k < original.len() ==> transposed(original, cols)[k]
            == original[k],
{
    let lines = (original.len() / cols) as int;
    if 0 <= line < lines && 0 <= col < cols {
        let place = col * lines + line;
        lemma_fundamental_div_mod_converse(place, lines, col, line);
        assert(0 <= place < lines * cols) by (nonlinear_arith)
            requires
                0 <= line < lines,
                0 <= col,
                col + 1 <= cols,
                place == col * lines + line,
        ;
        assert(lines * cols <= original.len()) by (nonlinear_arith)
            requires
                0 < cols,
                lines == (original.len() / cols) as int,
        ;
    }
}

/// Untransposing takes byte `col` of row `line` from place `line` of column `col`, and keeps
/// the tail.
pub proof fn lemma_untransposed_by_rows(
    stored: Seq<u8>,
    cols: nat,
    org_len: nat,
    line: int,
    col: int,
    k: int,
)
    requires
        0 < cols <= stored.len(),
        (org_len / cols) * cols <= stored.len(),
    ensures
        untransposed(stored, cols, org_len).len() == stored.len(),
        0 <= line < org_len / cols && 0 <= col < cols ==> untransposed(stored, cols, org_len)[line
            * cols + col] == stored[col * (org_len / cols) + line],
        (org_len / cols) * cols <= k < stored.len() ==> untransposed(stored, cols, org_len)[k]
            == stored[k],
{
    let lines = (org_len / cols) as int;
    if 0 <= line < lines && 0 <= col < cols {
        let place = line * cols + col;
        lemma_fundamental_div_mod_converse(place, cols as int, line, col);
        assert(0 <= place < lines * cols) by (nonlinear_arith)
            requires
                0 <= line,
                line + 1 <= lines,
                0 <= col < cols,
                place == line * cols + col,
        ;
    }
}

/// What is shorter than a row, or has no columns, is kept as it is.
pub proof fn lemma_short_data_is_kept(bytes: Seq<u8>, cols: nat, org_len: nat)
    requires
        cols == 0 || bytes.len() < cols,
    ensures
        transposed(bytes, cols) == bytes,
        untransposed(bytes, cols, org_len) == bytes,
{
}

/// `data` is what a compressed block holds behind its header: the kind of the original block,
/// the kind of compression, the number of columns, the length of the original, the length of
/// the payload, and the payload.
pub open spec fn holds_packed(
    data: Seq<u8>,
    zip_type: u8,
    columns: u32,
    original_len: nat,
    payload: Seq<u8>,
) -> bool {
    &&& original_len <= usize::MAX
    &&& payload.len() <= usize::MAX
    &&& data.len() == 24 + payload.len()
    &&& data[2] == zip_type
    &&& data.subrange(4, 8) == le_bytes(columns as nat, 4)
    &&& data.subrange(8, 16) == le_bytes(original_len, 8)
    &&& data.subrange(16, 24) == le_bytes(payload.len(), 8)
    &&& data.subrange(24, 24 + payload.len() as int) == payload
}

/// The fields of a compressed block are found where they were written.
proof fn lemma_packed_fields(
    s: Seq<u8>,
    reserved: u32,
    block_len: u64,
    data: Seq<u8>,
    zip_type: u8,
    columns: u32,
    original_len: nat,
    payload: Seq<u8>,
)
    requires
        holds_block(s, "##DZ"@, reserved, block_len, Seq::empty(), data),
        holds_packed(data, zip_type, columns, original_len, payload),
    ensures
        header_of(s).id == "##DZ"@,
        s.len() >= 48 + payload.len(),
        s[26] == zip_type,
        crate::bytes::u32_at(s, 28) == columns,
        crate::bytes::u64_at(s, 32) == original_len,
        crate::bytes::u64_at(s, 40) == payload.len(),
        s.subrange(48, 48 + payload.len() as int) == payload,
{
    lemma_block_is_read_back(s, "##DZ"@, reserved, block_len, Seq::empty(), data);
    assert(data[2] == s[26]);
    assert(data.subrange(4, 8) == s.subrange(28, 32));
    assert(data.subrange(8, 16) == s.subrange(32, 40));
    assert(data.subrange(16, 24) == s.subrange(40, 48));
    assert(data.subrange(24, 24 + payload.len() as int) == s.subrange(48, 48 + payload.len() as int));
    lemma_u32_is_read_back(s, 28, columns);
    lemma_u64_is_read_back(s, 32, original_len as u64);
    lemma_u64_is_read_back(s, 40, payload.len() as u64);
}

/// A payload that inflates to the transpose of some data is read as that data, for any number
/// of columns.
pub proof fn lemma_transposed_block_is_unpacked(
    s: Seq<u8>,
    reserved: u32,
    block_len: u64,
    data: Seq<u8>,
    columns: u32,
    original: Seq<u8>,
    payload: Seq<u8>,
)
    requires
        holds_block(s, "##DZ"@, reserved, block_len, Seq::empty(), data),
        holds_packed(data, 1, columns, original.len(), payload),
        zlib_inflated(payload) == Ok::<Seq<u8>, Seq<char>>(transposed(original, columns as nat)),
    ensures
        data_fragment(s) matches Ok(block) && block.data == original && block.header.id == "##DZ"@
            && block.header.block_len == block_len,
{
    lemma_packed_fields(s, reserved, block_len, data, 1, columns, original.len(), payload);
    lemma_block_is_read_back(s, "##DZ"@, reserved, block_len, Seq::empty(), data);
    lemma_untransposed_transposed(original, columns as nat);
    assert(transposed(original, columns as nat).len() == original.len());
}

/// A payload that inflates to some data is read as that data where nothing was transposed.
pub proof fn lemma_deflated_block_is_unpacked(
    s: Seq<u8>,
    reserved: u32,
    block_len: u64,
    data: Seq<u8>,
    columns: u32,
    original: Seq<u8>,
    payload: Seq<u8>,
)
    requires
        holds_block(s, "##DZ"@, reserved, block_len, Seq::empty(), data),
        holds_packed(data, 0, columns, original.len(), payload),
        zlib_inflated(payload) == Ok::<Seq<u8>, Seq<char>>(original),
    ensures
        data_fragment(s) matches Ok(block) && block.data == original && block.header.id == "##DZ"@
            && block.header.block_len == block_len,
{
    lemma_packed_fields(s, reserved, block_len, data, 0, columns, original.len(), payload);
    lemma_block_is_read_back(s, "##DZ"@, reserved, block_len, Seq::empty(), data);
}

/// A compressed block is refused where its payload does not inflate, inflates to another
/// length than stated, or is compressed in an unknown way.
pub proof fn lemma_broken_block_is_refused(
    s: Seq<u8>,
    reserved: u32,
    block_len: u64,
    data: Seq<u8>,
    zip_type: u8,
    columns: u32,
    original_len: nat,
    payload: Seq<u8>,
)
    requires
        holds_block(s, "##DZ"@, reserved, block_len, Seq::empty(), data),
        holds_packed(data, zip_type, columns, original_len, payload),
        zip_type > 1 || zlib_inflated(payload) is Err || zlib_inflated(payload)->Ok_0.len()
            != original_len,
    ensures
        data_fragment(s) matches Err(error) && error is BlockSerializationError,
        zlib_inflated(payload) matches Err(reason) ==> fails_with(
            data_fragment(s),
            ErrorView::BlockSerializationError("DZ inflate failed: "@ + reason),
        ),
        zlib_inflated(payload) is Ok && zip_type > 1 ==> fails_with(
            data_fragment(s),
            ErrorView::BlockSerializationError(
                "DZ zip_type "@ + decimal(zip_type as nat) + " is not supported"@,
            ),
        ),
        zip_type <= 1 ==> (zlib_inflated(payload) matches Ok(inflated) ==> fails_with(
            data_fragment(s),
            ErrorView::BlockSerializationError(
                "DZ inflated to "@ + decimal(inflated.len()) + " bytes, expected "@ + decimal(
                    original_len,
                ),
            ),
        )),
{
    lemma_packed_fields(s, reserved, block_len, data, zip_type, columns, original_len, payload);
}

/// A compressed block whose payload reaches past the end of the bytes is refused.
pub proof fn lemma_cut_block_is_refused(s: Seq<u8>, payload_len: u64)
    requires
        s.len() >= 24,
        header_of(s).id == "##DZ"@,
        payload_len <= usize::MAX,
        s.len() >= 48 ==> s.subrange(40, 48) == le_bytes(payload_len as nat, 8),
        s.len() < 48 + payload_len,
    ensures
        data_fragment(s) matches Err(error) && error is TooShortBuffer,
{
    if s.len() >= 48 {
        lemma_u64_is_read_back(s, 40, payload_len);
    }
}

/// Every other fragment is a plain data block.
pub proof fn lemma_plain_fragment(s: Seq<u8>)
    requires
        s.len() >= 24,
        header_of(s).id != "##DZ"@,
    ensures
        data_fragment(s) == parse_data_block(s),
{
}

} // verus!
