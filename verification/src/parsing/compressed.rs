//! Compressed data blocks (`##DZ`).
use vstd::arithmetic::div_mod::lemma_fundamental_div_mod_converse;
use vstd::prelude::*;
use vstd::string::*;

use crate::blocks::common::{header_of, BlockHeader, HeaderView, HEADER_LEN};
use crate::blocks::data_block::{parse_data_block, DataBlock, DataBlockView};
use crate::bytes::{read_u32, read_u64, u32_at, u64_at};
use crate::error::{outcome, too_short, ErrorView, MdfError};
use crate::text::{decimal, digits_text};

verus! {

/// What `miniz_oxide::inflate::decompress_to_vec_zlib` makes of a payload: the inflated
/// bytes, or the `Debug` text of the error that it reports.
pub uninterp spec fn zlib_inflated(payload: Seq<u8>) -> Result<Seq<u8>, Seq<char>>;

/// Calls `miniz_oxide::inflate::decompress_to_vec_zlib`, and claims that its result, the
/// inflated bytes or the error written out with `Debug`, depends on the payload alone.
/// Nothing is said of how the bytes follow from the payload.
#[verifier::external_body]
pub(crate) fn inflate_zlib(payload: &[u8]) -> (inflated: Result<Vec<u8>, String>)
    ensures
        match inflated {
            Ok(data) => zlib_inflated(payload@) == Ok::<Seq<u8>, Seq<char>>(data@),
            Err(text) => zlib_inflated(payload@) == Err::<Seq<u8>, Seq<char>>(text@),
        },
{
    match miniz_oxide::inflate::decompress_to_vec_zlib(payload) {
        Ok(data) => Ok(data),
        Err(error) => Err(format!("{:?}", error)),
    }
}

/// `original` as a compressor lays it out before transposed deflate: the full rows of `cols`
/// bytes are stored column by column, and the tail that is shorter than a row as it is.
pub open spec fn transposed(original: Seq<u8>, cols: nat) -> Seq<u8> {
    if cols == 0 || original.len() < cols {
        original
    } else {
        let lines = original.len() / cols;
        Seq::new(
            original.len(),
            |k: int|
                if k < lines * cols {
                    original[(k % (lines as int)) * cols + k / (lines as int)]
                } else {
                    original[k]
                },
        )
    }
}

/// Row by row what `stored` holds column by column, for an original of `org_len` bytes.
pub open spec fn untransposed(stored: Seq<u8>, cols: nat, org_len: nat) -> Seq<u8> {
    if cols == 0 || stored.len() < cols {
        stored
    } else {
        let lines = org_len / cols;
        Seq::new(
            stored.len(),
            |k: int|
                if k < lines * cols {
                    stored[(k % (cols as int)) * lines + k / (cols as int)]
                } else {
                    stored[k]
                },
        )
    }
}

/// The index of row `k / cols` and column `k % cols` in a layout by columns, and back.
proof fn lemma_cell(k: int, cols: int, lines: int)
    requires
        0 < cols,
        0 < lines,
        0 <= k < lines * cols,
    ensures
        0 <= k % cols < cols,
        0 <= k / cols < lines,
        0 <= (k % cols) * lines + k / cols < lines * cols,
        ((k % cols) * lines + k / cols) % lines == k / cols,
        ((k % cols) * lines + k / cols) / lines == k % cols,
        (k / cols) * cols + k % cols == k,
{
    let row = k / cols;
    let col = k % cols;
    assert(0 <= col < cols && row * cols + col == k) by (nonlinear_arith)
        requires
            0 < cols,
            row == k / cols,
            col == k % cols,
    ;
    assert(0 <= row < lines) by (nonlinear_arith)
        requires
            0 < cols,
            0 <= k < lines * cols,
            row == k / cols,
    ;
    assert(0 <= col * lines + row < lines * cols) by (nonlinear_arith)
        requires
            0 <= col,
            col + 1 <= cols,
            0 <= row < lines,
    ;
    lemma_fundamental_div_mod_converse(col * lines + row, lines, col, row);
}

/// Untransposing gives back what was transposed.
pub proof fn lemma_untransposed_transposed(original: Seq<u8>, cols: nat)
    ensures
        untransposed(transposed(original, cols), cols, original.len()) == original,
{
    if cols != 0 && original.len() >= cols {
        let lines = original.len() / cols;
        lemma_body_fits(original.len(), cols);
        let stored = transposed(original, cols);
        let back = untransposed(stored, cols, original.len());
        assert forall|k: int| 0 <= k < original.len() implies back[k] == original[k] by {
            if k < lines * cols {
                lemma_cell(k, cols as int, lines as int);
            }
        }
        assert(back =~= original);
    }
}

/// Transposing gives back what was untransposed.
pub proof fn lemma_transposed_untransposed(stored: Seq<u8>, cols: nat)
    ensures
        transposed(untransposed(stored, cols, stored.len()), cols) == stored,
{
    if cols != 0 && stored.len() >= cols {
        let lines = stored.len() / cols;
        lemma_body_fits(stored.len(), cols);
        let rows = untransposed(stored, cols, stored.len());
        let back = transposed(rows, cols);
        assert forall|k: int| 0 <= k < stored.len() implies back[k] == stored[k] by {
            if k < lines * cols {
                assert(lines * cols == cols * lines) by (nonlinear_arith);
                lemma_cell(k, lines as int, cols as int);
            }
        }
        assert(back =~= stored);
    }
}

/// The full rows are no longer than the whole, and there is one where the whole is as long
/// as a row.
proof fn lemma_body_fits(len: nat, cols: nat)
    requires
        0 < cols,
    ensures
        (len / cols) * cols <= len,
        cols <= len ==> 0 < len / cols,
{
    assert((len / cols) * cols <= len) by (nonlinear_arith)
        requires
            0 < cols,
    ;
    if cols <= len {
        assert(0 < len / cols) by (nonlinear_arith)
            requires
                0 < cols <= len,
        ;
    }
}

/// Undo the transposition of a payload: the compressor reshaped the original bytes into
/// `cols` columns and stored the transpose; a tail shorter than a full row is kept as it is.
pub fn untranspose(transposed: &[u8], cols: usize, org_len: usize) -> (rows: Vec<u8>)
    requires
        0 < cols <= transposed.len() ==> (org_len as nat / cols as nat) * cols
            <= transposed.len(),
    ensures
        rows@ == untransposed(transposed@, cols as nat, org_len as nat),
{
    let mut out: Vec<u8> = Vec::new();
    if cols == 0 || transposed.len() < cols {
        out.extend_from_slice(transposed);
        assert(out@ =~= transposed@);
        return out;
    }
    let lines = org_len / cols;
    let ghost goal = untransposed(transposed@, cols as nat, org_len as nat);
    let mut i: usize = 0;
    assert(0 * cols == 0) by (nonlinear_arith);
    while i < lines
        invariant
            i <= lines,
            0 < cols <= transposed.len(),
            lines == org_len as nat / cols as nat,
            lines * cols <= transposed.len(),
            goal == untransposed(transposed@, cols as nat, org_len as nat),
            out@.len() == i * cols,
            out@ =~= goal.subrange(0, i * cols),
        decreases lines - i,
    {
        assert(i * cols + cols <= lines * cols) by (nonlinear_arith)
            requires
                i + 1 <= lines,
                0 < cols,
        ;
        let mut j: usize = 0;
        while j < cols
            invariant
                i < lines,
                j <= cols,
                0 < cols <= transposed.len(),
                lines == org_len as nat / cols as nat,
                lines * cols <= transposed.len(),
                i * cols + cols <= lines * cols,
                goal == untransposed(transposed@, cols as nat, org_len as nat),
                out@.len() == i * cols + j,
                out@ =~= goal.subrange(0, i * cols + j),
            decreases cols - j,
        {
            let ghost k = i * cols + j;
            proof {
                assert(0 <= i * cols) by (nonlinear_arith);
                lemma_fundamental_div_mod_converse(k, cols as int, i as int, j as int);
                lemma_cell(k, cols as int, lines as int);
                assert(j * lines + i < lines * cols);
                assert(0 <= j * lines) by (nonlinear_arith);
            }
            out.push(transposed[j * lines + i]);
            j = j + 1;
        }
        assert(i * cols + cols == (i + 1) * cols) by (nonlinear_arith);
        i = i + 1;
    }
    let body = lines * cols;
    out.extend_from_slice(&transposed[body..transposed.len()]);
    assert(out@ =~= goal);
    out
}

/// The message for a payload that inflated to another length than stated.
pub open spec fn length_message(actual: nat, expected: nat) -> Seq<char> {
    "DZ inflated to "@ + decimal(actual) + " bytes, expected "@ + decimal(expected)
}

/// The message for an unknown kind of compression.
pub open spec fn zip_type_message(zip_type: u8) -> Seq<char> {
    "DZ zip_type "@ + decimal(zip_type as nat) + " is not supported"@
}

/// The block that the inflated payload stands for: as it is for `zip_type` 0, untransposed
/// for `zip_type` 1, provided that it has the stated length.
pub open spec fn unpacked(
    header: HeaderView,
    zip_type: u8,
    zip_parameter: nat,
    org_len: nat,
    inflated: Seq<u8>,
) -> Result<DataBlockView, ErrorView> {
    if zip_type > 1 {
        Err(ErrorView::BlockSerializationError(zip_type_message(zip_type)))
    } else if inflated.len() != org_len {
        Err(ErrorView::BlockSerializationError(length_message(inflated.len(), org_len)))
    } else if zip_type == 0 {
        Ok(DataBlockView { header, data: inflated })
    } else {
        Ok(DataBlockView { header, data: untransposed(inflated, zip_parameter, org_len) })
    }
}

/// Reading one data fragment from the front of `s`: a plain block, or a compressed one.
///
/// Behind its header a `##DZ` block holds the kind of the original block (2 bytes), the kind
/// of compression (1), a reserved byte, the number of columns (4), the original length (8)
/// and the compressed length (8), and then the compressed data.
pub open spec fn data_fragment(s: Seq<u8>) -> Result<DataBlockView, ErrorView> {
    let header = header_of(s);
    let end = 48 + u64_at(s, 40) as usize;
    if s.len() < HEADER_LEN {
        Err(too_short(s.len() as int, HEADER_LEN as int))
    } else if header.id != "##DZ"@ {
        parse_data_block(s)
    } else if s.len() < 48 {
        Err(too_short(s.len() as int, 48))
    } else if s.len() < end {
        Err(too_short(s.len() as int, end))
    } else {
        match zlib_inflated(s.subrange(48, end)) {
            Err(text) => Err(ErrorView::BlockSerializationError("DZ inflate failed: "@ + text)),
            Ok(inflated) => unpacked(
                header,
                s[26],
                u32_at(s, 28) as nat,
                u64_at(s, 32) as usize as nat,
                inflated,
            ),
        }
    }
}

/// Turn the inflated payload of a `##DZ` block into the block that it stands for.
pub fn unpack_inflated<'a>(
    header: BlockHeader,
    zip_type: u8,
    zip_parameter: usize,
    org_len: usize,
    inflated: Vec<u8>,
) -> (block: Result<DataBlock<'a>, MdfError>)
    ensures
        outcome(block) == unpacked(
            header.deep_view(),
            zip_type,
            zip_parameter as nat,
            org_len as nat,
            inflated@,
        ),
        block matches Ok(b) ==> b.data is Owned,
{
    if zip_type > 1 {
        let text = "DZ zip_type ".to_string().concat(
            digits_text(zip_type as u64, 10).as_str(),
        ).concat(" is not supported");
        return Err(MdfError::BlockSerializationError(text));
    }
    if inflated.len() != org_len {
        let text = "DZ inflated to ".to_string().concat(
            digits_text(inflated.len() as u64, 10).as_str(),
        ).concat(" bytes, expected ").concat(digits_text(org_len as u64, 10).as_str());
        return Err(MdfError::BlockSerializationError(text));
    }
    if zip_type == 0 {
        return Ok(DataBlock::from_owned(header, inflated));
    }
    proof {
        if zip_parameter > 0 {
            lemma_body_fits(org_len as nat, zip_parameter as nat);
        }
    }
    let data = untranspose(inflated.as_slice(), zip_parameter, org_len);
    Ok(DataBlock::from_owned(header, data))
}

/// Read one data fragment: a plain `##DT`/`##DV` block borrows the file, a compressed `##DZ`
/// block is inflated into an owned one.
pub fn parse_data_fragment<'a>(bytes: &'a [u8]) -> (block: Result<DataBlock<'a>, MdfError>)
    ensures
        outcome(block) == data_fragment(bytes@),
        block matches Ok(b) ==> (b.data is Owned <==> header_of(bytes@).id == "##DZ"@),
{
    let header = BlockHeader::from_bytes(bytes)?;
    if !header.is("##DZ") {
        return DataBlock::from_bytes(bytes);
    }
    let need: usize = 48;
    if bytes.len() < need {
        return Err(MdfError::TooShortBuffer { actual: bytes.len(), expected: need });
    }
    let zip_type = bytes[26];
    let zip_parameter = read_u32(bytes, 28) as usize;
    let org_len = read_u64(bytes, 32) as usize;
    let data_len = read_u64(bytes, 40) as usize;
    if data_len > bytes.len() - need {
        return Err(
            MdfError::TooShortBuffer {
                actual: bytes.len(),
                expected: need.saturating_add(data_len),
            },
        );
    }
    let payload = &bytes[need..need + data_len];
    match inflate_zlib(payload) {
        Err(text) => Err(
            MdfError::BlockSerializationError(
                "DZ inflate failed: ".to_string().concat(text.as_str()),
            ),
        ),
        Ok(inflated) => unpack_inflated(header, zip_type, zip_parameter, org_len, inflated),
    }
}

} // verus!
