//! Data blocks, their chains and their compression.
use mf4_rs::blocks::common::BlockHeader;
use mf4_rs::blocks::data_block::DataBlock;
use mf4_rs::blocks::data_group_block::DataGroupBlock;
use mf4_rs::blocks::data_list_block::DataListBlock;
use mf4_rs::error::MdfError;
use mf4_rs::parsing::compressed::{parse_data_fragment, unpack_inflated, untranspose};
use mf4_rs::parsing::raw_data_group::RawDataGroup;
use miniz_oxide::deflate::compress_to_vec_zlib;

/// Put a block at the end of `file`.
fn block(file: &mut Vec<u8>, id: &str, links: &[u64], data: &[u8]) -> u64 {
    while file.len() % 8 != 0 {
        file.push(0);
    }
    let address = file.len() as u64;
    let len = 24 + 8 * links.len() + data.len();
    file.extend_from_slice(id.as_bytes());
    file.extend_from_slice(&[0; 4]);
    file.extend_from_slice(&(len as u64).to_le_bytes());
    file.extend_from_slice(&(links.len() as u64).to_le_bytes());
    for link in links {
        file.extend_from_slice(&link.to_le_bytes());
    }
    file.extend_from_slice(data);
    address
}

/// What a `##DZ` block holds behind its header.
fn zipped(zip_type: u8, columns: u32, org_len: u64, stored: &[u8]) -> Vec<u8> {
    let packed = compress_to_vec_zlib(stored, 6);
    let mut body = b"DT".to_vec();
    body.push(zip_type);
    body.push(0);
    body.extend_from_slice(&columns.to_le_bytes());
    body.extend_from_slice(&org_len.to_le_bytes());
    body.extend_from_slice(&(packed.len() as u64).to_le_bytes());
    body.extend_from_slice(&packed);
    body
}

fn data_group(data_block_addr: u64) -> RawDataGroup {
    RawDataGroup {
        block: DataGroupBlock {
            next_dg_addr: 0,
            first_cg_addr: 0,
            data_block_addr,
            comment_addr: 0,
            record_id_len: 0,
        },
        channel_groups: Vec::new(),
    }
}

/// The payloads of the data blocks that a data link leads to.
fn payloads(file: &[u8], address: u64) -> Vec<Vec<u8>> {
    let mut found = Vec::new();
    for block in data_group(address).data_blocks(file).expect("data blocks") {
        found.push(block.bytes().to_vec());
    }
    found
}

fn serialization_error(result: Result<DataBlock<'_>, MdfError>) -> String {
    match result {
        Err(MdfError::BlockSerializationError(text)) => text,
        other => panic!("{other:?}"),
    }
}

#[test]
fn plain_blocks_hold_what_follows_the_header() {
    for id in ["##DT", "##DV"] {
        let mut file = Vec::new();
        block(&mut file, id, &[], &[1, 2, 3, 4, 5]);
        file.extend_from_slice(&[9, 9]);
        let read = DataBlock::from_bytes(&file).expect("data block");
        assert_eq!(read.header.id, id);
        assert_eq!(read.header.block_len, 29);
        assert_eq!(read.header.links_nr, 0);
        assert_eq!(read.bytes(), [1, 2, 3, 4, 5]);
    }
}

#[test]
fn other_blocks_are_no_data_blocks() {
    let mut file = Vec::new();
    block(&mut file, "##TX", &[], &[1]);
    match DataBlock::from_bytes(&file) {
        Err(MdfError::BlockIDError { actual, expected }) => {
            assert_eq!((actual.as_str(), expected.as_str()), ("##TX", "##DT / ##DV"));
        }
        other => panic!("{other:?}"),
    }
    let mut file = Vec::new();
    block(&mut file, "##DT", &[], &[1, 2, 3]);
    match DataBlock::from_bytes(&file[..26]) {
        Err(MdfError::TooShortBuffer { actual, expected }) => assert_eq!((actual, expected), (26, 27)),
        other => panic!("{other:?}"),
    }
    match DataBlock::from_bytes(&file[..23]) {
        Err(MdfError::TooShortBuffer { actual, expected }) => assert_eq!((actual, expected), (23, 24)),
        other => panic!("{other:?}"),
    }
}

#[test]
fn a_block_shorter_than_its_header_is_empty() {
    let mut file = Vec::new();
    block(&mut file, "##DT", &[], &[1, 2, 3]);
    file[8..16].copy_from_slice(&5u64.to_le_bytes());
    assert!(DataBlock::from_bytes(&file).expect("data block").bytes().is_empty());
}

#[test]
fn records_cover_the_data_but_for_the_padding() {
    let header = BlockHeader { id: "##DZ".to_string(), reserved0: 0, block_len: 0, links_nr: 0 };
    let owned = DataBlock::from_owned(header, vec![1, 2, 3, 4, 5, 6, 7]);
    assert_eq!(owned.records(3), [[1, 2, 3], [4, 5, 6]]);
    assert_eq!(owned.records(7).len(), 1);
    assert_eq!(owned.records(1).concat(), owned.bytes());
    assert!(owned.records(8).is_empty());
}

#[test]
fn a_single_block_is_a_chain() {
    let mut file = vec![0; 8];
    let plain = block(&mut file, "##DT", &[], &[1, 2]);
    let columns = block(&mut file, "##DV", &[], &[3]);
    let packed = block(&mut file, "##DZ", &[], &zipped(0, 0, 4, &[4, 5, 6, 7]));
    assert_eq!(payloads(&file, plain), [vec![1, 2]]);
    assert_eq!(payloads(&file, columns), [vec![3]]);
    assert_eq!(payloads(&file, packed), [vec![4, 5, 6, 7]]);
    let read = parse_data_fragment(&file[plain as usize..]).expect("plain");
    assert!(matches!(read.data, std::borrow::Cow::Borrowed(_)));
    let read = parse_data_fragment(&file[packed as usize..]).expect("packed");
    assert!(matches!(read.data, std::borrow::Cow::Owned(_)));
    assert!(payloads(&file, 0).is_empty());
}

#[test]
fn lists_are_followed_in_order_and_null_links_skipped() {
    let mut file = vec![0; 8];
    let one = block(&mut file, "##DT", &[], &[1]);
    let two = block(&mut file, "##DZ", &[], &zipped(1, 2, 5, &[2, 4, 3, 5, 6]));
    let three = block(&mut file, "##DV", &[], &[7]);
    let tail = block(&mut file, "##DL", &[0, 0, three, one], &[]);
    let list = block(&mut file, "##DL", &[tail, one, 0, two], &[]);
    let header = block(&mut file, "##HL", &[list], &[]);
    let expected = [vec![1], vec![2, 3, 4, 5, 6], vec![7], vec![1]];
    assert_eq!(payloads(&file, list), expected);
    assert_eq!(payloads(&file, header), expected);
    for read in data_group(header).data_blocks(&file).expect("data blocks") {
        let owned = matches!(read.data, std::borrow::Cow::Owned(_));
        assert_eq!(owned, read.header.id == "##DZ");
        assert!(owned || read.bytes().len() as u64 == read.header.block_len - 24);
    }
    let read = DataListBlock::from_bytes(&file[list as usize..]).expect("list");
    assert_eq!((read.next, read.data_links), (tail, vec![one, 0, two]));
}

#[test]
fn data_chains_that_come_back_are_refused() {
    let mut file = vec![0; 8];
    let one = block(&mut file, "##DT", &[], &[1]);
    let list = block(&mut file, "##DL", &[0, one], &[]);
    file[list as usize + 24..list as usize + 32].copy_from_slice(&list.to_le_bytes());
    match data_group(list).data_blocks(&file) {
        Err(MdfError::BlockLinkError(text)) => assert_eq!(
            text,
            format!("cycle detected in data block chain at address {list:#x}")
        ),
        other => panic!("{other:?}"),
    }
}

#[test]
fn unexpected_blocks_are_refused() {
    let mut file = vec![0; 8];
    let text = block(&mut file, "##TX", &[], &[0]);
    let list = block(&mut file, "##DL", &[0, text], &[]);
    let empty = block(&mut file, "##DL", &[], &[]);
    match data_group(text).data_blocks(&file) {
        Err(MdfError::BlockIDError { actual, expected }) => {
            assert_eq!(actual, "##TX");
            assert_eq!(expected, "##DT / ##DV / ##DL / ##DZ / ##HL");
        }
        other => panic!("{other:?}"),
    }
    match data_group(list).data_blocks(&file) {
        Err(MdfError::BlockIDError { actual, expected }) => {
            assert_eq!((actual.as_str(), expected.as_str()), ("##TX", "##DT / ##DV"));
        }
        other => panic!("{other:?}"),
    }
    assert!(matches!(
        data_group(empty).data_blocks(&file),
        Err(MdfError::BlockLinkError(_))
    ));
}

#[test]
fn links_out_of_the_file_are_refused() {
    let mut file = vec![0; 8];
    let list = block(&mut file, "##DL", &[0, 5000], &[]);
    let len = file.len();
    match data_group(5000).data_blocks(&file) {
        Err(MdfError::TooShortBuffer { actual, expected }) => assert_eq!((actual, expected), (len, 5024)),
        other => panic!("{other:?}"),
    }
    match data_group(list).data_blocks(&file) {
        Err(MdfError::TooShortBuffer { actual, expected }) => assert_eq!((actual, expected), (len, 5024)),
        other => panic!("{other:?}"),
    }
    match data_group(u64::MAX).data_blocks(&file) {
        Err(MdfError::TooShortBuffer { actual, expected }) => {
            assert_eq!((actual, expected), (len, usize::MAX));
        }
        other => panic!("{other:?}"),
    }
    let header = block(&mut file, "##HL", &[], &[]);
    match data_group(header).data_blocks(&file) {
        Err(MdfError::TooShortBuffer { actual, expected }) => {
            assert_eq!((actual, expected), (file.len(), header as usize + 32));
        }
        other => panic!("{other:?}"),
    }
}

#[test]
fn compressed_blocks_say_what_is_wrong_with_them() {
    let mut file = Vec::new();
    block(&mut file, "##DZ", &[], &zipped(2, 0, 3, &[1, 2, 3]));
    let text = serialization_error(parse_data_fragment(&file));
    assert_eq!(text, "DZ zip_type 2 is not supported");

    let mut file = Vec::new();
    block(&mut file, "##DZ", &[], &zipped(0, 0, 12, &[1, 2, 3]));
    let text = serialization_error(parse_data_fragment(&file));
    assert_eq!(text, "DZ inflated to 3 bytes, expected 12");

    let mut file = Vec::new();
    block(&mut file, "##DZ", &[], &zipped(0, 0, 3, &[1, 2, 3]));
    file[48] = 0xff;
    let text = serialization_error(parse_data_fragment(&file));
    assert!(text.starts_with("DZ inflate failed: DecompressError"), "{text}");

    let mut file = Vec::new();
    block(&mut file, "##DZ", &[], &zipped(0, 0, 3, &[1, 2, 3]));
    let len = file.len();
    match parse_data_fragment(&file[..40]) {
        Err(MdfError::TooShortBuffer { actual, expected }) => assert_eq!((actual, expected), (40, 48)),
        other => panic!("{other:?}"),
    }
    match parse_data_fragment(&file[..len - 1]) {
        Err(MdfError::TooShortBuffer { actual, expected }) => {
            assert_eq!((actual, expected), (len - 1, len));
        }
        other => panic!("{other:?}"),
    }
}

#[test]
fn untransposing_gives_rows_back() {
    assert_eq!(untranspose(&[1, 4, 2, 5, 3, 6, 7], 3, 7), [1, 2, 3, 4, 5, 6, 7]);
    assert_eq!(untranspose(&[1, 2, 3], 0, 3), [1, 2, 3]);
    assert_eq!(untranspose(&[1, 2, 3], 4, 3), [1, 2, 3]);
    assert_eq!(untranspose(&[1, 2, 3], 1, 3), [1, 2, 3]);
    assert_eq!(untranspose(&[1, 2, 3], 3, 3), [1, 2, 3]);
    assert_eq!(untranspose(&[1, 3, 2, 4, 9], 2, 4), [1, 2, 3, 4, 9]);
    assert!(untranspose(&[], 5, 0).is_empty());
}

#[test]
fn inflated_payloads_are_unpacked() {
    let header = || BlockHeader { id: "##DZ".to_string(), reserved0: 0, block_len: 60, links_nr: 0 };
    let plain = unpack_inflated(header(), 0, 2, 4, vec![1, 2, 3, 4]).expect("block");
    assert_eq!(plain.bytes(), [1, 2, 3, 4]);
    assert_eq!(plain.header.block_len, 60);
    let rows = unpack_inflated(header(), 1, 2, 4, vec![1, 3, 2, 4]).expect("block");
    assert_eq!(rows.bytes(), [1, 2, 3, 4]);
    let text = serialization_error(unpack_inflated(header(), 1, 2, 5, vec![1, 3, 2, 4]));
    assert_eq!(text, "DZ inflated to 4 bytes, expected 5");
    let text = serialization_error(unpack_inflated(header(), 255, 0, 0, Vec::new()));
    assert_eq!(text, "DZ zip_type 255 is not supported");
}
