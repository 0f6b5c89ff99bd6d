//! Values in records, numbers in bytes, and texts.
use mf4_rs::blocks::channel_block::{ChannelBlock, DataType};
use mf4_rs::blocks::common::{read_string_block, BlockHeader};
use mf4_rs::bytes::{read_be, read_le, read_u16, read_u32, read_u64};
use mf4_rs::parsing::decoder::{check_value_validity, decode_channel_value, DecodedValue};
use mf4_rs::text::{decode_text, digits_text, same_text};

fn channel(data_type: DataType, byte_offset: u32, bit_offset: u8, bit_count: u32) -> ChannelBlock {
    ChannelBlock {
        next_ch_addr: 0,
        component_addr: 0,
        name_addr: 0,
        source_addr: 0,
        conversion_addr: 0,
        data: 0,
        unit_addr: 0,
        comment_addr: 0,
        channel_type: 0,
        sync_type: 0,
        data_type,
        bit_offset,
        byte_offset,
        bit_count,
        flags: 0,
        pos_invalidation_bit: 0,
        conversion: None,
    }
}

fn unsigned(record: &[u8], channel: &ChannelBlock) -> u64 {
    match decode_channel_value(record, 0, channel) {
        Some(DecodedValue::UnsignedInteger(value)) => value,
        other => panic!("{other:?}"),
    }
}

fn signed(record: &[u8], channel: &ChannelBlock) -> i64 {
    match decode_channel_value(record, 0, channel) {
        Some(DecodedValue::SignedInteger(value)) => value,
        other => panic!("{other:?}"),
    }
}

#[test]
fn unsigned_integers_are_cut_out_of_their_bytes() {
    let record = [0x12, 0x34, 0x56, 0x78, 0x9a, 0xbc, 0xde, 0xf0];
    assert_eq!(unsigned(&record, &channel(DataType::UnsignedIntegerLE, 0, 0, 16)), 0x3412);
    assert_eq!(unsigned(&record, &channel(DataType::UnsignedIntegerBE, 0, 0, 16)), 0x1234);
    assert_eq!(unsigned(&record, &channel(DataType::UnsignedIntegerLE, 1, 4, 8)), 0x63);
    assert_eq!(
        unsigned(&record, &channel(DataType::UnsignedIntegerLE, 0, 0, 64)),
        0xf0de_bc9a_7856_3412
    );
    assert_eq!(unsigned(&record, &channel(DataType::UnsignedIntegerLE, 7, 7, 1)), 1);
    assert_eq!(unsigned(&record, &channel(DataType::UnsignedIntegerLE, 0, 0, 0)), 0);
}

#[test]
fn signed_integers_are_twos_complement() {
    let record = [0xff, 0x7f, 0x80, 0x00];
    assert_eq!(signed(&record, &channel(DataType::SignedIntegerLE, 0, 0, 8)), -1);
    assert_eq!(signed(&record, &channel(DataType::SignedIntegerLE, 0, 0, 16)), 0x7fff);
    assert_eq!(signed(&record, &channel(DataType::SignedIntegerBE, 2, 0, 16)), -0x8000);
    assert_eq!(signed(&record, &channel(DataType::SignedIntegerLE, 0, 6, 4)), -1);
    assert_eq!(signed(&[0xff; 8], &channel(DataType::SignedIntegerLE, 0, 0, 64)), -1);
    let lowest = [0, 0, 0, 0, 0, 0, 0, 0x80];
    assert_eq!(signed(&lowest, &channel(DataType::SignedIntegerLE, 0, 0, 64)), i64::MIN);
}

#[test]
fn floats_keep_their_bit_patterns() {
    let single = 1.5f32.to_be_bytes();
    match decode_channel_value(&single, 0, &channel(DataType::FloatBE, 0, 0, 32)) {
        Some(DecodedValue::Single(bits)) => assert_eq!(f32::from_bits(bits), 1.5),
        other => panic!("{other:?}"),
    }
    let double = (-0.25f64).to_le_bytes();
    match decode_channel_value(&double, 0, &channel(DataType::FloatLE, 0, 0, 64)) {
        Some(DecodedValue::Double(bits)) => assert_eq!(f64::from_bits(bits), -0.25),
        other => panic!("{other:?}"),
    }
    assert!(matches!(
        decode_channel_value(&double, 0, &channel(DataType::FloatLE, 0, 0, 16)),
        Some(DecodedValue::Unknown)
    ));
}

#[test]
fn texts_and_unknown_values_are_no_numbers() {
    let record = [9, b'h', b'i', 0];
    match decode_channel_value(&record, 1, &channel(DataType::StringUtf8, 0, 0, 16)) {
        Some(DecodedValue::Bytes(kind, bytes)) => {
            assert_eq!((kind, bytes), (DataType::StringUtf8, b"hi".to_vec()));
        }
        other => panic!("{other:?}"),
    }
    let unknown = decode_channel_value(&record, 0, &channel(DataType::Unknown(99), 0, 0, 8));
    assert!(!unknown.expect("in the record").is_number());
    assert!(DecodedValue::Single(0).is_number());
}

#[test]
fn values_outside_of_the_record_are_missing() {
    let record = [1, 2, 3];
    assert!(decode_channel_value(&record, 0, &channel(DataType::UnsignedIntegerLE, 2, 0, 16)).is_none());
    assert!(decode_channel_value(&record, 1, &channel(DataType::UnsignedIntegerLE, 2, 0, 8)).is_none());
    assert!(decode_channel_value(&record, 0, &channel(DataType::UnsignedIntegerLE, u32::MAX, 0, 8)).is_none());
    assert_eq!(unsigned(&record, &channel(DataType::UnsignedIntegerLE, 2, 0, 8)), 3);
}

#[test]
fn invalidation_bits_mark_values() {
    let record = [7, 1, 2, 0b0000_0100];
    let mut block = channel(DataType::UnsignedIntegerLE, 0, 0, 8);
    block.pos_invalidation_bit = 2;
    assert!(check_value_validity(&record, 1, 2, &block));
    block.flags = 2;
    assert!(!check_value_validity(&record, 1, 2, &block));
    block.pos_invalidation_bit = 3;
    assert!(check_value_validity(&record, 1, 2, &block));
    block.pos_invalidation_bit = 8;
    assert!(check_value_validity(&record, 1, 2, &block));
    block.flags = 1;
    assert!(!check_value_validity(&record, 1, 2, &block));
}

#[test]
fn numbers_are_read_in_both_byte_orders() {
    let bytes = [1, 2, 3, 4, 5, 6, 7, 8, 9];
    assert_eq!(read_le(&bytes, 1, 3), 0x040302);
    assert_eq!(read_be(&bytes, 1, 3), 0x020304);
    assert_eq!(read_le(&bytes, 0, 0), 0);
    assert_eq!(read_u16(&bytes, 0), 0x0201);
    assert_eq!(read_u32(&bytes, 0), 0x0403_0201);
    assert_eq!(read_u64(&bytes, 1), 0x0908_0706_0504_0302);
}

#[test]
fn texts_end_at_the_first_zero() {
    let mut file = vec![0; 8];
    file.extend_from_slice(b"##TX\0\0\0\0");
    file.extend_from_slice(&30u64.to_le_bytes());
    file.extend_from_slice(&0u64.to_le_bytes());
    file.extend_from_slice(b"km/h\0x");
    assert_eq!(read_string_block(&file, 8).expect("text").as_deref(), Some("km/h"));
    assert_eq!(read_string_block(&file, 0).expect("null link"), None);
    assert!(read_string_block(&file, 15).is_err());
    file[10] = b'S';
    assert_eq!(read_string_block(&file, 8).expect("no text block"), None);
    file[10] = b'T';
    file[16] = 31;
    assert!(read_string_block(&file, 8).is_err());
}

#[test]
fn headers_are_read_field_by_field() {
    let mut bytes = b"##DT".to_vec();
    bytes.extend_from_slice(&7u32.to_le_bytes());
    bytes.extend_from_slice(&32u64.to_le_bytes());
    bytes.extend_from_slice(&1u64.to_le_bytes());
    let header = BlockHeader::from_bytes(&bytes).expect("header");
    assert!(header.is("##DT"));
    assert!(!header.is("##DV"));
    assert_eq!((header.reserved0, header.block_len, header.links_nr), (7, 32, 1));
    assert!(BlockHeader::from_bytes(&bytes[..23]).is_err());
}

#[test]
fn texts_are_decoded_and_compared() {
    assert_eq!(decode_text("Grüße".as_bytes()), "Grüße");
    assert_eq!(decode_text(&[0x80, b'a']), "\u{fffd}a");
    assert!(same_text("speed", "speed"));
    assert!(!same_text("speed", "spee"));
    assert!(!same_text("speed", "speet"));
    assert_eq!(digits_text(0, 10), "0");
    assert_eq!(digits_text(1234, 10), "1234");
    assert_eq!(digits_text(0xbeef, 16), "beef");
}
