//! Compressed MDF4 (##HL → ##DL → ##DZ), end to end.
use mf4_rs::api::mdf::MDF;
use miniz_oxide::deflate::compress_to_vec_zlib;

/// The bytes of a file under construction.
struct Image {
    bytes: Vec<u8>,
}

/// What distinguishes one channel from another.
struct Field {
    next: u64,
    name: u64,
    unit: u64,
    conversion: u64,
    data: u64,
    channel_type: u8,
    data_type: u8,
    bit_offset: u8,
    byte_offset: u32,
    bit_count: u32,
    flags: u32,
    invalidation_bit: u32,
}

const PLAIN: Field = Field {
    next: 0,
    name: 0,
    unit: 0,
    conversion: 0,
    data: 0,
    channel_type: 0,
    data_type: 0,
    bit_offset: 0,
    byte_offset: 0,
    bit_count: 0,
    flags: 0,
    invalidation_bit: 0,
};

impl Image {
    /// The identification, and a header without links.
    fn new() -> Image {
        let mut bytes = Vec::new();
        bytes.extend_from_slice(b"MDF     4.10    reader  ");
        bytes.resize(28, 0);
        bytes.extend_from_slice(&410u16.to_le_bytes());
        bytes.resize(64, 0);
        let mut image = Image { bytes };
        image.block("##HD", &[0; 6], &[0; 32]);
        image
    }

    fn block(&mut self, id: &str, links: &[u64], data: &[u8]) -> u64 {
        while self.bytes.len() % 8 != 0 {
            self.bytes.push(0);
        }
        let address = self.bytes.len() as u64;
        let len = 24 + 8 * links.len() + data.len();
        self.bytes.extend_from_slice(id.as_bytes());
        self.bytes.extend_from_slice(&[0; 4]);
        self.bytes.extend_from_slice(&(len as u64).to_le_bytes());
        self.bytes.extend_from_slice(&(links.len() as u64).to_le_bytes());
        for link in links {
            self.bytes.extend_from_slice(&link.to_le_bytes());
        }
        self.bytes.extend_from_slice(data);
        address
    }

    fn set_u64(&mut self, at: u64, value: u64) {
        let at = at as usize;
        self.bytes[at..at + 8].copy_from_slice(&value.to_le_bytes());
    }

    fn text(&mut self, text: &str) -> u64 {
        let mut data = text.as_bytes().to_vec();
        data.push(0);
        self.block("##TX", &[], &data)
    }

    fn linear(&mut self, offset: f64, factor: f64) -> u64 {
        let mut data = vec![1, 0, 0, 0, 0, 0];
        data.extend_from_slice(&2u16.to_le_bytes());
        data.extend_from_slice(&[0; 16]);
        data.extend_from_slice(&offset.to_le_bytes());
        data.extend_from_slice(&factor.to_le_bytes());
        self.block("##CC", &[0; 4], &data)
    }

    fn channel(&mut self, field: Field) -> u64 {
        let mut data = vec![field.channel_type, 0, field.data_type, field.bit_offset];
        data.extend_from_slice(&field.byte_offset.to_le_bytes());
        data.extend_from_slice(&field.bit_count.to_le_bytes());
        data.extend_from_slice(&field.flags.to_le_bytes());
        data.extend_from_slice(&field.invalidation_bit.to_le_bytes());
        data.resize(72, 0);
        let links =
            [field.next, 0, field.name, 0, field.conversion, field.data, field.unit, 0];
        self.block("##CN", &links, &data)
    }

    fn group(&mut self, links: [u64; 6], cycles: u64, data_bytes: u32, invalidation: u32) -> u64 {
        let mut data = vec![0; 8];
        data.extend_from_slice(&cycles.to_le_bytes());
        data.extend_from_slice(&[0; 8]);
        data.extend_from_slice(&data_bytes.to_le_bytes());
        data.extend_from_slice(&invalidation.to_le_bytes());
        self.block("##CG", &links, &data)
    }

    fn data_group(&mut self, next: u64, group: u64, data: u64, record_id_len: u8) -> u64 {
        self.block("##DG", &[next, group, data, 0], &[record_id_len, 0, 0, 0, 0, 0, 0, 0])
    }

    /// The finished file, whose header leads to `first`.
    fn finish(mut self, first: u64) -> Vec<u8> {
        self.set_u64(64 + 24, first);
        self.bytes
    }
}

/// A compressed block for `data`, transposed into `columns` columns where there are any.
fn compressed(image: &mut Image, data: &[u8], columns: u32) -> u64 {
    let mut stored = data.to_vec();
    if columns > 0 {
        let cols = columns as usize;
        let lines = data.len() / cols;
        for line in 0..lines {
            for col in 0..cols {
                stored[col * lines + line] = data[line * cols + col];
            }
        }
    }
    let packed = compress_to_vec_zlib(&stored, 6);
    let mut body = b"DT".to_vec();
    body.push(if columns > 0 { 1 } else { 0 });
    body.push(0);
    body.extend_from_slice(&columns.to_le_bytes());
    body.extend_from_slice(&(data.len() as u64).to_le_bytes());
    body.extend_from_slice(&(packed.len() as u64).to_le_bytes());
    body.extend_from_slice(&packed);
    image.block("##DZ", &[], &body)
}

/// The records of the first group: a time stamp, a speed in half units above ten, a
/// temperature, a text, and invalidation bits for the temperature.
fn records() -> Vec<u8> {
    let mut data = Vec::new();
    for i in 0..10u16 {
        data.extend_from_slice(&(i as f64 * 0.1).to_le_bytes());
        data.extend_from_slice(&(3 * i).to_le_bytes());
        data.extend_from_slice(&(-7 * i as i16).to_le_bytes());
        data.extend_from_slice(b"go");
        data.push(if i == 4 { 1 } else { 0 });
    }
    data
}

/// Two groups, of which the first has a master, a channel with values of variable length and
/// a name that the second has too.
fn sample(pack: bool) -> Vec<u8> {
    let mut image = Image::new();
    let data = records();
    let data_link = if pack {
        let one = compressed(&mut image, &data[..60], 15);
        let two = compressed(&mut image, &data[60..], 0);
        let list = image.block("##DL", &[0, one, 0, two], &[0; 16]);
        image.block("##HL", &[list], &[0; 8])
    } else {
        image.block("##DT", &[], &data)
    };

    let mut entries = Vec::new();
    for text in ["a", "bcd", "", "e", "f", "gh", "i", "", "j", "klmno"] {
        entries.extend_from_slice(&(text.len() as u32).to_le_bytes());
        entries.extend_from_slice(text.as_bytes());
    }
    let signal_data = image.block("##SD", &[], &entries);

    let unit = image.text("km/h");
    let conversion = image.linear(10.0, 0.5);
    let name = image.text("log");
    let log = image.channel(Field {
        name,
        data: signal_data,
        channel_type: 1,
        data_type: 7,
        bit_count: 64,
        ..PLAIN
    });
    let name = image.text("state");
    let state = image.channel(Field {
        next: log,
        name,
        data_type: 7,
        byte_offset: 12,
        bit_count: 16,
        ..PLAIN
    });
    let name = image.text("temperature");
    let temperature = image.channel(Field {
        next: state,
        name,
        data_type: 2,
        byte_offset: 10,
        bit_count: 16,
        flags: 2,
        ..PLAIN
    });
    let name = image.text("speed");
    let speed = image.channel(Field {
        next: temperature,
        name,
        unit,
        conversion,
        byte_offset: 8,
        bit_count: 16,
        ..PLAIN
    });
    let name = image.text("time");
    let time = image.channel(Field {
        next: speed,
        name,
        channel_type: 2,
        data_type: 4,
        bit_count: 64,
        ..PLAIN
    });
    let group_name = image.text("drive");
    let first_group = image.group([0, time, group_name, 0, 0, 0], 10, 14, 1);

    let other_data = image.block("##DV", &[], &[1, 2, 3]);
    let name = image.text("speed");
    let shadowed = image.channel(Field { name, bit_count: 8, ..PLAIN });
    let name = image.text("counter");
    let counter = image.channel(Field { next: shadowed, name, bit_count: 8, ..PLAIN });
    let second_group = image.group([0, counter, 0, 0, 0, 0], 3, 1, 0);

    let second = image.data_group(0, second_group, other_data, 0);
    let first = image.data_group(second, first_group, data_link, 0);
    image.finish(first)
}

#[test]
fn reads_a_compressed_mdf4_end_to_end() {
    let mdf = MDF::from_bytes(sample(true)).expect("open");
    let names: Vec<String> = mdf
        .channel_groups()
        .iter()
        .flat_map(|g| g.channels())
        .filter_map(|c| c.name().ok().flatten())
        .collect();
    assert!(!names.is_empty(), "channels enumerate: {names:?}");

    let mut read_any = false;
    for name in &names {
        let sig = mdf
            .signal(name)
            .unwrap_or_else(|e| panic!("decoding '{name}' failed: {e:?}"))
            .unwrap_or_else(|| panic!("no signal data for '{name}'"));
        let values = sig.values_f64();
        if !values.samples.is_empty() {
            read_any = true;
        }
        if sig.has_timestamps() {
            assert_eq!(sig.timestamps.samples.len(), values.samples.len(), "{name}");
        }
    }
    assert!(read_any, "at least one channel yields samples");
}

#[test]
fn compressed_and_plain_files_hold_the_same_blocks_of_data() {
    let plain = MDF::from_bytes(sample(false)).expect("open");
    let packed = MDF::from_bytes(sample(true)).expect("open");
    let mut inflated = Vec::new();
    let groups = packed.channel_groups();
    for block in groups[0].raw_data_group().data_blocks(groups[0].mmap()).expect("blocks") {
        assert_eq!(block.header.id, "##DZ");
        inflated.extend_from_slice(block.bytes());
    }
    let groups = plain.channel_groups();
    let blocks = groups[0].raw_data_group().data_blocks(groups[0].mmap()).expect("blocks");
    assert_eq!(blocks.len(), 1);
    assert_eq!(blocks[0].bytes(), inflated.as_slice());
    assert_eq!(inflated, records());
}
