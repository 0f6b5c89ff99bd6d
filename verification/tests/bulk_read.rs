//! One-pass bulk decode (`signals_f64`) agrees with the per-channel path.
use mf4_rs::api::mdf::MDF;
use mf4_rs::parsing::decoder::DecodedValue;
use mf4_rs::signal::{Sample, Scaling, Series};
use miniz_oxide::deflate::compress_to_vec_zlib;

/// The bytes of a file under construction.
struct Image {
    bytes: Vec<u8>,
}

/// What distinguishes one channel from another.
struct Field {
    next: u64,
    name: u64,
    unit: u64,
    conversion: u64,
    data: u64,
    channel_type: u8,
    data_type: u8,
    bit_offset: u8,
    byte_offset: u32,
    bit_count: u32,
    flags: u32,
    invalidation_bit: u32,
}

const PLAIN: Field = Field {
    next: 0,
    name: 0,
    unit: 0,
    conversion: 0,
    data: 0,
    channel_type: 0,
    data_type: 0,
    bit_offset: 0,
    byte_offset: 0,
    bit_count: 0,
    flags: 0,
    invalidation_bit: 0,
};

impl Image {
    /// The identification, and a header without links.
    fn new() -> Image {
        let mut bytes = Vec::new();
        bytes.extend_from_slice(b"MDF     4.10    reader  ");
        bytes.resize(28, 0);
        bytes.extend_from_slice(&410u16.to_le_bytes());
        bytes.resize(64, 0);
        let mut image = Image { bytes };
        image.block("##HD", &[0; 6], &[0; 32]);
        image
    }

    fn block(&mut self, id: &str, links: &[u64], data: &[u8]) -> u64 {
        while self.bytes.len() % 8 != 0 {
            self.bytes.push(0);
        }
        let address = self.bytes.len() as u64;
        let len = 24 + 8 * links.len() + data.len();
        self.bytes.extend_from_slice(id.as_bytes());
        self.bytes.extend_from_slice(&[0; 4]);
        self.bytes.extend_from_slice(&(len as u64).to_le_bytes());
        self.bytes.extend_from_slice(&(links.len() as u64).to_le_bytes());
        for link in links {
            self.bytes.extend_from_slice(&link.to_le_bytes());
        }
        self.bytes.extend_from_slice(data);
        address
    }

    fn set_u64(&mut self, at: u64, value: u64) {
        let at = at as usize;
        self.bytes[at..at + 8].copy_from_slice(&value.to_le_bytes());
    }

    fn text(&mut self, text: &str) -> u64 {
        let mut data = text.as_bytes().to_vec();
        data.push(0);
        self.block("##TX", &[], &data)
    }

    fn linear(&mut self, offset: f64, factor: f64) -> u64 {
        let mut data = vec![1, 0, 0, 0, 0, 0];
        data.extend_from_slice(&2u16.to_le_bytes());
        data.extend_from_slice(&[0; 16]);
        data.extend_from_slice(&offset.to_le_bytes());
        data.extend_from_slice(&factor.to_le_bytes());
        self.block("##CC", &[0; 4], &data)
    }

    fn channel(&mut self, field: Field) -> u64 {
        let mut data = vec![field.channel_type, 0, field.data_type, field.bit_offset];
        data.extend_from_slice(&field.byte_offset.to_le_bytes());
        data.extend_from_slice(&field.bit_count.to_le_bytes());
        data.extend_from_slice(&field.flags.to_le_bytes());
        data.extend_from_slice(&field.invalidation_bit.to_le_bytes());
        data.resize(72, 0);
        let links =
            [field.next, 0, field.name, 0, field.conversion, field.data, field.unit, 0];
        self.block("##CN", &links, &data)
    }

    fn group(&mut self, links: [u64; 6], cycles: u64, data_bytes: u32, invalidation: u32) -> u64 {
        let mut data = vec![0; 8];
        data.extend_from_slice(&cycles.to_le_bytes());
        data.extend_from_slice(&[0; 8]);
        data.extend_from_slice(&data_bytes.to_le_bytes());
        data.extend_from_slice(&invalidation.to_le_bytes());
        self.block("##CG", &links, &data)
    }

    fn data_group(&mut self, next: u64, group: u64, data: u64, record_id_len: u8) -> u64 {
        self.block("##DG", &[next, group, data, 0], &[record_id_len, 0, 0, 0, 0, 0, 0, 0])
    }

    /// The finished file, whose header leads to `first`.
    fn finish(mut self, first: u64) -> Vec<u8> {
        self.set_u64(64 + 24, first);
        self.bytes
    }
}

/// A compressed block for `data`, transposed into `columns` columns where there are any.
fn compressed(image: &mut Image, data: &[u8], columns: u32) -> u64 {
    let mut stored = data.to_vec();
    if columns > 0 {
        let cols = columns as usize;
        let lines = data.len() / cols;
        for line in 0..lines {
            for col in 0..cols {
                stored[col * lines + line] = data[line * cols + col];
            }
        }
    }
    let packed = compress_to_vec_zlib(&stored, 6);
    let mut body = b"DT".to_vec();
    body.push(if columns > 0 { 1 } else { 0 });
    body.push(0);
    body.extend_from_slice(&columns.to_le_bytes());
    body.extend_from_slice(&(data.len() as u64).to_le_bytes());
    body.extend_from_slice(&(packed.len() as u64).to_le_bytes());
    body.extend_from_slice(&packed);
    image.block("##DZ", &[], &body)
}

/// The records of the first group: a time stamp, a speed in half units above ten, a
/// temperature, a text, and invalidation bits for the temperature.
fn records() -> Vec<u8> {
    let mut data = Vec::new();
    for i in 0..10u16 {
        data.extend_from_slice(&(i as f64 * 0.1).to_le_bytes());
        data.extend_from_slice(&(3 * i).to_le_bytes());
        data.extend_from_slice(&(-7 * i as i16).to_le_bytes());
        data.extend_from_slice(b"go");
        data.push(if i == 4 { 1 } else { 0 });
    }
    data
}

/// Two groups, of which the first has a master, a channel with values of variable length and
/// a name that the second has too.
fn sample(pack: bool) -> Vec<u8> {
    let mut image = Image::new();
    let data = records();
    let data_link = if pack {
        let one = compressed(&mut image, &data[..60], 15);
        let two = compressed(&mut image, &data[60..], 0);
        let list = image.block("##DL", &[0, one, 0, two], &[0; 16]);
        image.block("##HL", &[list], &[0; 8])
    } else {
        image.block("##DT", &[], &data)
    };

    let mut entries = Vec::new();
    for text in ["a", "bcd", "", "e", "f", "gh", "i", "", "j", "klmno"] {
        entries.extend_from_slice(&(text.len() as u32).to_le_bytes());
        entries.extend_from_slice(text.as_bytes());
    }
    let signal_data = image.block("##SD", &[], &entries);

    let unit = image.text("km/h");
    let conversion = image.linear(10.0, 0.5);
    let name = image.text("log");
    let log = image.channel(Field {
        name,
        data: signal_data,
        channel_type: 1,
        data_type: 7,
        bit_count: 64,
        ..PLAIN
    });
    let name = image.text("state");
    let state = image.channel(Field {
        next: log,
        name,
        data_type: 7,
        byte_offset: 12,
        bit_count: 16,
        ..PLAIN
    });
    let name = image.text("temperature");
    let temperature = image.channel(Field {
        next: state,
        name,
        data_type: 2,
        byte_offset: 10,
        bit_count: 16,
        flags: 2,
        ..PLAIN
    });
    let name = image.text("speed");
    let speed = image.channel(Field {
        next: temperature,
        name,
        unit,
        conversion,
        byte_offset: 8,
        bit_count: 16,
        ..PLAIN
    });
    let name = image.text("time");
    let time = image.channel(Field {
        next: speed,
        name,
        channel_type: 2,
        data_type: 4,
        bit_count: 64,
        ..PLAIN
    });
    let group_name = image.text("drive");
    let first_group = image.group([0, time, group_name, 0, 0, 0], 10, 14, 1);

    let other_data = image.block("##DV", &[], &[1, 2, 3]);
    let name = image.text("speed");
    let shadowed = image.channel(Field { name, bit_count: 8, ..PLAIN });
    let name = image.text("counter");
    let counter = image.channel(Field { next: shadowed, name, bit_count: 8, ..PLAIN });
    let second_group = image.group([0, counter, 0, 0, 0, 0], 3, 1, 0);

    let second = image.data_group(0, second_group, other_data, 0);
    let first = image.data_group(second, first_group, data_link, 0);
    image.finish(first)
}

/// The stored number as a floating-point number.
fn number(value: &DecodedValue) -> f64 {
    match value {
        DecodedValue::UnsignedInteger(u) => *u as f64,
        DecodedValue::SignedInteger(i) => *i as f64,
        DecodedValue::Single(bits) => f32::from_bits(*bits) as f64,
        DecodedValue::Double(bits) => f64::from_bits(*bits),
        _ => f64::NAN,
    }
}

/// The physical values of a series.
fn physical(series: &Series) -> Vec<f64> {
    let mut values = Vec::new();
    for sample in &series.samples {
        values.push(match sample {
            Sample::NotANumber => f64::NAN,
            Sample::Stored(value) => match series.scaling {
                Scaling::Identity => number(value),
                Scaling::Linear { offset, factor } => {
                    f64::from_bits(offset) + f64::from_bits(factor) * number(value)
                }
                Scaling::Conversion { address } => panic!("rule at {address}"),
            },
        });
    }
    values
}

/// Every channel of a file, read both ways, must match value-for-value
/// (NaN == NaN) and share the same axis.
fn bulk_matches_per_channel(bytes: Vec<u8>) {
    let mdf = MDF::from_bytes(bytes).expect("open");
    let names: Vec<String> = mdf
        .channel_groups()
        .iter()
        .flat_map(|g| g.channels())
        .filter_map(|c| c.name().ok().flatten())
        .collect();
    assert!(!names.is_empty());
    let refs: Vec<&str> = names.iter().map(String::as_str).collect();

    let bulk = mdf.signals_f64(&refs).expect("bulk read");
    assert_eq!(bulk.len(), refs.len());

    for (name, got) in refs.iter().zip(bulk) {
        let got = got.unwrap_or_else(|| panic!("bulk missed '{name}'"));
        let one = mdf
            .signal(name)
            .expect("per-channel read")
            .unwrap_or_else(|| panic!("signal() missed '{name}'"));
        let values = physical(&got.values);
        let expected = physical(&one.values_f64());
        assert_eq!(values.len(), expected.len(), "{name}: length");
        for (i, (a, b)) in values.iter().zip(&expected).enumerate() {
            assert!(
                a == b || (a.is_nan() && b.is_nan()),
                "{name}[{i}]: bulk {a} vs signal {b}"
            );
        }
        assert_eq!(physical(&got.timestamps), physical(&one.timestamps), "{name}: axis");
        assert_eq!(got.unit, one.unit, "{name}: unit");
    }
}

#[test]
fn bulk_read_matches_on_a_plain_file() {
    bulk_matches_per_channel(sample(false));
}

#[test]
fn bulk_read_matches_on_a_compressed_file() {
    bulk_matches_per_channel(sample(true));
}

#[test]
fn unknown_names_come_back_none_in_order() {
    let mdf = MDF::from_bytes(sample(true)).expect("open");
    let first = mdf
        .channel_groups()
        .iter()
        .flat_map(|g| g.channels())
        .find_map(|c| c.name().ok().flatten())
        .expect("a named channel");
    let out = mdf
        .signals_f64(&["no_such_channel", first.as_str()])
        .expect("bulk read");
    assert!(out[0].is_none());
    assert!(out[1].is_some());
}

#[test]
fn bulk_read_gives_exact_values() {
    for pack in [false, true] {
        let mdf = MDF::from_bytes(sample(pack)).expect("open");
        let out = mdf
            .signals_f64(&["speed", "time", "temperature", "state", "log", "counter", "speed"])
            .expect("bulk read");
        let out: Vec<_> = out.into_iter().map(|signal| signal.expect("found")).collect();
        let times: Vec<f64> = (0..10).map(|i| i as f64 * 0.1).collect();

        assert_eq!(out[0].name, "speed");
        assert_eq!(out[0].unit.as_deref(), Some("km/h"));
        let speeds: Vec<f64> = (0..10).map(|i| 10.0 + 0.5 * (3 * i) as f64).collect();
        assert_eq!(physical(&out[0].values), speeds);
        assert_eq!(physical(&out[0].timestamps), times);

        assert_eq!(physical(&out[1].values), times);
        assert!(out[1].timestamps.samples.is_empty());

        for (i, value) in physical(&out[2].values).into_iter().enumerate() {
            if i == 4 {
                assert!(value.is_nan());
            } else {
                assert_eq!(value, -7.0 * i as f64);
            }
        }
        assert_eq!(out[3].values.samples.len(), 10);
        assert!(physical(&out[3].values).iter().all(|value| value.is_nan()));
        assert_eq!(out[4].values.samples.len(), 10);
        assert_eq!(physical(&out[4].timestamps), times);
        assert_eq!(physical(&out[5].values), [1.0, 2.0, 3.0]);
        assert!(out[5].timestamps.samples.is_empty());
        assert_eq!(physical(&out[6].values), speeds);
    }
}

#[test]
fn names_without_a_channel_touch_no_data() {
    let mut image = Image::new();
    let name = image.text("a");
    let channel = image.channel(Field { name, bit_count: 8, ..PLAIN });
    let group = image.group([0, channel, 0, 0, 0, 0], 1, 1, 0);
    let broken = image.text("no data");
    let first = image.data_group(0, group, broken, 0);
    let mdf = MDF::from_bytes(image.finish(first)).expect("open");
    let groups = mdf.channel_groups();
    let out = groups[0].signals_f64(&["b", "c"]).expect("no data is read");
    assert!(out.len() == 2 && out.iter().all(Option::is_none));
    assert!(groups[0].signals_f64(&["b", "a"]).is_err());
    assert!(groups[0].signal("a").is_err());
    assert!(mdf.signals_f64(&[]).expect("nothing asked for").is_empty());
}

#[test]
fn a_master_alone_is_read_in_bulk() {
    let mdf = MDF::from_bytes(sample(false)).expect("open");
    let out = mdf.channel_groups()[0].signals_f64(&["time", "time"]).expect("bulk read");
    for signal in out {
        let signal = signal.expect("found");
        assert_eq!(signal.values.samples.len(), 10);
        assert!(signal.timestamps.samples.is_empty());
    }
}

#[test]
fn a_later_unreadable_name_stops_neither_read() {
    let mut image = Image::new();
    let data = image.block("##DT", &[], &[5]);
    let unreadable = image.channel(Field { name: 1 << 40, bit_count: 8, ..PLAIN });
    let name = image.text("a");
    let channel = image.channel(Field { next: unreadable, name, bit_count: 8, ..PLAIN });
    let group = image.group([0, channel, 0, 0, 0, 0], 1, 1, 0);
    let first = image.data_group(0, group, data, 0);
    let mdf = MDF::from_bytes(image.finish(first)).expect("open");
    let one = mdf.signal("a").expect("found before the name").expect("found");
    assert_eq!(physical(&one.values_f64()), [5.0]);
    let several = mdf.signals_f64(&["a", "a"]).expect("found before the name");
    assert_eq!(several.len(), 2);
    for signal in several {
        assert_eq!(physical(&signal.expect("found").values), [5.0]);
    }
    let groups = mdf.channel_groups();
    assert!(groups[0].signals_f64(&["a"]).is_ok());
    assert!(groups[0].signals_f64(&[]).expect("no name is read").is_empty());
    let alone = groups[0].signal("b").expect_err("the name stands in the way");
    let together = groups[0].signals_f64(&["a", "b", "c"]).expect_err("so it does here");
    assert_eq!(format!("{alone:?}"), format!("{together:?}"));
    assert!(mdf.signal("b").is_err());
    assert!(mdf.channel("b").is_none());
}

#[test]
fn a_master_behind_an_unreadable_name_is_found() {
    let mut image = Image::new();
    let data = image.block("##DT", &[], &[5, 1, 6, 2]);
    let master = image.channel(Field {
        name: 1 << 40,
        channel_type: 2,
        byte_offset: 1,
        bit_count: 8,
        ..PLAIN
    });
    let name = image.text("a");
    let channel = image.channel(Field { next: master, name, bit_count: 8, ..PLAIN });
    let group = image.group([0, channel, 0, 0, 0, 0], 2, 2, 0);
    let first = image.data_group(0, group, data, 0);
    let mdf = MDF::from_bytes(image.finish(first)).expect("open");
    let one = mdf.signal("a").expect("read").expect("found");
    let several = mdf.signals_f64(&["a"]).expect("read");
    let bulk = several[0].as_ref().expect("found");
    assert_eq!(physical(&bulk.values), [5.0, 6.0]);
    assert_eq!(physical(&bulk.timestamps), [1.0, 2.0]);
    assert_eq!(physical(&one.timestamps), [1.0, 2.0]);
}
