//! Files as a whole: groups, channels, signals, and what is refused.
use mf4_rs::api::mdf::MDF;
use mf4_rs::blocks::channel_block::read_conversion;
use mf4_rs::blocks::conversion::{find_key, ConversionType};
use mf4_rs::error::MdfError;
use mf4_rs::parsing::decoder::DecodedValue;
use mf4_rs::signal::{Sample, Scaling, Series};

/// The bytes of a file under construction.
struct Image {
    bytes: Vec<u8>,
}

/// What distinguishes one channel from another.
struct Field {
    next: u64,
    name: u64,
    unit: u64,
    conversion: u64,
    data: u64,
    channel_type: u8,
    data_type: u8,
    bit_offset: u8,
    byte_offset: u32,
    bit_count: u32,
    flags: u32,
    invalidation_bit: u32,
}

const PLAIN: Field = Field {
    next: 0,
    name: 0,
    unit: 0,
    conversion: 0,
    data: 0,
    channel_type: 0,
    data_type: 0,
    bit_offset: 0,
    byte_offset: 0,
    bit_count: 0,
    flags: 0,
    invalidation_bit: 0,
};

impl Image {
    /// The identification, and a header without links.
    fn new() -> Image {
        let mut bytes = Vec::new();
        bytes.extend_from_slice(b"MDF     4.10    reader  ");
        bytes.resize(28, 0);
        bytes.extend_from_slice(&410u16.to_le_bytes());
        bytes.resize(64, 0);
        let mut image = Image { bytes };
        image.block("##HD", &[0; 6], &[0; 32]);
        image
    }

    fn block(&mut self, id: &str, links: &[u64], data: &[u8]) -> u64 {
        while self.bytes.len() % 8 != 0 {
            self.bytes.push(0);
        }
        let address = self.bytes.len() as u64;
        let len = 24 + 8 * links.len() + data.len();
        self.bytes.extend_from_slice(id.as_bytes());
        self.bytes.extend_from_slice(&[0; 4]);
        self.bytes.extend_from_slice(&(len as u64).to_le_bytes());
        self.bytes.extend_from_slice(&(links.len() as u64).to_le_bytes());
        for link in links {
            self.bytes.extend_from_slice(&link.to_le_bytes());
        }
        self.bytes.extend_from_slice(data);
        address
    }

    fn set_u64(&mut self, at: u64, value: u64) {
        let at = at as usize;
        self.bytes[at..at + 8].copy_from_slice(&value.to_le_bytes());
    }

    fn text(&mut self, text: &str) -> u64 {
        let mut data = text.as_bytes().to_vec();
        data.push(0);
        self.block("##TX", &[], &data)
    }

    fn linear(&mut self, offset: f64, factor: f64) -> u64 {
        let mut data = vec![1, 0, 0, 0, 0, 0];
        data.extend_from_slice(&2u16.to_le_bytes());
        data.extend_from_slice(&[0; 16]);
        data.extend_from_slice(&offset.to_le_bytes());
        data.extend_from_slice(&factor.to_le_bytes());
        self.block("##CC", &[0; 4], &data)
    }

    fn channel(&mut self, field: Field) -> u64 {
        let mut data = vec![field.channel_type, 0, field.data_type, field.bit_offset];
        data.extend_from_slice(&field.byte_offset.to_le_bytes());
        data.extend_from_slice(&field.bit_count.to_le_bytes());
        data.extend_from_slice(&field.flags.to_le_bytes());
        data.extend_from_slice(&field.invalidation_bit.to_le_bytes());
        data.resize(72, 0);
        let links =
            [field.next, 0, field.name, 0, field.conversion, field.data, field.unit, 0];
        self.block("##CN", &links, &data)
    }

    fn group(&mut self, links: [u64; 6], cycles: u64, data_bytes: u32, invalidation: u32) -> u64 {
        let mut data = vec![0; 8];
        data.extend_from_slice(&cycles.to_le_bytes());
        data.extend_from_slice(&[0; 8]);
        data.extend_from_slice(&data_bytes.to_le_bytes());
        data.extend_from_slice(&invalidation.to_le_bytes());
        self.block("##CG", &links, &data)
    }

    fn data_group(&mut self, next: u64, group: u64, data: u64, record_id_len: u8) -> u64 {
        self.block("##DG", &[next, group, data, 0], &[record_id_len, 0, 0, 0, 0, 0, 0, 0])
    }

    /// The finished file, whose header leads to `first`.
    fn finish(mut self, first: u64) -> Vec<u8> {
        self.set_u64(64 + 24, first);
        self.bytes
    }
}

/// The stored numbers of a series without scaling.
fn integers(series: &Series) -> Vec<Option<i128>> {
    let mut values = Vec::new();
    for sample in &series.samples {
        values.push(match sample {
            Sample::Stored(DecodedValue::UnsignedInteger(u)) => Some(*u as i128),
            Sample::Stored(DecodedValue::SignedInteger(i)) => Some(*i as i128),
            Sample::Stored(other) => panic!("{other:?}"),
            Sample::NotANumber => None,
        });
    }
    values
}

/// One group of single-byte channels with the given names, the first of them a master.
fn bytes_group(
    image: &mut Image,
    names: &[&str],
    group_name: &str,
    data: &[u8],
) -> (u64, u64) {
    let mut next = 0;
    for (i, name) in names.iter().enumerate().rev() {
        let name = image.text(name);
        next = image.channel(Field {
            next,
            name,
            channel_type: if i == 0 { 2 } else { 0 },
            byte_offset: i as u32,
            bit_count: 8,
            ..PLAIN
        });
    }
    let group_name = image.text(group_name);
    let size = names.len() as u32;
    let group = image.group([0, next, group_name, 0, 0, 0], 2, size, 0);
    let data = image.block("##DT", &[], data);
    (group, data)
}

fn two_groups() -> Vec<u8> {
    let mut image = Image::new();
    let (group, data) = bytes_group(&mut image, &["t", "x", "y"], "one", &[1, 10, 20, 2, 11, 21]);
    let comment = image.block("##MD", &[], b"<CN/>\0\0\0");
    let source_name = image.text("ECU");
    let source_path = image.text("can1");
    let source = image.block("##SI", &[source_name, source_path, 0], &[1, 2, 0, 0, 0, 0, 0, 0]);
    image.set_u64(group + 24 + 8 * 3, source);
    image.set_u64(group + 24 + 8 * 5, comment);
    let (other_group, other_data) =
        bytes_group(&mut image, &["t", "z", "x"], "two", &[5, 30, 40, 6, 31, 41]);
    let second = image.data_group(0, other_group, other_data, 0);
    let first = image.data_group(second, group, data, 0);
    image.finish(first)
}

#[test]
fn groups_and_channels_come_in_file_order() {
    let mdf = MDF::from_bytes(two_groups()).expect("open");
    let groups = mdf.channel_groups();
    let names: Vec<_> = groups.iter().map(|g| g.name().expect("name").expect("some")).collect();
    assert_eq!(names, ["one", "two"]);
    let channels: Vec<_> = groups
        .iter()
        .flat_map(|g| g.channels())
        .map(|c| c.name().expect("name").expect("some"))
        .collect();
    assert_eq!(channels, ["t", "x", "y", "t", "z", "x"]);
    assert_eq!(groups[0].raw_channel_group().raw_channels.len(), 3);
    assert_eq!(groups[0].mmap().len(), two_groups().len());
}

#[test]
fn metadata_of_groups_is_read() {
    let mdf = MDF::from_bytes(two_groups()).expect("open");
    let group = mdf.group("one").expect("found");
    assert_eq!(group.comment().expect("comment").as_deref(), Some("<CN/>"));
    let source = group.source().expect("source").expect("some");
    assert_eq!(source.name.as_deref(), Some("ECU"));
    assert_eq!(source.path.as_deref(), Some("can1"));
    assert_eq!(source.comment, None);
    assert_eq!((source.block.source_type, source.block.bus_type), (1, 2));
    let group = mdf.group("two").expect("found");
    assert!(group.source().expect("none").is_none());
    assert_eq!(group.comment().expect("none"), None);
    assert!(mdf.group("three").is_none());
}

#[test]
fn lookups_give_the_first_match() {
    let mdf = MDF::from_bytes(two_groups()).expect("open");
    let channel = mdf.channel("x").expect("found");
    assert_eq!(channel.block().byte_offset, 1);
    assert_eq!(mdf.channel("z").expect("found").block().byte_offset, 1);
    assert!(mdf.channel("w").is_none());
    let group = mdf.group("two").expect("found");
    assert_eq!(group.channel("x").expect("found").block().byte_offset, 2);
    assert!(group.channel("y").is_none());
    assert_eq!(channel.unit().expect("unit"), None);
    assert_eq!(channel.comment().expect("comment"), None);
}

#[test]
fn signals_pair_values_with_the_master() {
    let mdf = MDF::from_bytes(two_groups()).expect("open");
    let signal = mdf.signal("x").expect("read").expect("found");
    assert_eq!(signal.name, "x");
    assert_eq!(integers(&signal.values_f64()), [Some(10), Some(11)]);
    assert_eq!(integers(&signal.timestamps), [Some(1), Some(2)]);
    assert!(signal.has_timestamps());
    let signal = mdf.signal("z").expect("read").expect("found");
    assert_eq!(integers(&signal.values_f64()), [Some(30), Some(31)]);
    assert_eq!(integers(&signal.timestamps), [Some(5), Some(6)]);
    let master = mdf.signal("t").expect("read").expect("found");
    assert_eq!(integers(&master.values_f64()), [Some(1), Some(2)]);
    assert!(!master.has_timestamps());
    assert!(mdf.signal("w").expect("read").is_none());
}

#[test]
fn several_signals_across_groups_align_with_their_names() {
    let mdf = MDF::from_bytes(two_groups()).expect("open");
    let names = ["z", "w", "x", "t", "z", "y"];
    let out = mdf.signals_f64(&names).expect("read");
    let found: Vec<_> = out
        .iter()
        .map(|signal| signal.as_ref().map(|s| integers(&s.values)))
        .collect();
    let some = |a: i128, b: i128| Some(vec![Some(a), Some(b)]);
    assert_eq!(
        found,
        [some(30, 31), None, some(10, 11), some(1, 2), some(30, 31), some(20, 21)]
    );
    for (name, signal) in names.iter().zip(&out) {
        let one = mdf.signal(name).expect("read");
        assert_eq!(one.is_some(), signal.is_some());
        if let (Some(one), Some(several)) = (one, signal) {
            assert_eq!(one.name, several.name);
            assert_eq!(integers(&one.timestamps), integers(&several.timestamps));
        }
    }
}

#[test]
fn start_time_is_none_where_it_is_not_set() {
    let mdf = MDF::from_bytes(two_groups()).expect("open");
    assert_eq!(mdf.start_time_ns(), None);
    let mut bytes = two_groups();
    bytes[64 + 72..64 + 80].copy_from_slice(&1_700_000_000_000_000_000u64.to_le_bytes());
    let mdf = MDF::from_bytes(bytes).expect("open");
    assert_eq!(mdf.start_time_ns(), Some(1_700_000_000_000_000_000));
}

#[test]
fn broken_identifications_are_refused() {
    match MDF::from_bytes(vec![0; 63]) {
        Err(MdfError::TooShortBuffer { actual, expected }) => assert_eq!((actual, expected), (63, 64)),
        other => panic!("{other:?}"),
    }
    let mut bytes = two_groups();
    bytes[0] = b'X';
    match MDF::from_bytes(bytes) {
        Err(MdfError::FileIdentifierError(found)) => assert_eq!(found, "XDF     "),
        other => panic!("{other:?}"),
    }
    let mut bytes = two_groups();
    bytes[28..30].copy_from_slice(&330u16.to_le_bytes());
    match MDF::from_bytes(bytes) {
        Err(MdfError::FileVersioningError(found)) => assert_eq!(found, 330),
        other => panic!("{other:?}"),
    }
    let mut bytes = two_groups();
    bytes[64..68].copy_from_slice(b"##XX");
    match MDF::from_bytes(bytes) {
        Err(MdfError::BlockIDError { actual, expected }) => {
            assert_eq!((actual.as_str(), expected.as_str()), ("##XX", "##HD"));
        }
        other => panic!("{other:?}"),
    }
    match MDF::from_bytes(two_groups()[..100].to_vec()) {
        Err(MdfError::TooShortBuffer { actual, expected }) => assert_eq!((actual, expected), (36, 80)),
        other => panic!("{other:?}"),
    }
}

#[test]
fn chains_that_come_back_are_refused() {
    let mut image = Image::new();
    let channel = image.channel(Field { bit_count: 8, ..PLAIN });
    image.set_u64(channel + 24, channel);
    let group = image.group([0, channel, 0, 0, 0, 0], 0, 1, 0);
    let first = image.data_group(0, group, 0, 0);
    match MDF::from_bytes(image.finish(first)) {
        Err(MdfError::BlockLinkError(text)) => assert_eq!(
            text,
            format!("cycle detected in channel chain at address {channel:#x}")
        ),
        other => panic!("{other:?}"),
    }
    let mut image = Image::new();
    let group = image.group([0; 6], 0, 1, 0);
    image.set_u64(group + 24, group);
    let first = image.data_group(0, group, 0, 0);
    match MDF::from_bytes(image.finish(first)) {
        Err(MdfError::BlockLinkError(text)) => assert_eq!(
            text,
            format!("cycle detected in channel group chain at address {group:#x}")
        ),
        other => panic!("{other:?}"),
    }
    let mut image = Image::new();
    let first = image.data_group(0, 0, 0, 0);
    image.set_u64(first + 24, first);
    match MDF::from_bytes(image.finish(first)) {
        Err(MdfError::BlockLinkError(text)) => assert_eq!(
            text,
            format!("cycle detected in data group chain at address {first:#x}")
        ),
        other => panic!("{other:?}"),
    }
}

#[test]
fn blocks_with_too_few_links_are_refused() {
    let mut image = Image::new();
    let first = image.block("##DG", &[0, 0, 0], &[0; 8]);
    match MDF::from_bytes(image.finish(first)) {
        Err(MdfError::BlockLinkError(text)) => assert_eq!(text, "block with too few links"),
        other => panic!("{other:?}"),
    }
}

#[test]
fn unsorted_groups_keep_their_metadata() {
    let mut image = Image::new();
    let (group, data) = bytes_group(&mut image, &["t", "x"], "one", &[1, 1, 10, 1, 2, 11]);
    let (other, _) = bytes_group(&mut image, &["u"], "two", &[]);
    image.set_u64(group + 24, other);
    let first = image.data_group(0, group, data, 1);
    let mdf = MDF::from_bytes(image.finish(first)).expect("open");
    assert_eq!(mdf.channel_groups().len(), 2);
    assert!(mdf.channel("u").is_some());
    match mdf.signal("x") {
        Err(MdfError::BlockSerializationError(text)) => assert_eq!(
            text,
            "unsorted data groups (multiple channel groups per data group) are not supported"
        ),
        other => panic!("{other:?}"),
    }
    assert!(mdf.signals_f64(&["x"]).is_err());
}

#[test]
fn a_record_id_precedes_the_values() {
    let mut image = Image::new();
    let (group, data) = bytes_group(&mut image, &["t", "x"], "one", &[9, 1, 10, 9, 2, 11]);
    let first = image.data_group(0, group, data, 1);
    let mdf = MDF::from_bytes(image.finish(first)).expect("open");
    let signal = mdf.signal("x").expect("read").expect("found");
    assert_eq!(integers(&signal.values_f64()), [Some(10), Some(11)]);
    assert_eq!(integers(&signal.timestamps), [Some(1), Some(2)]);
}

#[test]
fn records_do_not_reach_into_the_next_block() {
    let mut image = Image::new();
    let (group, _) = bytes_group(&mut image, &["t", "x"], "one", &[]);
    let one = image.block("##DT", &[], &[1, 10, 99]);
    let two = image.block("##DT", &[], &[2, 11, 3, 12]);
    let tail = image.block("##DL", &[0, two], &[0; 16]);
    let list = image.block("##DL", &[tail, one, 0], &[0; 16]);
    let first = image.data_group(0, group, list, 0);
    let mdf = MDF::from_bytes(image.finish(first)).expect("open");
    let signal = mdf.signal("x").expect("read").expect("found");
    assert_eq!(integers(&signal.values_f64()), [Some(10), Some(11), Some(12)]);
    assert_eq!(integers(&signal.timestamps), [Some(1), Some(2), Some(3)]);
}

#[test]
fn empty_records_give_no_values() {
    let mut image = Image::new();
    let name = image.text("x");
    let channel = image.channel(Field { name, bit_count: 8, ..PLAIN });
    let group = image.group([0, channel, 0, 0, 0, 0], 5, 0, 0);
    let broken = image.text("no data");
    let first = image.data_group(0, group, broken, 0);
    let mdf = MDF::from_bytes(image.finish(first)).expect("open");
    let signal = mdf.signal("x").expect("read").expect("found");
    assert!(signal.values.is_empty());
    let several = mdf.signals_f64(&["x"]).expect("read");
    assert!(several[0].as_ref().expect("found").values.samples.is_empty());
}

#[test]
fn channels_can_be_invalid_as_a_whole() {
    let mut image = Image::new();
    let data = image.block("##DT", &[], &[1, 2, 3]);
    let name = image.text("x");
    let channel = image.channel(Field { name, bit_count: 8, flags: 1, ..PLAIN });
    let group = image.group([0, channel, 0, 0, 0, 0], 3, 1, 0);
    let first = image.data_group(0, group, data, 0);
    let mdf = MDF::from_bytes(image.finish(first)).expect("open");
    let signal = mdf.signal("x").expect("read").expect("found");
    assert_eq!(signal.values.len(), 3);
    assert_eq!(integers(&signal.values_f64()), [None, None, None]);
}

#[test]
fn conversion_rules_decide_the_scaling() {
    for (code, count) in [(0u8, 0u16), (1, 2), (1, 1), (7, 0)] {
        let mut image = Image::new();
        let mut body = vec![code, 0, 0, 0, 0, 0];
        body.extend_from_slice(&count.to_le_bytes());
        body.extend_from_slice(&[0; 16]);
        for i in 0..count {
            body.extend_from_slice(&(i as f64 + 1.5).to_le_bytes());
        }
        let rule = image.block("##CC", &[0; 4], &body);
        let data = image.block("##DT", &[], b"ab");
        let name = image.text("x");
        let channel = image.channel(Field {
            name,
            conversion: rule,
            data_type: 7,
            bit_count: 8,
            ..PLAIN
        });
        let group = image.group([0, channel, 0, 0, 0, 0], 2, 1, 0);
        let first = image.data_group(0, group, data, 0);
        let mdf = MDF::from_bytes(image.finish(first)).expect("open");
        let scaling = mdf.channel("x").expect("found").scaling();
        let series = mdf.signal("x").expect("read").expect("found").values_f64();
        if code == 0 {
            assert_eq!(scaling, Scaling::Identity);
            assert!(matches!(series.samples[0], Sample::NotANumber));
        } else if count == 2 {
            assert_eq!(
                scaling,
                Scaling::Linear { offset: 1.5f64.to_bits(), factor: 2.5f64.to_bits() }
            );
            assert!(matches!(series.samples[1], Sample::NotANumber));
        } else {
            assert_eq!(scaling, Scaling::Conversion { address: rule });
            assert!(matches!(series.samples[1], Sample::Stored(DecodedValue::Bytes(_, _))));
        }
    }
}

#[test]
fn values_of_variable_length_have_a_length_of_their_own() {
    let mut image = Image::new();
    let one = image.block("##SD", &[], &[1, 0, 0, 0, 7, 2, 0, 0, 0]);
    let two = image.block("##SD", &[], &[5, 1, 0, 0]);
    let list = image.block("##DL", &[0, one, 0, two], &[0; 16]);
    let data = image.block("##DT", &[], &[1, 2, 3]);
    let name = image.text("x");
    let values = image.channel(Field {
        name,
        channel_type: 1,
        data: list,
        bit_count: 16,
        ..PLAIN
    });
    let name = image.text("t");
    let time = image.channel(Field { next: values, name, channel_type: 2, bit_count: 8, ..PLAIN });
    let group = image.group([0, time, 0, 0, 0, 0], 3, 1, 0);
    let first = image.data_group(0, group, data, 0);
    let mdf = MDF::from_bytes(image.finish(first)).expect("open");
    let signal = mdf.signal("x").expect("read").expect("found");
    assert_eq!(integers(&signal.values_f64()), [Some(7), Some(261)]);
    assert_eq!(signal.timestamps.samples.len(), 3);
    let several = mdf.signals_f64(&["x"]).expect("read");
    assert_eq!(integers(&several[0].as_ref().expect("found").values), [Some(7), Some(261)]);
}

#[test]
fn ill_formed_names_are_read_with_replacements() {
    let mut image = Image::new();
    let name = image.block("##TX", &[], &[b'a', 0xff, b'b', 0, b'c']);
    let channel = image.channel(Field { name, bit_count: 8, ..PLAIN });
    let group = image.group([0, channel, 0, 0, 0, 0], 0, 1, 0);
    let first = image.data_group(0, group, 0, 0);
    let mdf = MDF::from_bytes(image.finish(first)).expect("open");
    let channels = mdf.channel_groups()[0].channels();
    assert_eq!(channels[0].name().expect("name").as_deref(), Some("a\u{fffd}b"));
    assert!(mdf.channel("a\u{fffd}b").is_some());
}

#[test]
fn the_layout_lists_every_block_once() {
    let bytes = two_groups();
    let mdf = MDF::from_bytes(bytes.clone()).expect("open");
    let layout = mdf.file_layout().expect("layout");
    assert_eq!(layout.file_size, bytes.len());
    assert_eq!(layout.blocks[0].address, 64);
    assert_eq!(layout.blocks[0].id, "##HD");
    assert_eq!(layout.blocks[1].id, "##DG");
    assert_eq!(layout.blocks[2].id, "##DG");
    let count = |id: &str| layout.blocks.iter().filter(|block| block.id == id).count();
    assert_eq!(count("##CN"), 6);
    assert_eq!(count("##CG"), 2);
    assert_eq!(count("##DT"), 2);
    assert_eq!(count("##SI"), 1);
    assert_eq!(count("##MD"), 1);
    assert_eq!(count("##TX"), 10);
    assert_eq!(layout.blocks.len(), 25);
    for block in &layout.blocks {
        for link in &block.links {
            let hits = layout.blocks.iter().filter(|other| other.address == *link).count();
            assert_eq!(hits, if *link == 0 { 0 } else { 1 });
        }
    }
    let mut broken = bytes;
    let at = broken.len() as u64 + 8;
    broken[64 + 32..64 + 40].copy_from_slice(&at.to_le_bytes());
    let mdf = MDF::from_bytes(broken).expect("open");
    assert!(matches!(mdf.file_layout(), Err(MdfError::TooShortBuffer { .. })));
}

#[test]
fn the_first_master_wins() {
    let mut image = Image::new();
    let name = image.text("late");
    let late = image.channel(Field {
        name,
        channel_type: 2,
        byte_offset: 2,
        bit_count: 8,
        ..PLAIN
    });
    let name = image.text("early");
    let early = image.channel(Field {
        next: late,
        name,
        channel_type: 2,
        byte_offset: 1,
        bit_count: 8,
        ..PLAIN
    });
    let name = image.text("x");
    let channel = image.channel(Field { next: early, name, bit_count: 8, ..PLAIN });
    let group = image.group([0, channel, 0, 0, 0, 0], 2, 3, 0);
    let data = image.block("##DT", &[], &[1, 2, 3, 4, 5, 6]);
    let first = image.data_group(0, group, data, 0);
    let mdf = MDF::from_bytes(image.finish(first)).expect("open");
    let axis = |name: &str| {
        let signal = mdf.signal(name).expect("read").expect("found");
        let several = mdf.signals_f64(&[name]).expect("read");
        let bulk = integers(&several[0].as_ref().expect("found").timestamps);
        assert_eq!(integers(&signal.timestamps), bulk);
        bulk
    };
    assert_eq!(axis("x"), [Some(2), Some(5)]);
    assert_eq!(axis("late"), [Some(2), Some(5)]);
    assert!(axis("early").is_empty());
}

#[test]
fn groups_behind_the_last_match_are_not_asked() {
    let mut image = Image::new();
    let (group, data) = bytes_group(&mut image, &["t", "x"], "one", &[1, 10, 2, 11]);
    let unreadable = image.channel(Field { name: 1 << 40, bit_count: 8, ..PLAIN });
    let broken = image.group([0, unreadable, 0, 0, 0, 0], 0, 1, 0);
    let second = image.data_group(0, broken, 0, 0);
    let first = image.data_group(second, group, data, 0);
    let mdf = MDF::from_bytes(image.finish(first)).expect("open");
    assert!(mdf.signals_f64(&["x", "t"]).is_ok());
    assert!(mdf.signals_f64(&["x", "y"]).is_err());
    assert!(mdf.signal("x").is_ok());
    assert!(mdf.signal("y").is_err());
}

#[test]
fn rules_keep_their_parameters_and_references() {
    let mut image = Image::new();
    let low = image.text("low");
    let high = image.text("high");
    let mut body = vec![7, 0, 0, 0, 2, 0];
    body.extend_from_slice(&1u16.to_le_bytes());
    body.extend_from_slice(&[0; 16]);
    body.extend_from_slice(&3.0f64.to_le_bytes());
    let rule = image.block("##CC", &[0, 0, 0, 0, low, high], &body);
    let read = read_conversion(&image.bytes, rule).expect("rule").expect("some");
    assert_eq!(read.cc_type, ConversionType::ValueToText);
    assert_eq!(read.cc_val, [3.0f64.to_bits()]);
    assert_eq!(read.cc_ref, [low, high]);
    assert_eq!(find_key(&image.bytes, &read.cc_ref, "high").expect("read"), Some(1));
    assert_eq!(find_key(&image.bytes, &read.cc_ref, "mid").expect("read"), None);
    assert_eq!(find_key(&image.bytes, &[0, high, high], "high").expect("read"), Some(1));
    assert!(find_key(&image.bytes, &[1 << 40, high], "high").is_err());
    assert_eq!(find_key(&image.bytes, &[high, 1 << 40], "high").expect("read"), Some(0));
    assert!(read_conversion(&image.bytes, 0).expect("null link").is_none());
    assert!(read_conversion(&image.bytes, low).is_err());
}

#[test]
fn bulk_signals_can_be_copied() {
    let mdf = MDF::from_bytes(two_groups()).expect("open");
    let several = mdf.signals_f64(&["x", "w"]).expect("read");
    let copies = several.clone();
    let (signal, copy) = (several[0].as_ref().expect("found"), copies[0].as_ref().expect("found"));
    assert_eq!((&signal.name, &signal.unit), (&copy.name, &copy.unit));
    assert_eq!(integers(&signal.values), integers(&copy.values));
    assert_eq!(integers(&copy.timestamps), [Some(1), Some(2)]);
    assert!(copies[1].is_none());
}
