use std::collections::BTreeMap;

use defmt_decoder::bitfield::merge_bitfields;
use defmt_decoder::decoder;
use defmt_decoder::decoder::{Arg, Frame};
use defmt_decoder::fragment::{ArgType, Param};
use defmt_decoder::render::{frame_floats, FloatBits, FloatTable};
use defmt_decoder::table::{Table, TableEntry, Tag};
use defmt_decoder::Level;

fn float_table(frame: &Frame) -> FloatTable {
    FloatTable {
        texts: frame_floats(frame)
            .into_iter()
            .map(|b| {
                let text = match b {
                    FloatBits::Single(x) => ryu::Buffer::new().format(f32::from_bits(x)).to_string(),
                    FloatBits::Double(x) => ryu::Buffer::new().format(f64::from_bits(x)).to_string(),
                };
                (b, text)
            })
            .collect(),
    }
}


fn render(frame: &Frame) -> String {
    frame.display(false).to_string_with(&float_table(&frame))
}

fn table_with_timestamp(entries: BTreeMap<usize, TableEntry>) -> Table {
    Table {
        entries,
        timestamp: Some(TableEntry::new_without_symbol(
            Tag::Timestamp,
            "{=u8:µs}".to_owned(),
        )),
    }
}

// format:       format string to be expanded
// bytes:        arguments + metadata
// expectation:  the expected result
fn decode_and_expect(format: &str, bytes: &[u8], expectation: &str) {
    let mut entries = BTreeMap::new();
    entries.insert(
        bytes[0] as usize,
        TableEntry::new_without_symbol(Tag::Info, format.to_string()),
    );
    let table = table_with_timestamp(entries);
    let frame = decoder::decode(bytes, &table).unwrap().0;
    assert_eq!(render(&frame), expectation.to_owned());
}

#[test]
fn decode() {
    let mut entries = BTreeMap::new();
    entries.insert(
        0,
        TableEntry::new_without_symbol(Tag::Info, "Hello, world!".to_owned()),
    );
    entries.insert(
        1,
        TableEntry::new_without_symbol(Tag::Debug, "The answer is {=u8}!".to_owned()),
    );
    let table = Table {
        entries,
        timestamp: None,
    };

    let bytes = [0];
    assert_eq!(
        decoder::decode(&bytes, &table),
        Ok((
            Frame {
                index: 0,
                level: Level::Info,
                timestamp_format: None,
                timestamp_args: vec![],
                format: "Hello, world!",
                args: vec![],
                bools: vec![],
            },
            bytes.len(),
        ))
    );

    let bytes = [
        1,  // index
        42, // argument
    ];
    assert_eq!(
        decoder::decode(&bytes, &table),
        Ok((
            Frame {
                index: 1,
                level: Level::Debug,
                timestamp_format: None,
                timestamp_args: vec![],
                format: "The answer is {=u8}!",
                args: vec![Arg::Uxx(42)],
                bools: vec![],
            },
            bytes.len(),
        ))
    );
}

#[test]
fn all_integers() {
    const FMT: &str =
        "Hello, {=u8} {=u16} {=u24} {=u32} {=u64} {=u128} {=i8} {=i16} {=i32} {=i64} {=i128}!";
    let mut entries = BTreeMap::new();
    entries.insert(0, TableEntry::new_without_symbol(Tag::Info, FMT.to_owned()));
    let table = Table {
        entries,
        timestamp: None,
    };

    let bytes = [
        0,  // index
        42, // u8
        0xff, 0xff, // u16
        0, 0, 1, // u24
        0xff, 0xff, 0xff, 0xff, // u32
        0xff, 0xff, 0xff, 0xff, 0xff, 0xff, 0xff, 0xff, // u64
        0xff, 0xff, 0xff, 0xff, 0xff, 0xff, 0xff, 0xff, 0xff, 0xff, 0xff, 0xff, 0xff, 0xff,
        0xff, 0xff, // u128
        0xff, // i8
        0xff, 0xff, // i16
        0xff, 0xff, 0xff, 0xff, // i32
        0xff, 0xff, 0xff, 0xff, 0xff, 0xff, 0xff, 0xff, // i64
        0xff, 0xff, 0xff, 0xff, 0xff, 0xff, 0xff, 0xff, 0xff, 0xff, 0xff, 0xff, 0xff, 0xff,
        0xff, 0xff, // i128
    ];

    assert_eq!(
        decoder::decode(&bytes, &table),
        Ok((
            Frame {
                index: 0,
                level: Level::Info,
                timestamp_format: None,
                timestamp_args: vec![],
                format: FMT,
                args: vec![
                    Arg::Uxx(42),                      // u8
                    Arg::Uxx(u16::max_value().into()), // u16
                    Arg::Uxx(0x10000),                 // u24
                    Arg::Uxx(u32::max_value().into()), // u32
                    Arg::Uxx(u64::max_value().into()), // u64
                    Arg::Uxx(u128::max_value()),       // u128
                    Arg::Ixx(-1),                      // i8
                    Arg::Ixx(-1),                      // i16
                    Arg::Ixx(-1),                      // i32
                    Arg::Ixx(-1),                      // i64
                    Arg::Ixx(-1),                      // i128
                ],
                bools: vec![],
            },
            bytes.len(),
        ))
    );
}

#[test]
fn indices() {
    let mut entries = BTreeMap::new();
    entries.insert(
        0,
        TableEntry::new_without_symbol(Tag::Info, "The answer is {0=u8} {0=u8}!".to_owned()),
    );
    entries.insert(
        1,
        TableEntry::new_without_symbol(
            Tag::Info,
            "The answer is {1=u16} {0=u8} {1=u16}!".to_owned(),
        ),
    );
    let table = Table {
        entries,
        timestamp: None,
    };

    let bytes = [
        0,  // index
        42, // argument
    ];
    assert_eq!(
        decoder::decode(&bytes, &table),
        Ok((
            Frame {
                index: 0,
                level: Level::Info,
                timestamp_format: None,
                timestamp_args: vec![],
                format: "The answer is {0=u8} {0=u8}!",
                args: vec![Arg::Uxx(42)],
                bools: vec![],
            },
            bytes.len(),
        ))
    );

    let bytes = [
        1,  // index
        42, // u8
        0xff, 0xff, // u16
    ];
    assert_eq!(
        decoder::decode(&bytes, &table),
        Ok((
            Frame {
                index: 1,
                level: Level::Info,
                timestamp_format: None,
                timestamp_args: vec![],
                format: "The answer is {1=u16} {0=u8} {1=u16}!",
                args: vec![Arg::Uxx(42), Arg::Uxx(0xffff)],
                bools: vec![],
            },
            bytes.len(),
        ))
    );
}

#[test]
fn format() {
    let mut entries = BTreeMap::new();
    entries.insert(
        0,
        TableEntry::new_without_symbol(Tag::Info, "x={=?}".to_owned()),
    );
    entries.insert(
        1,
        TableEntry::new_without_symbol(Tag::Derived, "Foo {{ x: {=u8} }}".to_owned()),
    );
    let table = Table {
        entries,
        timestamp: None,
    };

    let bytes = [
        0,  // index
        1,  // index of the struct
        42, // Foo.x
    ];
    assert_eq!(
        decoder::decode(&bytes, &table),
        Ok((
            Frame {
                index: 0,
                level: Level::Info,
                timestamp_format: None,
                timestamp_args: vec![],
                format: "x={=?}",
                args: vec![Arg::Format {
                    format: "Foo {{ x: {=u8} }}",
                    args: vec![Arg::Uxx(42)]
                }],
                bools: vec![],
            },
            bytes.len(),
        ))
    );
}

#[test]
fn display() {
    let mut entries = BTreeMap::new();
    entries.insert(
        0,
        TableEntry::new_without_symbol(Tag::Info, "x={=?}".to_owned()),
    );
    entries.insert(
        1,
        TableEntry::new_without_symbol(Tag::Derived, "Foo {{ x: {=u8} }}".to_owned()),
    );
    let table = table_with_timestamp(entries);

    let bytes = [
        0,  // index
        2,  // timestamp
        1,  // index of the struct
        42, // Foo.x
    ];
    let frame = decoder::decode(&bytes, &table).unwrap().0;
    assert_eq!(render(&frame), "0.000002 INFO x=Foo { x: 42 }");
}

#[test]
fn bools_simple() {
    let bytes = [
        0,          // index
        2,          // timestamp
        true as u8, // the logged bool value
    ];
    decode_and_expect("my bool={=bool}", &bytes, "0.000002 INFO my bool=true");
}

#[test]
fn bools_max_capacity() {
    let bytes = [
        0,           // index
        2,           // timestamp
        0b0110_0001, // the first 8 logged bool values
    ];
    decode_and_expect(
        "bool capacity {=bool} {=bool} {=bool} {=bool} {=bool} {=bool} {=bool} {=bool}",
        &bytes,
        "0.000002 INFO bool capacity false true true false false false false true",
    );
}

#[test]
fn bools_more_than_fit_in_one_byte() {
    let bytes = [
        0,           // index
        2,           // timestamp
        0b0110_0001, // the first 8 logged bool values
        0b1,         // the final logged bool value
    ];
    decode_and_expect(
        "bool overflow {=bool} {=bool} {=bool} {=bool} {=bool} {=bool} {=bool} {=bool} {=bool}",
        &bytes,
        "0.000002 INFO bool overflow false true true false false false false true true",
    );

    // bools are packed into the first byte even with non-bool values between them
    let bytes = [
        0,           // index
        2,           // timestamp
        0xff,        // the logged u8
        0b0110_0001, // the first 8 logged bool values
        0b1,         // the final logged bool value
    ];
    decode_and_expect(
        "bool overflow {=bool} {=u8} {=bool} {=bool} {=bool} {=bool} {=bool} {=bool} {=bool} {=bool}",
        &bytes,
        "0.000002 INFO bool overflow false 255 true true false false false false true true",
    );

    // a non-bool value right between the two blocks
    let bytes = [
        0,           // index
        2,           // timestamp
        0b0110_0001, // the first 8 logged bool values
        0xff,        // the logged u8
        0b1,         // the final logged bool value
    ];
    decode_and_expect(
        "bool overflow {=bool} {=bool} {=bool} {=bool} {=bool} {=bool} {=bool} {=bool} {=u8} {=bool}",
        &bytes,
        "0.000002 INFO bool overflow false true true false false false false true 255 true",
    );
}

#[test]
fn bools_mixed() {
    let bytes = [
        0,       // index
        2,       // timestamp
        9 as u8, // a uint in between
        0b101,   // 3 packed bools
    ];
    decode_and_expect(
        "hidden bools {=bool} {=u8} {=bool} {=bool}",
        &bytes,
        "0.000002 INFO hidden bools true 9 false true",
    );
}

#[test]
fn bools_mixed_no_trailing_bool() {
    let bytes = [
        0,   // index
        2,   // timestamp
        9,   // a u8 in between
        0b0, // 3 packed bools
    ];
    decode_and_expect(
        "no trailing bools {=bool} {=u8}",
        &bytes,
        "0.000002 INFO no trailing bools false 9",
    );
}

#[test]
fn bools_bool_struct() {
    let mut entries = BTreeMap::new();
    entries.insert(
        0,
        TableEntry::new_without_symbol(Tag::Info, "{=bool} {=?}".to_owned()),
    );
    entries.insert(
        1,
        TableEntry::new_without_symbol(
            Tag::Derived,
            "Flags {{ a: {=bool}, b: {=bool}, c: {=bool} }}".to_owned(),
        ),
    );
    let table = table_with_timestamp(entries);

    let bytes = [
        0,      // index
        2,      // timestamp
        1,      // index of Flags { a: {:bool}, b: {:bool}, c: {:bool} }
        0b1101, // 4 packed bools
    ];
    let frame = decoder::decode(&bytes, &table).unwrap().0;
    assert_eq!(
        render(&frame),
        "0.000002 INFO true Flags { a: true, b: false, c: true }"
    );
}

#[test]
fn bitfields() {
    let bytes = [
        0,           // index
        2,           // timestamp
        0b1110_0101, // u8
    ];
    decode_and_expect(
        "x: {0=0..4:b}, y: {0=3..8:b}",
        &bytes,
        "0.000002 INFO x: 0b101, y: 0b11100",
    );
}

#[test]
fn bitfields_reverse_order() {
    let bytes = [
        0,           // index
        2,           // timestamp
        0b1101_0010, // u8
    ];
    decode_and_expect(
        "x: {0=0..7:b}, y: {0=3..5:b}",
        &bytes,
        "0.000002 INFO x: 0b1010010, y: 0b10",
    );
}

#[test]
fn bitfields_different_indices() {
    let bytes = [
        0,           // index
        2,           // timestamp
        0b1111_0000, // u8
        0b1110_0101, // u8
    ];
    decode_and_expect(
        "#0: {0=0..5:b}, #1: {1=3..8:b}",
        &bytes,
        "0.000002 INFO #0: 0b10000, #1: 0b11100",
    );
}

#[test]
fn bitfields_u16() {
    let bytes = [
        0, // index
        2, // timestamp
        0b1111_0000,
        0b1110_0101, // u16
    ];
    decode_and_expect("x: {0=7..12:b}", &bytes, "0.000002 INFO x: 0b1011");
}

#[test]
fn bitfields_mixed_types() {
    let bytes = [
        0, // index
        2, // timestamp
        0b1111_0000,
        0b1110_0101, // u16
        0b1111_0001, // u8
    ];
    decode_and_expect(
        "#0: {0=7..12:b}, #1: {1=0..5:b}",
        &bytes,
        "0.000002 INFO #0: 0b1011, #1: 0b10001",
    );
}

#[test]
fn bitfields_mixed() {
    let bytes = [
        0, // index
        2, // timestamp
        0b1111_0000,
        0b1110_0101, // u16 bitfields
        42,          // u8
        0b1111_0001, // u8 bitfields
    ];
    decode_and_expect(
        "#0: {0=7..12:b}, #1: {1=u8}, #2: {2=0..5:b}",
        &bytes,
        "0.000002 INFO #0: 0b1011, #1: 42, #2: 0b10001",
    );
}

#[test]
fn bitfields_across_boundaries() {
    let bytes = [
        0, // index
        2, // timestamp
        0b1101_0010,
        0b0110_0011, // u16
    ];
    decode_and_expect(
        "bitfields {0=0..7:b} {0=9..14:b}",
        &bytes,
        "0.000002 INFO bitfields 0b1010010 0b10001",
    );
}

#[test]
fn bitfields_across_boundaries_diff_indices() {
    let bytes = [
        0, // index
        2, // timestamp
        0b1101_0010,
        0b0110_0011, // u16
        0b1111_1111, // truncated u16
    ];
    decode_and_expect(
        "bitfields {0=0..7:b} {0=9..14:b} {1=8..10:b}",
        &bytes,
        "0.000002 INFO bitfields 0b1010010 0b10001 0b11",
    );
}

#[test]
fn bitfields_truncated_front() {
    let bytes = [
        0,           // index
        2,           // timestamp
        0b0110_0011, // truncated(!) u16
    ];
    decode_and_expect(
        "bitfields {0=9..14:b}",
        &bytes,
        "0.000002 INFO bitfields 0b10001",
    );
}

#[test]
fn bitfields_non_truncated_u32() {
    let bytes = [
        0,           // index
        2,           // timestamp
        0b0110_0011, // -
        0b0000_1111, //  |
        0b0101_1010, //  | u32
        0b1100_0011, // -
    ];
    decode_and_expect(
        "bitfields {0=0..2:b} {0=28..31:b}",
        &bytes,
        "0.000002 INFO bitfields 0b11 0b100",
    );
}

#[test]
fn bitfields_u128() {
    let bytes = [
        0,           // index
        2,           // timestamp
        0b1110_0101, // 120..127
        0b1110_0101, // 112..119
        0b0000_0000, // 104..111
        0b0000_0000, // 96..103
        0b0000_0000, // 88..95
        0b0000_0000, // 80..87
        0b0000_0000, // 72..79
        0b0000_0000, // 64..71
        0b0000_0000, // 56..63
        0b0000_0000, // 48..55
        0b0000_0000, // 40..47
        0b0000_0000, // 32..39
        0b0000_0000, // 24..31
        0b0000_0000, // 16..23
        0b0000_0000, // 8..15
        0b0000_0000, // 0..7
    ];
    decode_and_expect("x: {0=119..124:b}", &bytes, "0.000002 INFO x: 0b1011");
}

#[test]
fn slice() {
    let bytes = [
        0, // index
        2, // timestamp
        2, // length of the slice
        23, 42, // slice content
    ];
    decode_and_expect("x={=[u8]}", &bytes, "0.000002 INFO x=[23, 42]");
}

#[test]
fn slice_with_trailing_args() {
    let bytes = [
        0, // index
        2, // timestamp
        2, // length of the slice
        23, 42, // slice content
        1,  // trailing arg
    ];
    decode_and_expect(
        "x={=[u8]} trailing arg={=u8}",
        &bytes,
        "0.000002 INFO x=[23, 42] trailing arg=1",
    );
}

#[test]
fn string_hello_world() {
    let bytes = [
        0, // index
        2, // timestamp
        5, // length of the string
        b'W', b'o', b'r', b'l', b'd',
    ];
    decode_and_expect("Hello {=str}", &bytes, "0.000002 INFO Hello World");
}

#[test]
fn string_with_trailing_data() {
    let bytes = [
        0, // index
        2, // timestamp
        5, // length of the string
        b'W', b'o', b'r', b'l', b'd', 125, // trailing data
    ];
    decode_and_expect(
        "Hello {=str} {=u8}",
        &bytes,
        "0.000002 INFO Hello World 125",
    );
}

#[test]
fn char_data() {
    let bytes = [
        0, // index
        2, // timestamp
        0x61, 0x00, 0x00, 0x00, // char 'a'
        0x9C, 0xF4, 0x01, 0x00, // Purple heart emoji
    ];
    decode_and_expect(
        "Supports ASCII {=char} and Unicode {=char}",
        &bytes,
        "0.000002 INFO Supports ASCII a and Unicode 💜",
    );
}

#[test]
fn option() {
    let mut entries = BTreeMap::new();
    entries.insert(
        4,
        TableEntry::new_without_symbol(Tag::Info, "x={=?}".to_owned()),
    );
    entries.insert(
        3,
        TableEntry::new_without_symbol(Tag::Derived, "None|Some({=?})".to_owned()),
    );
    entries.insert(
        2,
        TableEntry::new_without_symbol(Tag::Derived, "{=u8}".to_owned()),
    );
    let table = table_with_timestamp(entries);

    let bytes = [
        4,  // string index (INFO)
        0,  // timestamp
        3,  // string index (enum)
        1,  // Some discriminant
        2,  // string index (u8)
        42, // Some.0
    ];
    let frame = decoder::decode(&bytes, &table).unwrap().0;
    assert_eq!(render(&frame), "0.000000 INFO x=Some(42)");

    let bytes = [
        4, // string index (INFO)
        1, // timestamp
        3, // string index (enum)
        0, // None discriminant
    ];
    let frame = decoder::decode(&bytes, &table).unwrap().0;
    assert_eq!(render(&frame), "0.000001 INFO x=None");
}

fn bitfield(index: usize, start: u8, end: u8) -> Param {
    Param {
        index,
        ty: ArgType::BitField { start, end },
        hint: None,
    }
}

#[test]
fn merge_bitfields_simple() {
    let mut params = vec![bitfield(0, 0, 3), bitfield(0, 4, 7)];
    merge_bitfields(&mut params);
    assert_eq!(params, vec![bitfield(0, 0, 7)]);
}

#[test]
fn merge_bitfields_overlap() {
    let mut params = vec![bitfield(0, 1, 3), bitfield(0, 2, 5)];
    merge_bitfields(&mut params);
    assert_eq!(params, vec![bitfield(0, 1, 5)]);
}

#[test]
fn merge_bitfields_multiple_indices() {
    let mut params = vec![bitfield(0, 0, 3), bitfield(1, 1, 3), bitfield(1, 4, 5)];
    merge_bitfields(&mut params);
    assert_eq!(params, vec![bitfield(0, 0, 3), bitfield(1, 1, 5)]);
}

#[test]
fn merge_bitfields_overlap_non_consecutive_indices() {
    let u8_param = Param {
        index: 1,
        ty: ArgType::U8,
        hint: None,
    };
    let mut params = vec![bitfield(0, 0, 3), u8_param, bitfield(2, 1, 4), bitfield(2, 4, 5)];
    merge_bitfields(&mut params);
    // the merged bitfields come after the other parameters
    assert_eq!(params, vec![u8_param, bitfield(0, 0, 3), bitfield(2, 1, 5)]);
}
