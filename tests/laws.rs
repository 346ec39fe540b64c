use std::collections::BTreeMap;

use defmt_decoder::bitfield::prepare_params;
use defmt_decoder::decoder::{self, Arg, Decoder, Frame, ListMode};
use defmt_decoder::fragment::parse;
use defmt_decoder::guard::parse_is_safe;
use defmt_decoder::stream::Reader;
use defmt_decoder::fragment::{ArgType, Hint, Param};
use defmt_decoder::render::{frame_floats, FloatBits, FloatTable};
use defmt_decoder::stream::{zigzag_decode, DecodeError};
use defmt_decoder::table::{check_version, Table, TableEntry, Tag, DEFMT_VERSION};

fn float_table(frame: &Frame) -> FloatTable {
    FloatTable {
        texts: frame_floats(frame)
            .into_iter()
            .map(|b| {
                let text = match b {
                    FloatBits::Single(x) => ryu::Buffer::new().format(f32::from_bits(x)).to_string(),
                    FloatBits::Double(x) => ryu::Buffer::new().format(f64::from_bits(x)).to_string(),
                };
                (b, text)
            })
            .collect(),
    }
}

fn no_floats() -> FloatTable {
    FloatTable { texts: vec![] }
}

fn table(entries: &[(usize, Tag, &str)], timestamp: bool) -> Table {
    let mut map = BTreeMap::new();
    for (i, tag, s) in entries {
        map.insert(*i, TableEntry::new_without_symbol(*tag, s.to_string()));
    }
    let mut t = Table::new(map);
    if timestamp {
        t.set_timestamp_entry(TableEntry::new_without_symbol(
            Tag::Timestamp,
            "{=u8:µs}".to_string(),
        ));
    }
    t
}

fn show(frame: &Frame) -> String {
    frame.display(false).to_string_with(&float_table(&frame))
}

fn message(format: &str, bytes: &[u8]) -> String {
    let t = table(&[(0, Tag::Info, format)], false);
    let (frame, consumed) = decoder::decode(bytes, &t).unwrap();
    assert_eq!(consumed, bytes.len());
    frame.display_message().to_string_with(&float_table(&frame))
}

fn param(index: usize, ty: ArgType) -> Param {
    Param {
        index,
        ty,
        hint: None,
    }
}

#[test]
fn prepared_params_one_per_index() {
    let mut params = vec![
        param(2, ArgType::BitField { start: 4, end: 6 }),
        param(1, ArgType::U16),
        param(0, ArgType::U8),
        param(2, ArgType::BitField { start: 1, end: 3 }),
        param(1, ArgType::U16),
    ];
    prepare_params(&mut params);
    assert_eq!(
        params,
        vec![
            param(0, ArgType::U8),
            param(1, ArgType::U16),
            param(2, ArgType::BitField { start: 1, end: 6 }),
        ]
    );
}

#[test]
fn prepared_params_empty() {
    let mut params: Vec<Param> = vec![];
    prepare_params(&mut params);
    assert!(params.is_empty());
}

#[test]
fn packed_bools_three() {
    // 0b101 for three bools: bit 2, bit 1, bit 0
    let t = table(&[(0, Tag::Info, "{=bool} {=bool} {=bool}")], false);
    let frame = decoder::decode(&[0, 0b101], &t).unwrap().0;
    assert_eq!(frame.bools, vec![true, false, true]);
    assert_eq!(show(&frame), "INFO true false true");
}

#[test]
fn packed_bools_missing_byte() {
    let t = table(&[(0, Tag::Info, "{=bool}")], false);
    assert_eq!(decoder::decode(&[0], &t), Err(DecodeError::UnexpectedEof));
}

#[test]
fn enum_picks_one_variant() {
    let t = table(
        &[(0, Tag::Info, "{=?}"), (1, Tag::Derived, "A|B|C")],
        false,
    );
    let frame = decoder::decode(&[0, 1, 2], &t).unwrap().0;
    assert_eq!(show(&frame), "INFO C");
    assert_eq!(
        frame.args,
        vec![Arg::Format {
            format: "C",
            args: vec![]
        }]
    );
    // a discriminant past the last variant
    assert_eq!(decoder::decode(&[0, 1, 3], &t), Err(DecodeError::Malformed));
}

#[test]
fn redecoding_is_deterministic() {
    let t = table(
        &[(0, Tag::Warn, "{=f32} {=f64} {=u8:x} {=bool}")],
        true,
    );
    let mut bytes = vec![0, 7];
    bytes.extend_from_slice(&1.5f32.to_bits().to_le_bytes());
    bytes.extend_from_slice(&0.1f64.to_bits().to_le_bytes());
    bytes.push(0xab);
    bytes.push(1);
    let a = show(&decoder::decode(&bytes, &t).unwrap().0);
    let b = show(&decoder::decode(&bytes, &t).unwrap().0);
    assert_eq!(a, b);
    assert_eq!(a, "0.000007 WARN 1.5 0.1 0xab true");
}

#[test]
fn slice_reuses_nested_format() {
    let t = table(
        &[
            (0, Tag::Info, "x={=[?]}"),
            (1, Tag::Derived, "Foo({=?})"),
            (2, Tag::Derived, "{=u8}"),
        ],
        false,
    );
    // the second element takes its nested format string from the first
    let bytes = [0, 2, 1, 2, 10, 20];
    let (frame, consumed) = decoder::decode(&bytes, &t).unwrap();
    assert_eq!(consumed, 6);
    assert_eq!(show(&frame), "INFO x=[Foo(10), Foo(20)]");
}

#[test]
fn empty_slice_reads_nothing_more() {
    let t = table(&[(0, Tag::Info, "x={=[?]} {=u8}")], false);
    let (frame, consumed) = decoder::decode(&[0, 0, 5], &t).unwrap();
    assert_eq!(consumed, 3);
    assert_eq!(show(&frame), "INFO x=[] 5");
}

#[test]
fn format_array_of_enums() {
    let t = table(
        &[(0, Tag::Info, "{=[?; 2]}"), (1, Tag::Derived, "Off|On")],
        false,
    );
    let frame = decoder::decode(&[0, 1, 1, 0], &t).unwrap().0;
    assert_eq!(show(&frame), "INFO [On, Off]");
}

#[test]
fn ascii_hint_on_u8_elements() {
    let t = table(
        &[(0, Tag::Info, "{=[?]:a}"), (1, Tag::Prim, "{=u8}")],
        false,
    );
    let frame = decoder::decode(&[0, 2, 1, b'h', b'i'], &t).unwrap().0;
    assert_eq!(show(&frame), "INFO b\"hi\"");
}

#[test]
fn empty_input_needs_more() {
    let t = table(&[(0, Tag::Info, "x")], false);
    assert_eq!(decoder::decode(&[], &t), Err(DecodeError::UnexpectedEof));
}

#[test]
fn truncated_argument_needs_more() {
    let t = table(&[(0, Tag::Info, "{=u16}")], false);
    assert_eq!(decoder::decode(&[0, 1], &t), Err(DecodeError::UnexpectedEof));
}

#[test]
fn unknown_index_is_malformed() {
    let t = table(&[(0, Tag::Info, "x")], false);
    assert_eq!(decoder::decode(&[9], &t), Err(DecodeError::Malformed));
}

#[test]
fn root_without_level_is_malformed() {
    let t = table(&[(0, Tag::Derived, "x")], false);
    assert_eq!(decoder::decode(&[0], &t), Err(DecodeError::Malformed));
}

#[test]
fn nested_level_entry_is_malformed() {
    let t = table(&[(0, Tag::Info, "{=?}")], false);
    assert_eq!(decoder::decode(&[0, 0], &t), Err(DecodeError::Malformed));
}

#[test]
fn invalid_utf8_is_malformed() {
    let t = table(&[(0, Tag::Info, "{=str}")], false);
    assert_eq!(
        decoder::decode(&[0, 2, 0xC3, 0x28], &t),
        Err(DecodeError::Malformed)
    );
}

#[test]
fn invalid_char_is_malformed() {
    let t = table(&[(0, Tag::Info, "{=char}")], false);
    assert_eq!(
        decoder::decode(&[0, 0x00, 0xD8, 0, 0], &t),
        Err(DecodeError::Malformed)
    );
}

#[test]
fn leb128_overflow_is_malformed() {
    let t = table(&[(0, Tag::Info, "x")], false);
    let bytes = [0xFF, 0xFF, 0xFF, 0xFF, 0xFF, 0xFF, 0xFF, 0xFF, 0xFF, 0x02];
    assert_eq!(decoder::decode(&bytes, &t), Err(DecodeError::Malformed));
}

#[test]
fn leb128_multi_byte_index() {
    let t = table(&[(300, Tag::Error, "late")], false);
    let (frame, consumed) = decoder::decode(&[0xAC, 0x02], &t).unwrap();
    assert_eq!(frame.index(), 300);
    assert_eq!(consumed, 2);
    assert_eq!(show(&frame), "ERROR late");
}

#[test]
fn preformatted_needs_terminator() {
    let t = table(&[(0, Tag::Info, "{=__internal_Debug}")], false);
    assert_eq!(
        decoder::decode(&[0, b'o', b'k'], &t),
        Err(DecodeError::UnexpectedEof)
    );
    let frame = decoder::decode(&[0, b'o', b'k', 0xFF], &t).unwrap().0;
    assert_eq!(show(&frame), "INFO ok");
}

#[test]
fn integer_hints() {
    assert_eq!(message("{=u8:x} {=u8:X} {=u8:b}", &[0, 0xAB, 0xAB, 5]), "0xab 0XAB 0b101");
    assert_eq!(message("{=u32:µs}", &[0, 0x40, 0x42, 0x0F, 0x01]), "17.777216");
    assert_eq!(message("{=i8} {=i8:x}", &[0, 0xFE, 0xFF]), format!("-2 0x{}", "f".repeat(32)));
    assert_eq!(message("{=i16}", &[0, 0x00, 0x80]), "-32768");
}

#[test]
fn variable_length_integers() {
    assert_eq!(message("{=usize} {=isize} {=isize}", &[0, 0x96, 0x01, 3, 4]), "150 -2 2");
    assert_eq!(zigzag_decode(3), -2);
    assert_eq!(zigzag_decode(u64::MAX), i64::MIN);
}

#[test]
fn byte_rendering() {
    assert_eq!(message("{=[u8]:x}", &[0, 2, 1, 255]), "[0x1, 0xff]");
    assert_eq!(message("{=[u8; 3]:a}", &[0, b'a', b'\n', 0x7F]), "b\"a\\n\\x7f\"");
    assert_eq!(message("{=[u8; 0]}", &[0]), "[]");
}

#[test]
fn string_hints() {
    assert_eq!(message("{=str:?}", &[0, 3, b'a', b'"', b'b']), "\"a\\\"b\"");
    let t = table(&[(0, Tag::Info, "{=istr}"), (1, Tag::Str, "interned")], false);
    let frame = decoder::decode(&[0, 1], &t).unwrap().0;
    assert_eq!(show(&frame), "INFO interned");
}

#[test]
fn bitfield_ascii() {
    assert_eq!(message("{0=0..16:a}", &[0, b'i', b'h']), "b\"hi\"");
}

#[test]
fn colored_label_keeps_text() {
    let t = table(&[(0, Tag::Info, "hi")], false);
    let frame = decoder::decode(&[0], &t).unwrap().0;
    let text = frame.display(true).to_string_with(&float_table(&frame));
    assert!(text == "INFO hi" || text == "\u{1b}[32mINFO\u{1b}[0m hi");
}

#[test]
fn level_labels() {
    let t = table(
        &[(0, Tag::Trace, "a"), (1, Tag::Debug, "b"), (2, Tag::Warn, "c")],
        false,
    );
    assert_eq!(show(&decoder::decode(&[0], &t).unwrap().0), "TRACE a");
    assert_eq!(show(&decoder::decode(&[1], &t).unwrap().0), "DEBUG b");
    assert_eq!(show(&decoder::decode(&[2], &t).unwrap().0), "WARN c");
}

#[test]
fn version_check() {
    assert_eq!(check_version(DEFMT_VERSION), Ok(()));
    let msg = check_version("0.3").unwrap_err();
    assert!(msg.starts_with("defmt version mismatch: firmware is using 0.3, `probe-run` supports "));
    assert!(msg.ends_with("that supports defmt 0.3"));
    let msg = check_version("e739d0ac703dfa629a159be329e8c62a1c3ed206").unwrap_err();
    assert!(msg.contains("migrate your firmware"));
    let msg = check_version("+7").unwrap_err();
    assert!(msg.ends_with("that supports defmt +7"));
}

#[test]
fn table_listing() {
    let t = table(
        &[(3, Tag::Info, "a"), (1, Tag::Derived, "b"), (7, Tag::Error, "c")],
        false,
    );
    assert_eq!(t.indices(), vec![3, 7]);
    assert_eq!(t.raw_symbols(), vec!["<unknown>"; 3]);
    assert!(!t.is_empty());
    assert!(Table::new(BTreeMap::new()).is_empty());
}

#[test]
fn timestamp_display() {
    let t = table(&[(0, Tag::Info, "m")], true);
    let frame = decoder::decode(&[0, 3], &t).unwrap().0;
    let ts = frame.display_timestamp().unwrap().to_string_with(&float_table(&frame));
    assert_eq!(ts, "0.000003");
    assert_eq!(frame.display_message().to_string_with(&float_table(&frame)), "m");
    assert_eq!(frame.level(), defmt_decoder::Level::Info);
}

#[test]
fn hint_inherited_by_nested_format() {
    let t = table(
        &[(0, Tag::Info, "{=?:x}"), (1, Tag::Derived, "S {{ v: {=u8} }}")],
        false,
    );
    let frame = decoder::decode(&[0, 1, 255], &t).unwrap().0;
    assert_eq!(show(&frame), "INFO S { v: 0xff }");
}

#[test]
fn trailing_bytes_are_not_consumed() {
    let t = table(&[(0, Tag::Info, "{=u8} {=str}")], false);
    let frame_bytes = [0, 42, 2, b'o', b'k'];
    let (alone, consumed) = decoder::decode(&frame_bytes, &t).unwrap();
    assert_eq!(consumed, 5);
    let mut longer = frame_bytes.to_vec();
    longer.extend_from_slice(&[0, 7, 0xFF]);
    let (frame, consumed) = decoder::decode(&longer, &t).unwrap();
    assert_eq!(consumed, 5);
    assert_eq!(frame, alone);
    assert_eq!(show(&frame), "INFO 42 ok");
}

#[test]
fn unsafe_format_strings_are_malformed() {
    for format in [
        "{=5}",
        "{=0.}",
        "{=5\u{20ac}}",
        "{18446744073709551615=u8}",
        "{9=u8}",
        "{=u8:{0=5.}",
        "{=u8:{18446744073709551615}",
    ] {
        let t = table(&[(0, Tag::Info, format)], false);
        assert_eq!(
            decoder::decode(&[0, 1, 2, 3, 4, 5], &t),
            Err(DecodeError::Malformed),
            "{}",
            format
        );
        assert_eq!(
            defmt_decoder::render::format_args(format, &vec![], None, &vec![], &no_floats()),
            ""
        );
    }
}

#[test]
fn parser_safety_check() {
    assert!(!parse_is_safe("{=5}"));
    assert!(!parse_is_safe("{=0.}"));
    assert!(!parse_is_safe("{=5\u{20ac}}"));
    assert!(!parse_is_safe("{18446744073709551615=u8}"));
    assert!(!parse_is_safe("{=u8:{0=5.}"));
    assert!(!parse_is_safe("{=u8:{18446744073709551615}"));
    assert!(parse_is_safe("{=5\u{e9}}"));
    assert!(parse_is_safe("{=0..4:b}"));
    assert!(parse_is_safe("{=999}"));
    assert!(parse_is_safe("ratio=1:2 {{99999999999}} {=u8}"));
}

#[test]
fn literal_equals_and_escapes_still_decode() {
    assert_eq!(message("ratio=1:2 {=u8}", &[0, 7]), "ratio=1:2 7");
    assert_eq!(message("{{99999999999}} {=u8}", &[0, 7]), "{99999999999} 7");
}

#[test]
fn decode_params_on_prepared_parameters() {
    let t = table(&[(1, Tag::Str, "interned")], false);
    let bytes = [0x34, 0x12, 1, 9];
    let mut d = Decoder {
        table: &t,
        reader: Reader::new(&bytes),
        mode: ListMode::Off,
        formats: vec![],
        cursor: 0,
        below_enum: false,
        bools: vec![],
        pending: 0,
    };
    let params = vec![param(0, ArgType::U16), param(1, ArgType::IStr), param(2, ArgType::Bool)];
    let args = d.decode_params(&params, 4).unwrap();
    assert_eq!(args, vec![Arg::Uxx(0x1234), Arg::IStr("interned"), Arg::Bool(0)]);
    assert_eq!(d.reader.pos, 3);
    assert_eq!(d.pending, 1);
}

#[test]
fn format_fragments_on_parsed_text() {
    let frags = parse("x={=u8:x} y={=?}").unwrap();
    let args = vec![
        Arg::Uxx(255),
        Arg::Format {
            format: "S({=bool})",
            args: vec![Arg::Bool(0)],
        },
    ];
    let text = defmt_decoder::render::format_fragments(&frags, &args, None, &vec![true], &no_floats());
    assert_eq!(text, "x=0xff y=S(true)");
}

#[test]
fn malformed_stays_malformed_with_more_bytes() {
    let t = table(&[(0, Tag::Info, "{=char}")], false);
    let bad = [0, 0x00, 0xD8, 0, 0];
    assert_eq!(decoder::decode(&bad, &t), Err(DecodeError::Malformed));
    let mut longer = bad.to_vec();
    longer.extend_from_slice(&[0x61, 0, 0, 0]);
    assert_eq!(decoder::decode(&longer, &t), Err(DecodeError::Malformed));
    assert_eq!(decoder::decode(&[9, 1, 2], &t), Err(DecodeError::Malformed));
}

#[test]
fn float_texts_come_from_the_table() {
    let t = table(
        &[(0, Tag::Info, "{=f32} and {=?}"), (1, Tag::Derived, "D({=f64})")],
        false,
    );
    let mut bytes = vec![0];
    bytes.extend_from_slice(&2.5f32.to_bits().to_le_bytes());
    bytes.push(1);
    bytes.extend_from_slice(&(-0.25f64).to_bits().to_le_bytes());
    let frame = decoder::decode(&bytes, &t).unwrap().0;
    let floats = frame_floats(&frame);
    assert_eq!(
        floats,
        vec![
            FloatBits::Single(2.5f32.to_bits()),
            FloatBits::Double((-0.25f64).to_bits())
        ]
    );
    assert_eq!(show(&frame), "INFO 2.5 and D(-0.25)");
    let partial = FloatTable {
        texts: vec![(FloatBits::Single(2.5f32.to_bits()), "x".to_string())],
    };
    assert_eq!(frame.display(false).to_string_with(&partial), "INFO x and D()");
}
