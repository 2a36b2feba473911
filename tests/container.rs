use cartographer::coff::{CoffFile, ParseError, StringTable};
use cartographer::parse::{read_u16, read_u32};

struct SectionSpec {
    name: [u8; 8],
    start: u32,
    length: u32,
}

fn put_u16(buf: &mut Vec<u8>, at: usize, v: u16) {
    buf[at] = v as u8;
    buf[at + 1] = (v >> 8) as u8;
}

fn put_u32(buf: &mut Vec<u8>, at: usize, v: u32) {
    for i in 0..4 {
        buf[at + i] = (v >> (8 * i)) as u8;
    }
}

/// A file with the given section headers, `payload` right after the header
/// table, no symbols, and a string table holding `strings`.
fn build(sections: &[SectionSpec], payload: &[u8], strings: &[u8]) -> Vec<u8> {
    let table_end = 22 + 48 * sections.len();
    let mut buf = vec![0u8; table_end];
    put_u16(&mut buf, 2, sections.len() as u16);
    put_u32(&mut buf, 8, (table_end + payload.len()) as u32);
    put_u32(&mut buf, 12, 0);
    put_u16(&mut buf, 16, 0);
    put_u16(&mut buf, 20, 0x0099);
    for (k, s) in sections.iter().enumerate() {
        let at = 22 + 48 * k;
        buf[at..at + 8].copy_from_slice(&s.name);
        put_u32(&mut buf, at + 16, s.length);
        put_u32(&mut buf, at + 20, s.start);
    }
    buf.extend_from_slice(payload);
    let mut table = vec![0u8; 4];
    table.extend_from_slice(strings);
    let len = table.len() as u32;
    put_u32(&mut table, 0, len);
    buf.extend_from_slice(&table);
    buf
}

fn inline(name: &str) -> [u8; 8] {
    let mut f = [0u8; 8];
    f[..name.len()].copy_from_slice(name.as_bytes());
    f
}

fn indirect(off: u32) -> [u8; 8] {
    let mut f = [0u8; 8];
    f[4..8].copy_from_slice(&off.to_le_bytes());
    f
}

#[test]
fn read_u16_is_little_endian() {
    assert_eq!(read_u16(&[0x34, 0x12, 0xff], 0), 0x1234);
    assert_eq!(read_u16(&[0x00, 0x34, 0x12], 1), 0x1234);
}

#[test]
fn read_u32_is_little_endian() {
    assert_eq!(read_u32(&[0x78, 0x56, 0x34, 0x12], 0), 0x1234_5678);
    assert_eq!(read_u32(&[0, 0xff, 0xff, 0xff, 0xff], 1), u32::MAX);
}

#[test]
fn debug_info_section_through_string_table() {
    let payload = [1u8, 2, 3, 4, 5];
    let data = build(
        &[SectionSpec { name: indirect(4), start: 70, length: 5 }],
        &payload,
        b".debug_info\0",
    );
    let file = CoffFile::parse(&data).unwrap();
    let section = file.get_section(".debug_info").unwrap();
    assert_eq!(section.data(), payload.to_vec());
    assert_eq!(section.header.name(), ".debug_info");
    assert_eq!(section.header.section_start_addr(), 70);
    assert_eq!(section.header.section_length(), 5);
}

#[test]
fn header_fields_are_read() {
    let data = build(&[SectionSpec { name: inline(".text"), start: 70, length: 2 }], &[7, 7], b"");
    let file = CoffFile::parse(&data).unwrap();
    let h = file.header();
    assert_eq!(h.get_target_id(), 0x0099);
    assert_eq!(h.number_of_sections(), 1);
    assert_eq!(h.symbol_table_start(), 72);
    assert_eq!(h.symbol_table_size(), 0);
    assert_eq!(h.optional_header_size(), 0);
}

#[test]
fn every_header_kept_and_empty_sections_dropped() {
    let data = build(
        &[
            SectionSpec { name: inline(".text"), start: 166, length: 3 },
            SectionSpec { name: inline(".bss"), start: 0, length: 8 },
            SectionSpec { name: inline(".data"), start: 169, length: 0 },
        ],
        &[9, 8, 7],
        b"",
    );
    let file = CoffFile::parse(&data).unwrap();
    assert_eq!(file.section_headers.headers.len(), file.header().number_of_sections());
    assert_eq!(file.sections.len(), 1);
    for s in &file.sections {
        assert_eq!(s.data.len(), s.header.section_length());
    }
    assert!(file.get_section(".bss").is_none());
    assert!(file.get_section(".data").is_none());
    assert_eq!(file.get_section(".text").unwrap().data(), vec![9, 8, 7]);
}

#[test]
fn first_section_with_a_name_wins() {
    let data = build(
        &[
            SectionSpec { name: inline(".a"), start: 118, length: 1 },
            SectionSpec { name: inline(".a"), start: 119, length: 1 },
        ],
        &[1, 2],
        b"",
    );
    let file = CoffFile::parse(&data).unwrap();
    assert_eq!(file.get_section(".a").unwrap().data(), vec![1]);
    assert!(file.get_section(".b").is_none());
}

#[test]
fn short_buffer_is_malformed() {
    let data = vec![0u8; 21];
    assert!(matches!(CoffFile::parse(&data), Err(ParseError::MalformedContainer)));
}

#[test]
fn section_count_past_end_is_malformed() {
    let mut data = build(&[SectionSpec { name: inline(".text"), start: 70, length: 1 }], &[1], b"");
    put_u16(&mut data, 2, 500);
    assert!(matches!(CoffFile::parse(&data), Err(ParseError::MalformedContainer)));
}

#[test]
fn symbol_table_past_end_is_malformed() {
    let mut data = build(&[], &[], b"");
    put_u32(&mut data, 12, 1000);
    assert!(matches!(CoffFile::parse(&data), Err(ParseError::MalformedContainer)));
}

#[test]
fn string_table_with_wrong_length_is_malformed() {
    let mut data = build(&[], &[], b"abc\0");
    let n = data.len();
    data[n - 8] = 99;
    assert!(matches!(CoffFile::parse(&data), Err(ParseError::MalformedContainer)));
}

#[test]
fn section_past_end_is_malformed() {
    let data = build(&[SectionSpec { name: inline(".text"), start: 70, length: 400 }], &[1], b"");
    assert!(matches!(CoffFile::parse(&data), Err(ParseError::MalformedContainer)));
}

#[test]
fn inline_names_read_back() {
    let table_bytes = vec![4u8, 0, 0, 0];
    let table = StringTable::parse(&table_bytes).unwrap();
    for name in ["a", ".text", "1234567", ".bss1234", "é.x"] {
        assert_eq!(table.get_string(&inline(name)), Some(name.to_string()));
    }
}

#[test]
fn table_names_read_up_to_nul() {
    let mut table_bytes = vec![0u8; 4];
    table_bytes.extend_from_slice(b".debug_info\0.debug_abbrev\0tail");
    let len = table_bytes.len() as u32;
    put_u32(&mut table_bytes, 0, len);
    let table = StringTable::parse(&table_bytes).unwrap();
    assert_eq!(table.get_string(&indirect(4)), Some(".debug_info".to_string()));
    assert_eq!(table.get_string(&indirect(11)), Some("info".to_string()));
    assert_eq!(table.get_string(&indirect(16)), Some(".debug_abbrev".to_string()));
    assert_eq!(table.get_string(&indirect(30)), Some("tail".to_string()));
    assert_eq!(table.get_string(&indirect(len)), Some(String::new()));
}

#[test]
fn table_offset_out_of_range_has_no_name() {
    let table_bytes = vec![8u8, 0, 0, 0, b'a', b'b', 0, 0];
    let table = StringTable::parse(&table_bytes).unwrap();
    assert_eq!(table.get_string(&indirect(9)), None);
}

#[test]
fn invalid_utf8_name_leaves_section_unnamed() {
    let mut bad = [0u8; 8];
    bad[0] = 0xff;
    bad[1] = b'x';
    let data = build(&[SectionSpec { name: bad, start: 70, length: 1 }], &[5], b"");
    let file = CoffFile::parse(&data).unwrap();
    assert_eq!(file.sections.len(), 1);
    assert!(file.sections[0].header.name.is_none());
    assert_eq!(file.sections[0].header.name(), "");
    assert!(file.get_section("").is_none());
}

#[test]
fn string_table_needs_its_length() {
    assert!(StringTable::parse(&[1, 0, 0]).is_err());
    assert!(StringTable::parse(&[5, 0, 0, 0]).is_err());
    assert!(StringTable::parse(&[4, 0, 0, 0]).is_ok());
}
