use dt_codec::digits::{parse_u16_dec, u16_to_dec};
use dt_codec::errors::DtError;
use dt_codec::ptable::{read_table, write_table};
use dt_codec::tokens::{next_token, Tok};
use dt_codec::util::{parse_string, parse_string_until_byte, write_bytes_to_buffer};

#[test]
fn pointer_table_consumes_exactly_first_offset_bytes() {
    let blob: Vec<u8> = vec![0x06, 0x00, 0x06, 0x00, 0x07, 0x00, 0xFF];
    let (offsets, first) = read_table(&blob).unwrap();
    assert_eq!(first, 6);
    assert_eq!(offsets, vec![6, 6, 7]);
    assert_eq!(2 * offsets.len(), first as usize);
}

#[test]
fn pointer_table_of_zero_is_empty() {
    let blob: Vec<u8> = vec![0x00, 0x00, 0xAA];
    let (offsets, first) = read_table(&blob).unwrap();
    assert_eq!(first, 0);
    assert!(offsets.is_empty());
}

#[test]
fn pointer_table_write_is_little_endian() {
    let offsets: Vec<u16> = vec![0x0102, 0xA0B0];
    assert_eq!(write_table(&offsets), vec![0x02, 0x01, 0xB0, 0xA0]);
}

#[test]
fn color_byte_consumes_exactly_one_value_byte() {
    let blob: Vec<u8> = vec![0x07, 0x05, 0x41];
    let (tok, next) = next_token(&blob, 0).unwrap();
    assert!(matches!(tok, Tok::Color(5)));
    assert_eq!(next, 2);
}

#[test]
fn color_byte_at_end_reports_truncation() {
    let blob: Vec<u8> = vec![0x41, 0x07];
    assert_eq!(next_token(&blob, 1).unwrap_err(), DtError::TruncatedInput);
}

#[test]
fn formatting_scan_stops_on_each_terminator() {
    let (tok, next) = next_token(&vec![0x23, 0x31, 0x32, 0x46], 0).unwrap();
    assert!(matches!(tok, Tok::ImgId(12)));
    assert_eq!(next, 4);
    let (tok, _) = next_token(&vec![0x23, 0x34, 0x30, 0x78], 0).unwrap();
    assert!(matches!(tok, Tok::ImgX(40)));
    let (tok, _) = next_token(&vec![0x23, 0x39, 0x79], 0).unwrap();
    assert!(matches!(tok, Tok::ImgY(9)));
    let (tok, _) = next_token(&vec![0x23, 0x32, 0x53], 0).unwrap();
    match tok {
        Tok::SizeTok(bs) => assert_eq!(bs, vec![0x32]),
        _ => panic!("expected a size token"),
    }
}

#[test]
fn bare_clear_needs_no_value_bytes() {
    let (tok, next) = next_token(&vec![0x23, 0x46], 0).unwrap();
    assert!(matches!(tok, Tok::ImgId(0xFFF)));
    assert_eq!(next, 2);
}

#[test]
fn formatting_scan_never_reads_past_the_end() {
    let blob: Vec<u8> = vec![0x23, 0x31, 0x32];
    assert_eq!(next_token(&blob, 0).unwrap_err(), DtError::TruncatedInput);
}

#[test]
fn decimal_rendering_and_parsing() {
    assert_eq!(u16_to_dec(0), vec![0x30]);
    assert_eq!(u16_to_dec(12), vec![0x31, 0x32]);
    assert_eq!(u16_to_dec(65535), b"65535".to_vec());
    assert_eq!(parse_u16_dec(&b"007".to_vec()), Some(7));
    assert_eq!(parse_u16_dec(&b"+123".to_vec()), Some(123));
    assert_eq!(parse_u16_dec(&b"65535".to_vec()), Some(65535));
    assert_eq!(parse_u16_dec(&b"65536".to_vec()), None);
    assert_eq!(parse_u16_dec(&b"".to_vec()), None);
    assert_eq!(parse_u16_dec(&b"+".to_vec()), None);
    assert_eq!(parse_u16_dec(&b"1a".to_vec()), None);
}

#[test]
fn strings_scan_to_terminator_or_end() {
    let blob: Vec<u8> = vec![0x61, 0x62, 0x00, 0x63];
    let (text, next) = parse_string(&blob, 0);
    assert_eq!(text, "ab");
    assert_eq!(next, 3);
    let (text, next) = parse_string(&blob, 3);
    assert_eq!(text, "c");
    assert_eq!(next, 4);
    let (text, next) = parse_string_until_byte(&blob, 0, 0x62);
    assert_eq!(text, "a");
    assert_eq!(next, 2);
}

#[test]
fn double_byte_string_decodes_through_the_charset() {
    // 0x83 0x65 is a single katakana in the legacy charset, not two characters
    let blob: Vec<u8> = vec![0x83, 0x65, 0x00];
    let (text, _) = parse_string(&blob, 0);
    assert_eq!(text, "\u{30C6}");
    assert_eq!(text.chars().count(), 1);
}

#[test]
fn write_bytes_appends_terminator_and_returns_address() {
    let mut buffer: Vec<u8> = vec![0xAA, 0xBB];
    let address = write_bytes_to_buffer(&mut buffer, vec![0x61, 0x62]);
    assert_eq!(address, 2);
    assert_eq!(buffer, vec![0xAA, 0xBB, 0x61, 0x62, 0x00]);
}
