use fxd::encode::encode_code;
use fxd::encode::encode_xxd;
use fxd::encode::encode_xxd_line;
use fxd::encode::Encoder;
use fxd::encode::Style;

fn s(line: &[u8]) -> String {
    String::from_utf8(line.to_vec()).unwrap()
}

#[test]
fn literal_example_line() {
    // Two bytes at width 16 with offsets: the offset field, the two hex
    // pairs, the blank columns, and the ASCII column, spaced per the plain
    // dump rules (a space after every second column, then one separator).
    let lines = encode_xxd(&vec![0x41, 0x42], true, 16);
    assert_eq!(lines.len(), 1);
    let expected = format!("00000000: 4142{}AB", " ".repeat(37));
    assert_eq!(s(&lines[0]), expected);
}

#[test]
fn column_padding_three_bytes_width_16() {
    let lines = encode_xxd(&vec![0x61, 0x62, 0x63], false, 16);
    assert_eq!(lines.len(), 1);
    let line = s(&lines[0]);
    // 16 column slots: 32 hex-or-blank digit positions plus 8 group
    // separators, then the final separating space, then exactly the 3
    // ASCII characters.
    assert_eq!(line, format!("6162 63{}abc", " ".repeat(34)));
    let ascii: String = line.chars().skip(line.len() - 3).collect();
    assert_eq!(ascii, "abc");
    assert_eq!(line.len(), 32 + 8 + 1 + 3);
}

#[test]
fn full_width_line_even() {
    let data: Vec<u8> = (0u8..16).collect();
    let lines = encode_xxd(&data, true, 16);
    assert_eq!(lines.len(), 1);
    assert_eq!(
        s(&lines[0]),
        "00000000: 0001 0203 0405 0607 0809 0a0b 0c0d 0e0f  ................"
    );
}

#[test]
fn odd_width_gets_extra_space() {
    let lines = encode_xxd(&vec![0x41, 0x42, 0x43], false, 3);
    assert_eq!(lines.len(), 1);
    // Columns: "41", "42" + space, "43"; separator space; extra space for
    // the odd width; then the ASCII column.
    assert_eq!(s(&lines[0]), "4142 43  ABC");
}

#[test]
fn chunking_and_offsets_across_lines() {
    let data: Vec<u8> = (0u8..20).collect();
    let lines = encode_xxd(&data, true, 16);
    assert_eq!(lines.len(), 2);
    assert!(s(&lines[0]).starts_with("00000000: "));
    assert!(s(&lines[1]).starts_with("00000010: "));
    assert_eq!(s(&lines[1]), format!("00000010: 1011 1213{}....", " ".repeat(32)));
}

#[test]
fn no_numbers_has_no_offset_field() {
    let lines = encode_xxd(&vec![0xff], false, 4);
    assert_eq!(lines.len(), 1);
    assert_eq!(s(&lines[0]), "ff         .");
}

#[test]
fn empty_input_gives_no_lines() {
    assert_eq!(encode_xxd(&Vec::new(), true, 16).len(), 0);
    assert_eq!(encode_code(&Vec::new(), true, 16).len(), 0);
}

#[test]
fn code_style_line() {
    let lines = encode_code(&vec![0x41, 0x00], true, 4);
    assert_eq!(lines.len(), 1);
    assert_eq!(s(&lines[0]), "/* 0000 */ 0x41, 0x00,             // A.");
}

#[test]
fn code_style_without_numbers() {
    let lines = encode_code(&vec![0x7f, 0x30], false, 2);
    assert_eq!(lines.len(), 1);
    assert_eq!(s(&lines[0]), "0x7f, 0x30, // .0");
}

#[test]
fn code_style_offset_is_four_digits() {
    let data: Vec<u8> = vec![1; 18];
    let lines = encode_code(&data, true, 16);
    assert_eq!(lines.len(), 2);
    assert!(s(&lines[1]).starts_with("/* 0010 */ "));
}

#[test]
fn ascii_column_printable_and_dots() {
    let lines = encode_xxd(&vec![0x20, 0x21, 0x7e, 0x7f], false, 4);
    assert_eq!(lines.len(), 1);
    assert!(s(&lines[0]).ends_with(".!~."));
}

#[test]
fn single_line_encoder_matches_whole_encode() {
    let chunk = vec![0xde, 0xad, 0xbe, 0xef];
    let line = encode_xxd_line(true, 0, &chunk, 8);
    let lines = encode_xxd(&chunk, true, 8);
    assert_eq!(line, lines[0]);
}

#[test]
fn streaming_encoder_tracks_offset() {
    let mut enc = Encoder::new(Style::Plain, true, 4);
    let first = enc.encode_chunk(&vec![1, 2, 3, 4]);
    let second = enc.encode_chunk(&vec![5]);
    assert!(s(&first).starts_with("00000000: "));
    assert!(s(&second).starts_with("00000004: "));
    let whole = encode_xxd(&vec![1, 2, 3, 4, 5], true, 4);
    assert_eq!(vec![first, second], whole);
}

#[test]
fn large_offset_grows_past_eight_digits() {
    let mut enc = Encoder::new(Style::Plain, true, 2);
    enc.offset = 0x1_2345_6789;
    let line = enc.encode_chunk(&vec![0xab]);
    assert!(s(&line).starts_with("123456789: "));
}
