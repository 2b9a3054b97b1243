use fxd::decode::decode_lines;
use fxd::decode::undo_line;
use fxd::decode::DecodeErrorKind;
use fxd::decode::Decoder;

fn lines(texts: &[&str]) -> Vec<Vec<u8>> {
    texts.iter().map(|t| t.as_bytes().to_vec()).collect()
}

#[test]
fn simple_line_with_offset() {
    let r = decode_lines(&lines(&["00000000: 4142"]), true).unwrap();
    assert_eq!(r, vec![0x41, 0x42]);
}

#[test]
fn literal_example_decodes_back() {
    let text = format!("00000000: 4142{}AB", " ".repeat(37));
    let r = decode_lines(&lines(&[&text]), true).unwrap();
    assert_eq!(r, vec![0x41, 0x42]);
}

#[test]
fn invalid_character_is_reported() {
    let e = decode_lines(&lines(&["00000000: 41g2"]), true).unwrap_err();
    assert_eq!(e.kind, DecodeErrorKind::InvalidCharacter { ch: b'g' });
    assert_eq!(e.line_no, 0);
    assert_eq!(e.text, b"00000000: 41g2".to_vec());
}

#[test]
fn offset_mismatch_cites_pair_and_line() {
    // A valid two-line dump whose second offset was bumped by one.
    let e = decode_lines(&lines(&["0: 4142", "3: 4344"]), true).unwrap_err();
    assert_eq!(e.kind, DecodeErrorKind::OffsetMismatch { expected: 2, actual: 3 });
    assert_eq!(e.line_no, 1);
    assert_eq!(e.text, b"3: 4344".to_vec());
}

#[test]
fn nibble_carry_across_lines() {
    let r = decode_lines(&lines(&["6", "1"]), false).unwrap();
    assert_eq!(r, vec![0x61]);
}

#[test]
fn trailing_nibble_is_truncated_stream() {
    let e = decode_lines(&lines(&["616"]), false).unwrap_err();
    assert_eq!(e.kind, DecodeErrorKind::TruncatedStream);
    assert_eq!(e.line_no, 1);
}

#[test]
fn offsets_with_0x_prefix_and_no_padding() {
    let r = decode_lines(&lines(&["0x0: 4142", "0x2: 43"]), true).unwrap();
    assert_eq!(r, vec![0x41, 0x42, 0x43]);
}

#[test]
fn whitespace_between_digits_is_skipped() {
    let r = decode_lines(&lines(&["41 42", "4 3 4\t4"]), false).unwrap();
    assert_eq!(r, vec![0x41, 0x42, 0x43, 0x44]);
}

#[test]
fn uppercase_hex_accepted() {
    let r = decode_lines(&lines(&["0: 4A5F"]), true).unwrap();
    assert_eq!(r, vec![0x4a, 0x5f]);
}

#[test]
fn line_without_colon_is_invalid() {
    let e = decode_lines(&lines(&["41424344"]), true).unwrap_err();
    assert_eq!(e.kind, DecodeErrorKind::InvalidLine);
    assert_eq!(e.line_no, 0);
}

#[test]
fn empty_line_is_invalid() {
    let e = decode_lines(&lines(&["41", ""]), false).unwrap_err();
    assert_eq!(e.kind, DecodeErrorKind::InvalidLine);
    assert_eq!(e.line_no, 1);
}

#[test]
fn non_hex_offset_is_invalid_line() {
    let e = decode_lines(&lines(&["zz: 41"]), true).unwrap_err();
    assert_eq!(e.kind, DecodeErrorKind::InvalidLine);
}

#[test]
fn empty_payload_is_invalid_line() {
    let e = decode_lines(&lines(&["0:   "]), true).unwrap_err();
    assert_eq!(e.kind, DecodeErrorKind::InvalidLine);
}

#[test]
fn oversized_offset_is_invalid_offset_encoding() {
    let e = decode_lines(&lines(&["10000000000000000: 41"]), true).unwrap_err();
    assert_eq!(e.kind, DecodeErrorKind::InvalidOffsetEncoding);
}

#[test]
fn sixteen_f_offset_still_fits() {
    // ffffffffffffffff is u64::MAX: the offset parses, then mismatches.
    let e = decode_lines(&lines(&["ffffffffffffffff: 41"]), true).unwrap_err();
    assert_eq!(
        e.kind,
        DecodeErrorKind::OffsetMismatch { expected: 0, actual: u64::MAX }
    );
}

#[test]
fn ascii_column_is_ignored_after_double_space() {
    // Without offsets, the annotation column after two adjacent spaces is
    // not payload, even when it looks like hex.
    let r = decode_lines(&lines(&["4142  AB"]), false).unwrap();
    assert_eq!(r, vec![0x41, 0x42]);
}

#[test]
fn single_undo_line_threads_nibble() {
    let (bytes, nib) = undo_line(false, 0, &b"616".to_vec(), None).unwrap();
    assert_eq!(bytes, vec![0x61]);
    assert_eq!(nib, Some(6));
    let (bytes2, nib2) = undo_line(false, 1, &b"2".to_vec(), nib).unwrap();
    assert_eq!(bytes2, vec![0x62]);
    assert_eq!(nib2, None);
}

#[test]
fn undo_line_checks_offset_against_running_count() {
    let err = undo_line(true, 4, &b"0: 41".to_vec(), None).unwrap_err();
    assert_eq!(err, DecodeErrorKind::OffsetMismatch { expected: 4, actual: 0 });
}

#[test]
fn streaming_decoder_tracks_offset_and_line_numbers() {
    let mut dec = Decoder::new(true);
    let first = dec.feed_line(&b"0: 4142".to_vec()).unwrap();
    assert_eq!(first, vec![0x41, 0x42]);
    assert_eq!(dec.offset, 2);
    let e = dec.feed_line(&b"0: 43".to_vec()).unwrap_err();
    assert_eq!(e.kind, DecodeErrorKind::OffsetMismatch { expected: 2, actual: 0 });
    assert_eq!(e.line_no, 1);
    let second = dec.feed_line(&b"2: 43".to_vec()).unwrap();
    assert_eq!(second, vec![0x43]);
    assert!(dec.finish().is_ok());
}

#[test]
fn streaming_decoder_finish_reports_truncation() {
    let mut dec = Decoder::new(false);
    dec.feed_line(&b"4".to_vec()).unwrap();
    let e = dec.finish().unwrap_err();
    assert_eq!(e.kind, DecodeErrorKind::TruncatedStream);
}
