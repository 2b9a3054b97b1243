use fxd::decode::decode_lines;
use fxd::encode::encode_xxd;

fn round_trip(data: &[u8], numbers: bool, width: usize) {
    let lines = encode_xxd(&data.to_vec(), numbers, width);
    let back = decode_lines(&lines, numbers).unwrap();
    assert_eq!(back, data.to_vec(), "width {} numbers {}", width, numbers);
}

#[test]
fn round_trip_all_byte_values() {
    let data: Vec<u8> = (0u8..=255).collect();
    for numbers in [true, false] {
        for width in [1usize, 2, 3, 7, 16, 64, 300] {
            round_trip(&data, numbers, width);
        }
    }
}

#[test]
fn round_trip_empty() {
    round_trip(&[], true, 16);
    round_trip(&[], false, 16);
}

#[test]
fn round_trip_single_byte() {
    for b in [0u8, 0x0f, 0x61, 0xff] {
        round_trip(&[b], true, 16);
        round_trip(&[b], false, 1);
    }
}

#[test]
fn round_trip_hexlike_ascii() {
    // Bytes whose ASCII column is itself hex text must not be re-read as
    // payload.
    let data = b"ABCDEF0123456789abcdef";
    round_trip(data, true, 16);
    round_trip(data, false, 16);
    round_trip(data, false, 4);
}

#[test]
fn round_trip_width_one_odd_padding() {
    let data = [0xde, 0xad, 0xbe, 0xef];
    round_trip(&data, true, 1);
    round_trip(&data, false, 5);
}
