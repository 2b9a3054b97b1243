use fxd::chunk::Chunker;
use fxd::decode::decode_lines;
use fxd::encode::encode_xxd;
use fxd::encode::Encoder;
use fxd::encode::Style;

#[test]
fn one_byte_at_a_time_yields_full_chunks() {
    // A stream handing over one byte per read still fills whole chunks.
    let data: Vec<u8> = (0u8..50).collect();
    let mut ch = Chunker::new(16);
    let mut chunks: Vec<Vec<u8>> = Vec::new();
    for b in &data {
        chunks.extend(ch.feed(&vec![*b]));
    }
    if let Some(last) = ch.finish() {
        chunks.push(last);
    }
    assert_eq!(chunks.len(), 4);
    assert_eq!(chunks[0].len(), 16);
    assert_eq!(chunks[1].len(), 16);
    assert_eq!(chunks[2].len(), 16);
    assert_eq!(chunks[3].len(), 2);
    let whole = ch_whole(&data, 16);
    assert_eq!(chunks, whole);
}

fn ch_whole(data: &[u8], width: usize) -> Vec<Vec<u8>> {
    let mut ch = Chunker::new(width);
    let mut chunks = ch.feed(&data.to_vec());
    if let Some(last) = ch.finish() {
        chunks.push(last);
    }
    chunks
}

#[test]
fn ragged_reads_and_whole_read_agree() {
    let data: Vec<u8> = (0u8..=255).collect();
    let whole = ch_whole(&data, 7);
    let mut ch = Chunker::new(7);
    let mut chunks: Vec<Vec<u8>> = Vec::new();
    let mut pos = 0usize;
    for step in [1usize, 3, 2, 13, 5, 1, 40, 11].iter().cycle() {
        if pos >= data.len() {
            break;
        }
        let end = (pos + step).min(data.len());
        chunks.extend(ch.feed(&data[pos..end].to_vec()));
        pos = end;
    }
    if let Some(last) = ch.finish() {
        chunks.push(last);
    }
    assert_eq!(chunks, whole);
}

#[test]
fn exact_multiple_leaves_no_remainder() {
    let data: Vec<u8> = (0u8..32).collect();
    let mut ch = Chunker::new(16);
    let chunks = ch.feed(&data);
    assert_eq!(chunks.len(), 2);
    assert!(ch.finish().is_none());
}

#[test]
fn streamed_encoding_matches_whole_encoding() {
    // The partial-read path end to end: chunker plus streaming encoder
    // against the in-memory encoder, then decoded back.
    let data: Vec<u8> = (0u8..=255).rev().collect();
    let mut ch = Chunker::new(16);
    let mut enc = Encoder::new(Style::Plain, true, 16);
    let mut lines: Vec<Vec<u8>> = Vec::new();
    for b in &data {
        for chunk in ch.feed(&vec![*b]) {
            lines.push(enc.encode_chunk(&chunk));
        }
    }
    if let Some(last) = ch.finish() {
        lines.push(enc.encode_chunk(&last));
    }
    assert_eq!(lines, encode_xxd(&data, true, 16));
    assert_eq!(decode_lines(&lines, true).unwrap(), data);
}
