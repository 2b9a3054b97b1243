//! The laws tying the encoder and the decoder together: a plain dump
//! decodes back to exactly the bytes it was made from, and a dump whose
//! offset field disagrees with the running byte count is rejected with the
//! offending pair.

use vstd::prelude::*;

use crate::decode::DecodeErrorKind;
use crate::decode::DecodeOut;
use crate::decode::DecSt;
use crate::decode::LineOut;
use crate::decode::RunOut;
use crate::decode::ScanOut;
use crate::decode::decode_model;
use crate::decode::first_colon;
use crate::decode::has_hex;
use crate::decode::init_state;
use crate::decode::lemma_first_colon_at;
use crate::decode::line_result;
use crate::decode::run_model;
use crate::decode::scan;
use crate::decode::scan_to_line;
use crate::decode::prepend_bytes;
use crate::decode::strip_0x;
use crate::decode::tail_from;
use crate::encode::Style;
use crate::encode::ascii_render;
use crate::encode::encode_model;
use crate::encode::hex_pair;
use crate::encode::render_line;
use crate::encode::xxd_col;
use crate::encode::xxd_cols;
use crate::encode::xxd_line;
use crate::hex::all_hex;
use crate::hex::hex_digit_of;
use crate::hex::hex_render;
use crate::hex::hex_seq_value;
use crate::hex::is_hex_digit;
use crate::hex::lemma_hex_digit_of;
use crate::hex::lemma_hex_render;
use crate::hex::lemma_hex_render_no_separator;

verus! {

/// Columns `i..width` of a plain dump line, concatenated.
pub open spec fn xxd_cols_from(chunk: Seq<u8>, width: int, i: int) -> Seq<u8>
    decreases width - i,
{
    if i < 0 || i >= width {
        Seq::empty()
    } else {
        xxd_col(chunk, i) + xxd_cols_from(chunk, width, i + 1)
    }
}

/// The columns `0..width` split at `i` into a prefix and a suffix.
proof fn lemma_cols_split(chunk: Seq<u8>, width: int, i: int)
    requires
        0 <= i <= width,
    ensures
        xxd_cols(chunk, width) == xxd_cols(chunk, i) + xxd_cols_from(chunk, width, i),
    decreases width - i,
{
    if i == width {
        assert(xxd_cols_from(chunk, width, i) =~= Seq::<u8>::empty());
        assert(xxd_cols(chunk, i) + Seq::<u8>::empty() =~= xxd_cols(chunk, i));
    } else {
        lemma_cols_split(chunk, width, i + 1);
        assert(xxd_cols(chunk, i + 1) == xxd_cols(chunk, i) + xxd_col(chunk, i));
        assert(xxd_cols_from(chunk, width, i) == xxd_col(chunk, i) + xxd_cols_from(
            chunk,
            width,
            i + 1,
        ));
        assert((xxd_cols(chunk, i) + xxd_col(chunk, i)) + xxd_cols_from(chunk, width, i + 1) =~= (
        xxd_cols(chunk, i) + (xxd_col(chunk, i) + xxd_cols_from(chunk, width, i + 1))));
    }
}

/// Scanning the hex columns of a dump line from a data position onward
/// yields exactly the remaining chunk bytes and no pending nibble: the
/// scan walks the pairs, skips the single separating spaces, and stops at
/// the first two adjacent spaces, before the blank padding or the trailing
/// ASCII column.
proof fn lemma_scan_xxd_cols(chunk: Seq<u8>, width: int, i: int, tail: Seq<u8>, seen: bool)
    requires
        0 <= i <= chunk.len(),
        chunk.len() <= width,
        i < width || width % 2 == 1,
        tail.len() >= 2,
        tail[0] == 32,
        width % 2 == 1 ==> tail[1] == 32,
        seen || i < chunk.len(),
    ensures
        scan(xxd_cols_from(chunk, width, i) + tail, None, seen) == (ScanOut::Done {
            bytes: chunk.skip(i),
            carry: None,
        }),
    decreases width - i,
{
    let s = xxd_cols_from(chunk, width, i) + tail;
    if i == width {
        assert(xxd_cols_from(chunk, width, i) =~= Seq::<u8>::empty());
        assert(s =~= tail);
        assert(chunk.skip(i) =~= Seq::<u8>::empty());
        assert(scan(s, None, seen) == (ScanOut::Done { bytes: Seq::<u8>::empty(), carry: None }));
    } else if i >= chunk.len() {
        let sep: Seq<u8> = if i % 2 == 1 {
            seq![32u8]
        } else {
            Seq::empty()
        };
        assert(xxd_col(chunk, i) == seq![32u8, 32u8] + sep);
        assert(s =~= seq![32u8, 32u8] + (sep + (xxd_cols_from(chunk, width, i + 1) + tail)));
        assert(s[0] == 32 && s[1] == 32);
        assert(chunk.skip(i) =~= Seq::<u8>::empty());
        assert(scan(s, None, seen) == (ScanOut::Done { bytes: Seq::<u8>::empty(), carry: None }));
    } else {
        let b = chunk[i];
        let hi: u8 = b / 16;
        let lo: u8 = b % 16;
        lemma_hex_digit_of(hi);
        lemma_hex_digit_of(lo);
        let sep: Seq<u8> = if i % 2 == 1 {
            seq![32u8]
        } else {
            Seq::empty()
        };
        let rest = sep + (xxd_cols_from(chunk, width, i + 1) + tail);
        assert(xxd_col(chunk, i) == hex_pair(b) + sep);
        assert(s =~= seq![hex_digit_of(hi), hex_digit_of(lo)] + rest);
        assert(s[0] == hex_digit_of(hi));
        assert(s.skip(1) =~= seq![hex_digit_of(lo)] + rest);
        assert(scan(s, None, seen) == scan(s.skip(1), Some(hi), true));
        assert(s.skip(1)[0] == hex_digit_of(lo));
        assert(s.skip(1).skip(1) =~= rest);
        assert(scan(s.skip(1), Some(hi), true) == prepend_bytes(
            seq![(hi * 16 + lo) as u8],
            scan(rest, None, true),
        ));
        assert(hi * 16 + lo == b);
        if i + 1 < chunk.len() {
            let rest2 = xxd_cols_from(chunk, width, i + 1) + tail;
            assert(i + 1 < width);
            assert(xxd_cols_from(chunk, width, i + 1) == xxd_col(chunk, i + 1) + xxd_cols_from(
                chunk,
                width,
                i + 2,
            ));
            let b2 = chunk[i + 1];
            lemma_hex_digit_of(b2 / 16);
            assert(xxd_col(chunk, i + 1)[0] == hex_digit_of(b2 / 16));
            assert(rest2[0] == hex_digit_of(b2 / 16));
            lemma_scan_xxd_cols(chunk, width, i + 1, tail, true);
            if i % 2 == 1 {
                assert(rest =~= seq![32u8] + rest2);
                assert(rest[0] == 32);
                assert(rest[1] == rest2[0]);
                assert(rest[1] != 32);
                assert(scan(rest, None, true) == scan(rest.skip(1), None, true));
                assert(rest.skip(1) =~= rest2);
            } else {
                assert(rest =~= rest2);
            }
            assert(scan(rest, None, true) == (ScanOut::Done { bytes: chunk.skip(i + 1), carry: None }));
        } else {
            assert(i + 1 == chunk.len());
            if i % 2 == 1 {
                let rest2 = xxd_cols_from(chunk, width, i + 1) + tail;
                assert(rest =~= seq![32u8] + rest2);
                if i + 1 < width {
                    assert(xxd_cols_from(chunk, width, i + 1) == xxd_col(chunk, i + 1)
                        + xxd_cols_from(chunk, width, i + 2));
                    assert(xxd_col(chunk, i + 1)[0] == 32);
                    assert(rest2[0] == 32);
                } else {
                    assert(xxd_cols_from(chunk, width, i + 1) =~= Seq::<u8>::empty());
                    assert(rest2 =~= tail);
                    assert(rest2[0] == 32);
                }
                assert(rest[0] == 32 && rest[1] == 32);
            } else {
                if i + 1 < width {
                    assert(xxd_cols_from(chunk, width, i + 1) == xxd_col(chunk, i + 1)
                        + xxd_cols_from(chunk, width, i + 2));
                    assert(xxd_col(chunk, i + 1)[0] == 32 && xxd_col(chunk, i + 1)[1] == 32);
                    assert(rest =~= xxd_cols_from(chunk, width, i + 1) + tail);
                    assert(rest[0] == 32 && rest[1] == 32);
                } else {
                    assert(width % 2 == 1);
                    assert(xxd_cols_from(chunk, width, i + 1) =~= Seq::<u8>::empty());
                    assert(rest =~= tail);
                    assert(rest[0] == 32 && rest[1] == 32);
                }
            }
            assert(scan(rest, None, true) == (ScanOut::Done {
                bytes: Seq::<u8>::empty(),
                carry: None,
            }));
            assert(chunk.skip(i + 1) =~= Seq::<u8>::empty());
        }
        assert(scan(rest, None, true) == (ScanOut::Done { bytes: chunk.skip(i + 1), carry: None }));
        assert(seq![b] + chunk.skip(i + 1) =~= chunk.skip(i));
        assert(scan(s, None, seen) == (ScanOut::Done { bytes: chunk.skip(i), carry: None }));
    }
}

/// Everything of a plain dump line after the hex columns: the separating
/// space, the extra space of an odd width, and the ASCII column.
pub open spec fn xxd_trail(chunk: Seq<u8>, width: nat) -> Seq<u8> {
    seq![32u8] + (if width % 2 == 1 {
        seq![32u8]
    } else {
        Seq::empty()
    }) + ascii_render(chunk)
}

/// The structural facts about a plain dump line with offsets: where the
/// colon sits, that the offset field reads back as the offset, and the
/// shape of the payload behind it.
proof fn lemma_xxd_line_parts(off: nat, chunk: Seq<u8>, width: nat)
    requires
        1 <= chunk.len() <= width,
    ensures
        ({
            let line = xxd_line(true, off, chunk, width);
            let h = hex_render(off, 8);
            let j = h.len() as int;
            &&& first_colon(line) == Some(j)
            &&& line.subrange(0, j) == h
            &&& strip_0x(h) == h
            &&& all_hex(h)
            &&& h.len() >= 1
            &&& hex_seq_value(h) == off
            &&& tail_from(line, j + 1) == seq![32u8] + (xxd_cols_from(chunk, width as int, 0)
                + xxd_trail(chunk, width))
            &&& has_hex(tail_from(line, j + 1))
        }),
{
    let line = xxd_line(true, off, chunk, width);
    let h = hex_render(off, 8);
    let j = h.len() as int;
    lemma_hex_render(off, 8);
    lemma_hex_render_no_separator(off, 8);
    lemma_cols_split(chunk, width as int, 0);
    assert(xxd_cols(chunk, 0) =~= Seq::<u8>::empty());
    assert(xxd_cols(chunk, width as int) =~= xxd_cols_from(chunk, width as int, 0));
    assert(line =~= h + seq![58u8, 32u8] + xxd_cols_from(chunk, width as int, 0) + seq![32u8] + (
    if width % 2 == 1 {
        seq![32u8]
    } else {
        Seq::<u8>::empty()
    }) + ascii_render(chunk));
    assert(line[j] == 58);
    assert forall|i: int| 0 <= i < j implies line[i] != 58 by {
        assert(line[i] == h[i]);
    }
    lemma_first_colon_at(line, j);
    assert(line.subrange(0, j) =~= h);
    assert(h[1] != 120) by {
        assert(is_hex_digit(h[1]));
    }
    assert(strip_0x(h) == h);
    let payload = tail_from(line, j + 1);
    assert(payload =~= seq![32u8] + (xxd_cols_from(chunk, width as int, 0) + xxd_trail(
        chunk,
        width,
    )));
    let b0 = chunk[0];
    lemma_hex_digit_of(b0 / 16);
    assert(xxd_cols_from(chunk, width as int, 0) == xxd_col(chunk, 0) + xxd_cols_from(
        chunk,
        width as int,
        1,
    ));
    assert(xxd_col(chunk, 0)[0] == hex_digit_of(b0 / 16));
    assert(payload[1] == hex_digit_of(b0 / 16));
    assert(has_hex(payload)) by {
        assert(is_hex_digit(payload[1]));
    }
}

/// The payload of a plain dump line scans to exactly its chunk, with no
/// nibble pending.
proof fn lemma_xxd_payload_scans(chunk: Seq<u8>, width: nat)
    requires
        1 <= chunk.len() <= width,
    ensures
        scan(
            seq![32u8] + (xxd_cols_from(chunk, width as int, 0) + xxd_trail(chunk, width)),
            None,
            false,
        ) == (ScanOut::Done { bytes: chunk, carry: None }),
        scan(xxd_cols_from(chunk, width as int, 0) + xxd_trail(chunk, width), None, false) == (
        ScanOut::Done { bytes: chunk, carry: None }),
{
    let trail = xxd_trail(chunk, width);
    assert(ascii_render(chunk).len() == chunk.len());
    assert(trail.len() >= 2);
    assert(trail[0] == 32);
    if width % 2 == 1 {
        assert(trail =~= seq![32u8, 32u8] + ascii_render(chunk));
        assert(trail[1] == 32);
    }
    lemma_scan_xxd_cols(chunk, width as int, 0, trail, false);
    assert(chunk.skip(0) =~= chunk);
    let inner = xxd_cols_from(chunk, width as int, 0) + trail;
    let payload = seq![32u8] + inner;
    let b0 = chunk[0];
    lemma_hex_digit_of(b0 / 16);
    assert(xxd_cols_from(chunk, width as int, 0) == xxd_col(chunk, 0) + xxd_cols_from(
        chunk,
        width as int,
        1,
    ));
    assert(xxd_col(chunk, 0)[0] == hex_digit_of(b0 / 16));
    assert(payload[0] == 32);
    assert(payload[1] == inner[0]);
    assert(payload[1] != 32);
    assert(scan(payload, None, false) == scan(payload.skip(1), None, false));
    assert(payload.skip(1) =~= inner);
}

/// A plain dump line, decoded at the offset it was encoded at and with no
/// nibble pending, yields exactly its chunk and leaves nothing pending.
pub proof fn lemma_xxd_line_decodes(
    numbers: bool,
    off: nat,
    chunk: Seq<u8>,
    width: nat,
    expected: int,
)
    requires
        1 <= chunk.len() <= width,
        off <= u64::MAX,
        expected == off,
    ensures
        line_result(numbers, expected, xxd_line(numbers, off, chunk, width), None)
            == (LineOut::Bytes { bytes: chunk, carry: None }),
{
    let line = xxd_line(numbers, off, chunk, width);
    lemma_cols_split(chunk, width as int, 0);
    assert(xxd_cols(chunk, 0) =~= Seq::<u8>::empty());
    assert(xxd_cols(chunk, width as int) =~= xxd_cols_from(chunk, width as int, 0));
    lemma_xxd_payload_scans(chunk, width);
    if numbers {
        lemma_xxd_line_parts(off, chunk, width);
        let h = hex_render(off, 8);
        let j = h.len() as int;
        assert(line_result(numbers, expected, line, None) == scan_to_line(
            scan(tail_from(line, j + 1), None, false),
        ));
    } else {
        assert(line =~= xxd_cols_from(chunk, width as int, 0) + xxd_trail(chunk, width));
        let b0 = chunk[0];
        lemma_hex_digit_of(b0 / 16);
        assert(xxd_cols_from(chunk, width as int, 0) == xxd_col(chunk, 0) + xxd_cols_from(
            chunk,
            width as int,
            1,
        ));
        assert(xxd_col(chunk, 0)[0] == hex_digit_of(b0 / 16));
        assert(line[0] == hex_digit_of(b0 / 16));
        assert(has_hex(line)) by {
            assert(is_hex_digit(line[0]));
        }
        assert(line_result(numbers, expected, line, None) == scan_to_line(scan(line, None, false)));
    }
}

/// A plain dump line whose declared offset differs from the running byte
/// count is rejected with exactly that pair, whatever nibble is pending.
pub proof fn lemma_offset_mismatch_detected(
    off: nat,
    chunk: Seq<u8>,
    width: nat,
    expected: int,
    carry: Option<u8>,
)
    requires
        1 <= chunk.len() <= width,
        off <= u64::MAX,
        0 <= expected <= u64::MAX,
        expected != off,
    ensures
        line_result(true, expected, xxd_line(true, off, chunk, width), carry) == (LineOut::Fail {
            kind: DecodeErrorKind::OffsetMismatch { expected: expected as u64, actual: off as u64 },
        }),
{
    lemma_xxd_line_parts(off, chunk, width);
}

/// Running the decoder over lines placed after a prefix is running it over
/// those lines alone.
proof fn lemma_run_shift(a: Seq<Seq<u8>>, b: Seq<Seq<u8>>, numbers: bool, st: DecSt, k: int)
    requires
        0 <= k <= b.len(),
    ensures
        match run_model(b, numbers, st, k) {
            RunOut::Good { st: st2 } => run_model(a + b, numbers, st, a.len() + k) == (RunOut::Good {
                st: st2,
            }),
            RunOut::Fail { line_no, kind } => run_model(a + b, numbers, st, a.len() + k) == (
            RunOut::Fail { line_no: line_no + a.len(), kind }),
        },
    decreases b.len() - k,
{
    assert((a + b).len() == a.len() + b.len());
    if k >= b.len() {
    } else {
        assert((a + b)[a.len() + k] == b[k]);
        match line_result(numbers, st.off, b[k], st.carry) {
            LineOut::Bytes { bytes, carry } => {
                lemma_run_shift(
                    a,
                    b,
                    numbers,
                    DecSt { bytes: st.bytes + bytes, off: st.off + bytes.len(), carry },
                    k + 1,
                );
            },
            LineOut::Fail { kind } => {},
        }
    }
}

/// Decoding every line of a plain dump of `data`, starting from a state
/// with no nibble pending and the matching offset, appends exactly `data`
/// and advances the offset by its length.
proof fn lemma_decode_encoded(numbers: bool, data: Seq<u8>, width: nat, st: DecSt)
    requires
        width >= 1,
        st.carry is None,
        0 <= st.off,
        st.off + data.len() <= u64::MAX,
    ensures
        run_model(
            encode_model(Style::Plain, numbers, data, width, st.off as nat),
            numbers,
            st,
            0,
        ) == (RunOut::Good {
            st: DecSt { bytes: st.bytes + data, off: st.off + data.len(), carry: None },
        }),
    decreases data.len(),
{
    let lines = encode_model(Style::Plain, numbers, data, width, st.off as nat);
    if data.len() == 0 {
        assert(lines =~~= Seq::<Seq<u8>>::empty());
        assert(st.bytes + data =~= st.bytes);
        assert(st =~= DecSt { bytes: st.bytes + data, off: st.off + data.len(), carry: None });
    } else if data.len() <= width {
        let line = render_line(Style::Plain, numbers, st.off as nat, data, width);
        assert(lines =~~= seq![line]);
        lemma_xxd_line_decodes(numbers, st.off as nat, data, width, st.off);
        assert(lines[0] == line);
        let st2 = DecSt { bytes: st.bytes + data, off: st.off + data.len(), carry: None };
        assert(run_model(lines, numbers, st, 0) == run_model(lines, numbers, st2, 1));
        assert(run_model(lines, numbers, st2, 1) == (RunOut::Good { st: st2 }));
    } else {
        let chunk = data.take(width as int);
        let line = render_line(Style::Plain, numbers, st.off as nat, chunk, width);
        let rest = encode_model(
            Style::Plain,
            numbers,
            data.skip(width as int),
            width,
            (st.off + width) as nat,
        );
        assert(lines =~~= seq![line] + rest);
        lemma_xxd_line_decodes(numbers, st.off as nat, chunk, width, st.off);
        assert(lines[0] == line);
        let st2 = DecSt { bytes: st.bytes + chunk, off: st.off + width, carry: None };
        assert(run_model(lines, numbers, st, 0) == run_model(lines, numbers, st2, 1));
        lemma_run_shift(seq![line], rest, numbers, st2, 0);
        assert(seq![line].len() == 1);
        lemma_decode_encoded(numbers, data.skip(width as int), width, st2);
        let st3 = DecSt {
            bytes: st2.bytes + data.skip(width as int),
            off: st2.off + data.skip(width as int).len(),
            carry: None,
        };
        assert(run_model(rest, numbers, st2, 0) == (RunOut::Good { st: st3 }));
        assert(st3.bytes =~= st.bytes + data) by {
            assert(chunk + data.skip(width as int) =~= data);
            assert((st.bytes + chunk) + data.skip(width as int) =~= st.bytes + (chunk + data.skip(
                width as int,
            )));
        }
        assert(st3 =~= DecSt { bytes: st.bytes + data, off: st.off + data.len(), carry: None });
    }
}

/// The chunk that the `k`-th line of a dump of `data` renders.
pub open spec fn nth_chunk(data: Seq<u8>, width: nat, k: int) -> Seq<u8>
    decreases k,
{
    if k <= 0 {
        if data.len() <= width {
            data
        } else {
            data.take(width as int)
        }
    } else {
        nth_chunk(data.skip(width as int), width, k - 1)
    }
}

/// Whether a dump of `data` has a `k`-th line at all.
pub open spec fn has_line(data: Seq<u8>, width: nat, k: int) -> bool
    decreases k,
{
    if k <= 0 {
        data.len() > 0
    } else if data.len() <= width {
        false
    } else {
        has_line(data.skip(width as int), width, k - 1)
    }
}

/// The running offset at which the `k`-th line starts, counting from
/// `base`.
pub open spec fn line_offset(base: int, width: nat, k: int) -> int
    decreases k,
{
    if k <= 0 {
        base
    } else {
        line_offset(base + width, width, k - 1)
    }
}

/// A line that exists starts strictly inside the data.
proof fn lemma_line_offset_bound(data: Seq<u8>, width: nat, base: int, k: int)
    requires
        width >= 1,
        0 <= k,
        has_line(data, width, k),
    ensures
        line_offset(base, width, k) < base + data.len(),
    decreases k,
{
    if k == 0 {
    } else {
        lemma_line_offset_bound(data.skip(width as int), width, base + width, k - 1);
    }
}

/// An existing chunk is nonempty and at most one line wide.
proof fn lemma_nth_chunk_len(data: Seq<u8>, width: nat, k: int)
    requires
        width >= 1,
        0 <= k,
        has_line(data, width, k),
    ensures
        1 <= nth_chunk(data, width, k).len() <= width,
    decreases k,
{
    if k == 0 {
    } else {
        lemma_nth_chunk_len(data.skip(width as int), width, k - 1);
    }
}

/// A dump has more lines than the index of any line it has.
proof fn lemma_has_line_count(data: Seq<u8>, width: nat, off: nat, k: int)
    requires
        width >= 1,
        0 <= k,
        has_line(data, width, k),
    ensures
        encode_model(Style::Plain, true, data, width, off).len() > k,
    decreases k,
{
    let lines = encode_model(Style::Plain, true, data, width, off);
    if k == 0 {
        assert(lines.len() >= 1);
    } else {
        let rest = encode_model(
            Style::Plain,
            true,
            data.skip(width as int),
            width,
            off + width,
        );
        lemma_has_line_count(data.skip(width as int), width, off + width, k - 1);
        assert(lines.len() == 1 + rest.len());
    }
}

/// Running the decoder over a dump whose `k`-th offset field was replaced
/// by a wrong value fails at line `k` with the expected and declared pair.
proof fn lemma_corrupt_run(data: Seq<u8>, width: nat, st: DecSt, k: int, w: nat)
    requires
        width >= 1,
        st.carry is None,
        0 <= st.off,
        st.off + data.len() <= u64::MAX,
        0 <= k,
        has_line(data, width, k),
        w <= u64::MAX,
        w != line_offset(st.off, width, k),
    ensures
        ({
            let lines = encode_model(Style::Plain, true, data, width, st.off as nat);
            let bad = xxd_line(true, w, nth_chunk(data, width, k), width);
            run_model(lines.update(k, bad), true, st, 0) == (RunOut::Fail {
                line_no: k,
                kind: DecodeErrorKind::OffsetMismatch {
                    expected: line_offset(st.off, width, k) as u64,
                    actual: w as u64,
                },
            })
        }),
    decreases k,
{
    let lines = encode_model(Style::Plain, true, data, width, st.off as nat);
    let chunk_k = nth_chunk(data, width, k);
    let bad = xxd_line(true, w, chunk_k, width);
    lemma_has_line_count(data, width, st.off as nat, k);
    assert(k < lines.len());
    let updated = lines.update(k, bad);
    lemma_nth_chunk_len(data, width, k);
    if k == 0 {
        assert(lines.len() >= 1);
        assert(updated[0] == bad);
        lemma_offset_mismatch_detected(w, chunk_k, width, st.off, st.carry);
        assert(run_model(updated, true, st, 0) == (RunOut::Fail {
            line_no: 0,
            kind: DecodeErrorKind::OffsetMismatch { expected: st.off as u64, actual: w as u64 },
        }));
    } else {
        assert(data.len() > width);
        let chunk0 = data.take(width as int);
        let line0 = render_line(Style::Plain, true, st.off as nat, chunk0, width);
        let rest = encode_model(
            Style::Plain,
            true,
            data.skip(width as int),
            width,
            (st.off + width) as nat,
        );
        assert(lines =~~= seq![line0] + rest);
        assert(updated =~~= seq![line0] + rest.update(k - 1, bad));
        let updated2 = seq![line0] + rest.update(k - 1, bad);
        assert(updated2[0] == line0);
        lemma_xxd_line_decodes(true, st.off as nat, chunk0, width, st.off);
        let st2 = DecSt { bytes: st.bytes + chunk0, off: st.off + width, carry: None };
        assert(run_model(updated2, true, st, 0) == run_model(updated2, true, st2, 1));
        lemma_corrupt_run(data.skip(width as int), width, st2, k - 1, w);
        lemma_run_shift(seq![line0], rest.update(k - 1, bad), true, st2, 0);
        assert(seq![line0].len() == 1);
    }
}

/// Offset corruption is detected: take any plain dump with offsets, and
/// rewrite the offset field of any one line to a value other than the
/// running byte count there; decoding fails at exactly that line with an
/// offset mismatch citing the expected count and the declared value.
pub proof fn lemma_corrupted_offset_detected(data: Seq<u8>, width: nat, k: int, w: nat)
    requires
        width >= 1,
        data.len() <= u64::MAX,
        0 <= k,
        has_line(data, width, k),
        w <= u64::MAX,
        w != line_offset(0, width, k),
    ensures
        decode_model(
            encode_model(Style::Plain, true, data, width, 0).update(
                k,
                xxd_line(true, w, nth_chunk(data, width, k), width),
            ),
            true,
        ) == (DecodeOut::Fail {
            line_no: k,
            kind: DecodeErrorKind::OffsetMismatch {
                expected: line_offset(0, width, k) as u64,
                actual: w as u64,
            },
        }),
{
    lemma_line_offset_bound(data, width, 0, k);
    lemma_corrupt_run(data, width, init_state(), k, w);
}

/// Round trip: a plain dump of any byte string, at any width and with or
/// without offsets, decodes back to exactly that byte string.
pub proof fn lemma_round_trip(data: Seq<u8>, numbers: bool, width: nat)
    requires
        width >= 1,
        data.len() <= u64::MAX,
    ensures
        decode_model(encode_model(Style::Plain, numbers, data, width, 0), numbers)
            == (DecodeOut::Bytes { bytes: data }),
{
    lemma_decode_encoded(numbers, data, width, init_state());
    let st = DecSt { bytes: init_state().bytes + data, off: data.len() as int, carry: None };
    assert(st.bytes =~= data);
}

} // verus!
