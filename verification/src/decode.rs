//! Decoder: from hex-dump text lines back to the original bytes.
//!
//! A line is handled in three steps, in this order:
//! 1. grammar: with offsets enabled the line must read `(0x)?<hex+>:` followed
//!    by a payload holding at least one hex digit; without offsets the whole
//!    line is the payload and must hold at least one hex digit;
//! 2. offset: the declared offset must be hex that fits in 64 bits and must
//!    equal the running byte count;
//! 3. payload scan: hex digits pair up into bytes (most significant nibble
//!    first), whitespace between digits is skipped, and any other byte is an
//!    error. A lone trailing digit is carried into the next line. Once a
//!    digit has been read on a line, two adjacent spaces end the payload:
//!    that is where the encoder's ASCII annotation column begins, and
//!    everything after it is ignored.

use vstd::prelude::*;

use crate::hex::all_hex;
use crate::hex::byte_hex_value;
use crate::hex::byte_is_hex_digit;
use crate::hex::hex_digit_value;
use crate::hex::hex_seq_value;
use crate::hex::is_hex_digit;
use crate::is_ascii_ws;
use crate::byte_is_ascii_ws;

verus! {

/// Why a dump line was rejected.
#[derive(Clone, Copy, Debug, PartialEq, Eq, Structural)]
pub enum DecodeErrorKind {
    /// The line does not match the line grammar.
    InvalidLine,
    /// The declared offset is hex but does not fit in 64 bits.
    InvalidOffsetEncoding,
    /// The declared offset differs from the running byte count.
    OffsetMismatch { expected: u64, actual: u64 },
    /// A payload byte that is neither a hex digit nor whitespace.
    InvalidCharacter { ch: u8 },
    /// The input ended with a lone hex digit still pending.
    TruncatedStream,
}

/// A decode failure, with the zero-based line number and the raw line text.
#[derive(Debug)]
pub struct DecodeError {
    pub line_no: usize,
    pub kind: DecodeErrorKind,
    pub text: Vec<u8>,
}

/// Outcome of scanning one payload region.
#[verifier::ext_equal]
pub enum ScanOut {
    /// The bytes completed on this line, and the digit still pending, if any.
    Done { bytes: Seq<u8>, carry: Option<u8> },
    /// The first byte that is neither a hex digit nor whitespace.
    Bad { ch: u8 },
}

/// Scans a payload left to right: whitespace is skipped, hex digits pair up
/// into bytes with the pending nibble, anything else stops the scan with
/// that byte. `seen` records whether a digit has been read on this line;
/// once it has, two adjacent spaces end the payload (the encoder's ASCII
/// column starts there).
pub open spec fn scan(s: Seq<u8>, carry: Option<u8>, seen: bool) -> ScanOut
    decreases s.len(),
{
    if s.len() == 0 {
        ScanOut::Done { bytes: Seq::empty(), carry }
    } else if seen && s.len() >= 2 && s[0] == 32 && s[1] == 32 {
        ScanOut::Done { bytes: Seq::empty(), carry }
    } else if is_ascii_ws(s[0]) {
        scan(s.skip(1), carry, seen)
    } else if is_hex_digit(s[0]) {
        let v = hex_digit_value(s[0]);
        match carry {
            Some(hi) => prepend_bytes(
                seq![(hi * 16 + v) as u8],
                scan(s.skip(1), None, true),
            ),
            None => scan(s.skip(1), Some(v), true),
        }
    } else {
        ScanOut::Bad { ch: s[0] }
    }
}

/// Puts already-completed bytes in front of a scan outcome.
pub open spec fn prepend_bytes(pre: Seq<u8>, r: ScanOut) -> ScanOut {
    match r {
        ScanOut::Done { bytes, carry } => ScanOut::Done { bytes: pre + bytes, carry },
        ScanOut::Bad { ch } => ScanOut::Bad { ch },
    }
}

pub proof fn lemma_prepend_bytes_assoc(a: Seq<u8>, b: Seq<u8>, r: ScanOut)
    ensures
        prepend_bytes(a, prepend_bytes(b, r)) == prepend_bytes(a + b, r),
{
    match r {
        ScanOut::Done { bytes, carry } => {
            assert(a + (b + bytes) =~= (a + b) + bytes);
        },
        ScanOut::Bad { ch } => {},
    }
}

/// The suffix of `s` from index `i` on.
pub open spec fn tail_from(s: Seq<u8>, i: int) -> Seq<u8> {
    s.subrange(i, s.len() as int)
}

/// The payload region holds at least one hex digit.
pub open spec fn has_hex(s: Seq<u8>) -> bool {
    exists|i: int| 0 <= i < s.len() && is_hex_digit(#[trigger] s[i])
}

/// The index of the first colon of `s`, if any.
pub open spec fn first_colon(s: Seq<u8>) -> Option<int>
    decreases s.len(),
{
    if s.len() == 0 {
        None
    } else if s[0] == 58 {
        Some(0)
    } else {
        match first_colon(s.skip(1)) {
            None => None,
            Some(k) => Some(k + 1),
        }
    }
}

/// `first_colon` finds exactly the least index holding a colon.
pub proof fn lemma_first_colon_at(s: Seq<u8>, j: int)
    requires
        0 <= j < s.len(),
        s[j] == 58,
        forall|i: int| 0 <= i < j ==> s[i] != 58,
    ensures
        first_colon(s) == Some(j),
    decreases j,
{
    if j == 0 {
    } else {
        assert(s[0] != 58);
        let t = s.skip(1);
        assert(t[j - 1] == s[j]);
        assert forall|i: int| 0 <= i < j - 1 implies t[i] != 58 by {
            assert(t[i] == s[i + 1]);
        }
        lemma_first_colon_at(t, j - 1);
    }
}

/// When `s` holds no colon at all, `first_colon` reports none.
pub proof fn lemma_first_colon_none(s: Seq<u8>)
    requires
        forall|i: int| 0 <= i < s.len() ==> s[i] != 58,
    ensures
        first_colon(s) is None,
    decreases s.len(),
{
    if s.len() == 0 {
    } else {
        let t = s.skip(1);
        assert forall|i: int| 0 <= i < t.len() implies t[i] != 58 by {
            assert(t[i] == s[i + 1]);
        }
        lemma_first_colon_none(t);
    }
}

/// The offset text with an optional leading `0x` removed.
pub open spec fn strip_0x(s: Seq<u8>) -> Seq<u8> {
    if s.len() >= 2 && s[0] == 48 && s[1] == 120 {
        s.skip(2)
    } else {
        s
    }
}

/// Outcome of one dump line.
#[verifier::ext_equal]
pub enum LineOut {
    /// The bytes the line contributes, and the digit carried onward.
    Bytes { bytes: Seq<u8>, carry: Option<u8> },
    /// The line is rejected.
    Fail { kind: DecodeErrorKind },
}

/// What decoding one line yields: the grammar check, then the offset checks,
/// then the payload scan, as described at the top of this module.
pub open spec fn line_result(numbers: bool, expected: int, line: Seq<u8>, carry: Option<u8>) -> LineOut {
    if numbers {
        match first_colon(line) {
            None => LineOut::Fail { kind: DecodeErrorKind::InvalidLine },
            Some(j) => {
                let otext = strip_0x(line.subrange(0, j));
                let payload = tail_from(line, j + 1);
                if otext.len() == 0 || !all_hex(otext) {
                    LineOut::Fail { kind: DecodeErrorKind::InvalidLine }
                } else if !has_hex(payload) {
                    LineOut::Fail { kind: DecodeErrorKind::InvalidLine }
                } else if hex_seq_value(otext) > u64::MAX {
                    LineOut::Fail { kind: DecodeErrorKind::InvalidOffsetEncoding }
                } else if hex_seq_value(otext) != expected {
                    LineOut::Fail {
                        kind: DecodeErrorKind::OffsetMismatch {
                            expected: expected as u64,
                            actual: hex_seq_value(otext) as u64,
                        },
                    }
                } else {
                    scan_to_line(scan(payload, carry, false))
                }
            },
        }
    } else {
        if !has_hex(line) {
            LineOut::Fail { kind: DecodeErrorKind::InvalidLine }
        } else {
            scan_to_line(scan(line, carry, false))
        }
    }
}

/// Lifts a scan outcome to a line outcome.
pub open spec fn scan_to_line(r: ScanOut) -> LineOut {
    match r {
        ScanOut::Done { bytes, carry } => LineOut::Bytes { bytes, carry },
        ScanOut::Bad { ch } => LineOut::Fail { kind: DecodeErrorKind::InvalidCharacter { ch } },
    }
}

/// Scans the payload region of `line` starting at `start`, with `nibble`
/// pending from the previous line.
fn scan_hex_payload(line: &Vec<u8>, start: usize, nibble: Option<u8>) -> (r: Result<
    (Vec<u8>, Option<u8>),
    u8,
>)
    requires
        start <= line@.len(),
        nibble matches Some(v) ==> v < 16,
    ensures
        ({
            let m = scan(tail_from(line@, start as int), nibble, false);
            match (m, r) {
                (ScanOut::Done { bytes, carry }, Ok((v, nib))) => v@ == bytes && nib == carry,
                (ScanOut::Bad { ch }, Err(c)) => c == ch,
                _ => false,
            }
        }),
        r matches Ok((v, nib)) ==> ((nib matches Some(x) ==> x < 16) && v@.len() <= line@.len()
            - start),
{
    let ghost p = tail_from(line@, start as int);
    let mut out: Vec<u8> = Vec::new();
    let mut nib: Option<u8> = nibble;
    let mut seen: bool = false;
    let mut i: usize = start;
    proof {
        assert(tail_from(line@, i as int) =~= p);
    }
    while i < line.len()
        invariant
            start <= i <= line@.len(),
            p == tail_from(line@, start as int),
            nib matches Some(v) ==> v < 16,
            out@.len() <= i - start,
            scan(p, nibble, false) == prepend_bytes(
                out@,
                scan(tail_from(line@, i as int), nib, seen),
            ),
        decreases line@.len() - i,
    {
        let ghost t = tail_from(line@, i as int);
        let ghost t2 = tail_from(line@, i as int + 1);
        proof {
            assert(t.len() == line@.len() - i);
            assert(t[0] == line@[i as int]);
            assert(t.skip(1) =~= t2);
        }
        let c = line[i];
        if seen && c == 32 && i + 1 < line.len() && line[i + 1] == 32 {
            proof {
                assert(t[1] == line@[i + 1]);
                assert(scan(t, nib, seen) == ScanOut::Done { bytes: Seq::empty(), carry: nib });
                assert(out@ + Seq::<u8>::empty() =~= out@);
            }
            return Ok((out, nib));
        } else if byte_is_ascii_ws(c) {
            proof {
                assert(scan(t, nib, seen) == scan(t2, nib, seen));
            }
            i = i + 1;
        } else if byte_is_hex_digit(c) {
            let v = byte_hex_value(c);
            match nib {
                Some(hi) => {
                    let b: u8 = hi * 16 + v;
                    proof {
                        assert(scan(t, nib, seen) == prepend_bytes(
                            seq![b],
                            scan(t2, None, true),
                        ));
                        lemma_prepend_bytes_assoc(out@, seq![b], scan(t2, None, true));
                        assert(out@ + seq![b] =~= out@.push(b));
                    }
                    out.push(b);
                    nib = None;
                },
                None => {
                    proof {
                        assert(scan(t, nib, seen) == scan(t2, Some(v), true));
                    }
                    nib = Some(v);
                },
            }
            seen = true;
            i = i + 1;
        } else {
            proof {
                assert(scan(t, nib, seen) == ScanOut::Bad { ch: c });
            }
            return Err(c);
        }
    }
    proof {
        assert(tail_from(line@, i as int) =~= Seq::<u8>::empty());
        assert(scan(tail_from(line@, i as int), nib, seen) == ScanOut::Done {
            bytes: Seq::empty(),
            carry: nib,
        });
        assert(out@ + Seq::<u8>::empty() =~= out@);
    }
    Ok((out, nib))
}

/// Finds the first colon of the line.
fn find_colon(line: &Vec<u8>) -> (r: Option<usize>)
    ensures
        match r {
            Some(j) => j < line@.len() && first_colon(line@) == Some(j as int),
            None => first_colon(line@) is None,
        },
{
    let mut j: usize = 0;
    while j < line.len()
        invariant
            j <= line@.len(),
            forall|i: int| 0 <= i < j ==> line@[i] != 58,
        decreases line@.len() - j,
    {
        if line[j] == 58 {
            proof {
                lemma_first_colon_at(line@, j as int);
            }
            return Some(j);
        }
        j = j + 1;
    }
    proof {
        lemma_first_colon_none(line@);
    }
    None
}

/// Checks that `line[start..end]` is hex digits only.
fn range_all_hex(line: &Vec<u8>, start: usize, end: usize) -> (r: bool)
    requires
        start <= end <= line@.len(),
    ensures
        r == all_hex(line@.subrange(start as int, end as int)),
{
    let ghost o = line@.subrange(start as int, end as int);
    let mut k: usize = start;
    while k < end
        invariant
            start <= k <= end <= line@.len(),
            o == line@.subrange(start as int, end as int),
            forall|i: int| 0 <= i < k - start ==> is_hex_digit(#[trigger] o[i]),
        decreases end - k,
    {
        if !byte_is_hex_digit(line[k]) {
            proof {
                assert(o[k - start] == line@[k as int]);
            }
            return false;
        }
        proof {
            assert(o[k - start] == line@[k as int]);
        }
        k = k + 1;
    }
    true
}

/// Checks that the payload region from `start` holds at least one hex digit.
fn range_has_hex(line: &Vec<u8>, start: usize) -> (r: bool)
    requires
        start <= line@.len(),
    ensures
        r == has_hex(tail_from(line@, start as int)),
{
    let ghost t = tail_from(line@, start as int);
    let mut k: usize = start;
    while k < line.len()
        invariant
            start <= k <= line@.len(),
            t == tail_from(line@, start as int),
            forall|i: int| 0 <= i < k - start ==> !is_hex_digit(#[trigger] t[i]),
        decreases line@.len() - k,
    {
        if byte_is_hex_digit(line[k]) {
            proof {
                assert(is_hex_digit(t[k - start]));
            }
            return true;
        }
        proof {
            assert(t[k - start] == line@[k as int]);
        }
        k = k + 1;
    }
    proof {
        assert(forall|i: int| 0 <= i < t.len() ==> !is_hex_digit(#[trigger] t[i]));
    }
    false
}

/// Extending a hex number that already exceeds 64 bits keeps it too large.
proof fn lemma_hex_value_grows(o: Seq<u8>, m: int)
    requires
        0 <= m <= o.len(),
        hex_seq_value(o.take(m)) > u64::MAX,
    ensures
        hex_seq_value(o) > u64::MAX,
    decreases o.len() - m,
{
    if m == o.len() {
        assert(o.take(m) =~= o);
    } else {
        let a = o.take(m);
        let b = o.take(m + 1);
        assert(b.drop_last() =~= a);
        assert(b.last() == o[m]);
        assert(hex_seq_value(b) == hex_seq_value(a) * 16 + hex_digit_value(o[m]));
        assert(hex_seq_value(a) * 16 >= hex_seq_value(a)) by (nonlinear_arith);
        lemma_hex_value_grows(o, m + 1);
    }
}

/// Parses `line[start..end]` as a base-16 number; reports when it does not
/// fit in 64 bits.
fn parse_hex_u64(line: &Vec<u8>, start: usize, end: usize) -> (r: Option<u64>)
    requires
        start <= end <= line@.len(),
        all_hex(line@.subrange(start as int, end as int)),
    ensures
        ({
            let o = line@.subrange(start as int, end as int);
            match r {
                Some(v) => v == hex_seq_value(o),
                None => hex_seq_value(o) > u64::MAX,
            }
        }),
{
    let ghost o = line@.subrange(start as int, end as int);
    let mut v: u64 = 0;
    let mut k: usize = start;
    proof {
        assert(o.take(0) =~= Seq::<u8>::empty());
    }
    while k < end
        invariant
            start <= k <= end <= line@.len(),
            o == line@.subrange(start as int, end as int),
            all_hex(o),
            v == hex_seq_value(o.take(k - start)),
        decreases end - k,
    {
        proof {
            assert(o[k - start] == line@[k as int]);
        }
        let d = byte_hex_value(line[k]);
        proof {
            let b = o.take(k - start + 1);
            assert(b.drop_last() =~= o.take(k - start));
            assert(b.last() == o[k - start]);
            assert(hex_seq_value(b) == v * 16 + d);
        }
        if v >= 0x1000_0000_0000_0000 {
            proof {
                assert(hex_seq_value(o.take(k - start + 1)) > u64::MAX);
                lemma_hex_value_grows(o, k - start + 1);
            }
            return None;
        }
        v = v * 16 + (d as u64);
        k = k + 1;
    }
    proof {
        assert(o.take(k - start) =~= o);
    }
    Some(v)
}

/// Decodes one dump line: grammar check, offset check against the running
/// count, then the payload scan with the pending nibble from the previous
/// line.
pub fn undo_line(numbers: bool, next_offset: u64, line: &Vec<u8>, nibble: Option<u8>) -> (r: Result<
    (Vec<u8>, Option<u8>),
    DecodeErrorKind,
>)
    requires
        nibble matches Some(v) ==> v < 16,
    ensures
        ({
            let m = line_result(numbers, next_offset as int, line@, nibble);
            match (m, r) {
                (LineOut::Bytes { bytes, carry }, Ok((v, nib))) => v@ == bytes && nib == carry,
                (LineOut::Fail { kind }, Err(k)) => k == kind,
                _ => false,
            }
        }),
        r matches Ok((v, nib)) ==> ((nib matches Some(x) ==> x < 16) && v@.len() <= line@.len()),
{
    if numbers {
        let j = match find_colon(line) {
            Some(j) => j,
            None => {
                return Err(DecodeErrorKind::InvalidLine);
            },
        };
        let ostart: usize = if j >= 2 && line[0] == 48 && line[1] == 120 {
            2
        } else {
            0
        };
        proof {
            let raw = line@.subrange(0, j as int);
            assert(raw.len() == j);
            if j >= 2 {
                assert(raw[0] == line@[0]);
                assert(raw[1] == line@[1]);
            }
            assert(strip_0x(raw) =~= line@.subrange(ostart as int, j as int));
        }
        if ostart == j {
            return Err(DecodeErrorKind::InvalidLine);
        }
        if !range_all_hex(line, ostart, j) {
            return Err(DecodeErrorKind::InvalidLine);
        }
        let n: usize = line.len();
        assert(j < n);
        if !range_has_hex(line, j + 1) {
            return Err(DecodeErrorKind::InvalidLine);
        }
        let declared = match parse_hex_u64(line, ostart, j) {
            Some(v) => v,
            None => {
                return Err(DecodeErrorKind::InvalidOffsetEncoding);
            },
        };
        if declared != next_offset {
            return Err(
                DecodeErrorKind::OffsetMismatch { expected: next_offset, actual: declared },
            );
        }
        match scan_hex_payload(line, j + 1, nibble) {
            Ok((bytes, nib)) => Ok((bytes, nib)),
            Err(c) => Err(DecodeErrorKind::InvalidCharacter { ch: c }),
        }
    } else {
        proof {
            assert(tail_from(line@, 0) =~= line@);
        }
        if !range_has_hex(line, 0) {
            return Err(DecodeErrorKind::InvalidLine);
        }
        match scan_hex_payload(line, 0, nibble) {
            Ok((bytes, nib)) => Ok((bytes, nib)),
            Err(c) => Err(DecodeErrorKind::InvalidCharacter { ch: c }),
        }
    }
}

/// The decoder's running state: the bytes reconstructed so far, the running
/// offset, and the pending nibble.
#[verifier::ext_equal]
pub struct DecSt {
    pub bytes: Seq<u8>,
    pub off: int,
    pub carry: Option<u8>,
}

/// Outcome of running the decoder over a sequence of lines.
#[verifier::ext_equal]
pub enum RunOut {
    Good { st: DecSt },
    Fail { line_no: int, kind: DecodeErrorKind },
}

/// The fresh decoder state.
pub open spec fn init_state() -> DecSt {
    DecSt { bytes: Seq::empty(), off: 0, carry: None }
}

/// Runs the per-line decoder over `lines[i..]` from state `st`: each line
/// appends its bytes, advances the offset by that many, and hands its
/// pending nibble to the next; the first rejected line stops the run.
pub open spec fn run_model(lines: Seq<Seq<u8>>, numbers: bool, st: DecSt, i: int) -> RunOut
    decreases lines.len() - i,
{
    if i < 0 || i >= lines.len() {
        RunOut::Good { st }
    } else {
        match line_result(numbers, st.off, lines[i], st.carry) {
            LineOut::Bytes { bytes, carry } => run_model(
                lines,
                numbers,
                DecSt { bytes: st.bytes + bytes, off: st.off + bytes.len(), carry },
                i + 1,
            ),
            LineOut::Fail { kind } => RunOut::Fail { line_no: i, kind },
        }
    }
}

/// Outcome of decoding a whole dump.
#[verifier::ext_equal]
pub enum DecodeOut {
    Bytes { bytes: Seq<u8> },
    Fail { line_no: int, kind: DecodeErrorKind },
}

/// Decoding a whole dump: run over every line from the fresh state; a
/// nibble still pending after the last line means the stream was cut midway
/// through a byte.
pub open spec fn decode_model(lines: Seq<Seq<u8>>, numbers: bool) -> DecodeOut {
    match run_model(lines, numbers, init_state(), 0) {
        RunOut::Good { st } => match st.carry {
            None => DecodeOut::Bytes { bytes: st.bytes },
            Some(_) => DecodeOut::Fail {
                line_no: lines.len() as int,
                kind: DecodeErrorKind::TruncatedStream,
            },
        },
        RunOut::Fail { line_no, kind } => DecodeOut::Fail { line_no, kind },
    }
}

/// The running offset always equals the count of bytes decoded so far: if
/// a run starts in a state where the two agree, every state it can reach,
/// in particular the final one, keeps them equal.
pub proof fn lemma_offset_tracks_bytes(lines: Seq<Seq<u8>>, numbers: bool, st: DecSt, i: int)
    requires
        st.off == st.bytes.len(),
        run_model(lines, numbers, st, i) is Good,
    ensures
        run_model(lines, numbers, st, i)->st.off == run_model(lines, numbers, st, i)->st.bytes.len(),
    decreases lines.len() - i,
{
    if i < 0 || i >= lines.len() {
    } else {
        match line_result(numbers, st.off, lines[i], st.carry) {
            LineOut::Bytes { bytes, carry } => {
                lemma_offset_tracks_bytes(
                    lines,
                    numbers,
                    DecSt { bytes: st.bytes + bytes, off: st.off + bytes.len(), carry },
                    i + 1,
                );
            },
            LineOut::Fail { kind } => {},
        }
    }
}

/// Decodes a whole dump held in memory, line by line.
pub fn decode_lines(lines: &Vec<Vec<u8>>, numbers: bool) -> (r: Result<Vec<u8>, DecodeError>)
    ensures
        ({
            let m = decode_model(lines.deep_view(), numbers);
            match (m, r) {
                (DecodeOut::Bytes { bytes }, Ok(v)) => v@ == bytes,
                (DecodeOut::Fail { line_no, kind }, Err(e)) => e.line_no == line_no && e.kind
                    == kind && (line_no < lines.deep_view().len() ==> e.text@
                    == lines.deep_view()[line_no]),
                _ => false,
            }
        }),
{
    let ghost l = lines.deep_view();
    let mut out: Vec<u8> = Vec::new();
    let mut carry: Option<u8> = None;
    let mut i: usize = 0;
    while i < lines.len()
        invariant
            0 <= i <= lines@.len(),
            l == lines.deep_view(),
            l.len() == lines@.len(),
            carry matches Some(v) ==> v < 16,
            run_model(l, numbers, init_state(), 0) == run_model(
                l,
                numbers,
                DecSt { bytes: out@, off: out@.len() as int, carry },
                i as int,
            ),
        decreases lines@.len() - i,
    {
        let line: &Vec<u8> = &lines[i];
        proof {
            assert(l[i as int] == lines@[i as int]@);
        }
        let off: u64 = out.len() as u64;
        match undo_line(numbers, off, line, carry) {
            Ok((mut bytes, nc)) => {
                proof {
                    let st = DecSt { bytes: out@, off: out@.len() as int, carry };
                    let st2 = DecSt {
                        bytes: out@ + bytes@,
                        off: out@.len() as int + bytes@.len() as int,
                        carry: nc,
                    };
                    assert(run_model(l, numbers, st, i as int) == run_model(
                        l,
                        numbers,
                        st2,
                        i + 1,
                    ));
                }
                out.append(&mut bytes);
                carry = nc;
                i = i + 1;
            },
            Err(kind) => {
                proof {
                    let st = DecSt { bytes: out@, off: out@.len() as int, carry };
                    assert(run_model(l, numbers, st, i as int) == RunOut::Fail {
                        line_no: i as int,
                        kind,
                    });
                }
                let text = copy_bytes(line);
                return Err(DecodeError { line_no: i, kind, text });
            },
        }
    }
    proof {
        let st = DecSt { bytes: out@, off: out@.len() as int, carry };
        assert(run_model(l, numbers, st, i as int) == RunOut::Good { st });
    }
    match carry {
        None => Ok(out),
        Some(_) => Err(
            DecodeError {
                line_no: lines.len(),
                kind: DecodeErrorKind::TruncatedStream,
                text: Vec::new(),
            },
        ),
    }
}

/// A streaming decoder, fed one line at a time.
///
/// Its well-formedness ties the running offset to the bytes handed out so
/// far: after any number of lines, `offset` equals the length of everything
/// emitted.
pub struct Decoder {
    pub numbers: bool,
    pub offset: u64,
    pub carry: Option<u8>,
    pub line_no: usize,
    pub emitted: Ghost<Seq<u8>>,
}

impl Decoder {
    /// The running offset equals the count of bytes emitted so far, and a
    /// pending nibble is a digit value.
    pub open spec fn wf(self) -> bool {
        &&& self.offset == self.emitted@.len()
        &&& self.carry matches Some(v) ==> v < 16
    }

    /// A fresh decoder: nothing emitted, nothing pending.
    pub fn new(numbers: bool) -> (d: Decoder)
        ensures
            d.wf(),
            d.numbers == numbers,
            d.offset == 0,
            d.carry is None,
            d.line_no == 0,
            d.emitted@ == Seq::<u8>::empty(),
    {
        Decoder { numbers, offset: 0, carry: None, line_no: 0, emitted: Ghost(Seq::empty()) }
    }

    /// Decodes the next line: on success hands back its bytes, advances the
    /// offset by exactly that many, and keeps the pending nibble for the
    /// next line; on failure reports the line number and raw text and
    /// leaves the state as it was.
    pub fn feed_line(&mut self, line: &Vec<u8>) -> (r: Result<Vec<u8>, DecodeError>)
        requires
            old(self).wf(),
            old(self).line_no < usize::MAX,
            old(self).offset + line@.len() <= u64::MAX,
        ensures
            final(self).wf(),
            final(self).numbers == old(self).numbers,
            ({
                let m = line_result(
                    old(self).numbers,
                    old(self).offset as int,
                    line@,
                    old(self).carry,
                );
                match (m, r) {
                    (LineOut::Bytes { bytes, carry }, Ok(v)) => {
                        &&& v@ == bytes
                        &&& final(self).carry == carry
                        &&& final(self).emitted@ == old(self).emitted@ + bytes
                        &&& final(self).offset == old(self).offset + bytes.len()
                        &&& final(self).line_no == old(self).line_no + 1
                    },
                    (LineOut::Fail { kind }, Err(e)) => {
                        &&& e.kind == kind
                        &&& e.line_no == old(self).line_no
                        &&& e.text@ == line@
                        &&& *final(self) == *old(self)
                    },
                    _ => false,
                }
            }),
    {
        match undo_line(self.numbers, self.offset, line, self.carry) {
            Ok((bytes, nib)) => {
                self.offset = self.offset + bytes.len() as u64;
                self.carry = nib;
                self.line_no = self.line_no + 1;
                self.emitted = Ghost(self.emitted@ + bytes@);
                Ok(bytes)
            },
            Err(kind) => Err(
                DecodeError { line_no: self.line_no, kind, text: copy_bytes(line) },
            ),
        }
    }

    /// After the last line a pending nibble means the dump stopped midway
    /// through a byte.
    pub fn finish(&self) -> (r: Result<(), DecodeError>)
        ensures
            match r {
                Ok(_) => self.carry is None,
                Err(e) => self.carry is Some && e.kind == DecodeErrorKind::TruncatedStream
                    && e.line_no == self.line_no,
            },
    {
        match self.carry {
            None => Ok(()),
            Some(_) => Err(
                DecodeError {
                    line_no: self.line_no,
                    kind: DecodeErrorKind::TruncatedStream,
                    text: Vec::new(),
                },
            ),
        }
    }
}

/// Copies a byte string.
pub(crate) fn copy_bytes(src: &Vec<u8>) -> (r: Vec<u8>)
    ensures
        r@ == src@,
{
    let mut r: Vec<u8> = Vec::new();
    let mut i: usize = 0;
    while i < src.len()
        invariant
            0 <= i <= src@.len(),
            r@ == src@.take(i as int),
        decreases src@.len() - i,
    {
        r.push(src[i]);
        proof {
            assert(src@.take(i + 1) =~= src@.take(i as int).push(src@[i as int]));
        }
        i = i + 1;
    }
    proof {
        assert(src@.take(i as int) =~= src@);
    }
    r
}

} // verus!
