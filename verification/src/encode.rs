//! Encoder: from raw bytes to hex-dump text lines.
//!
//! Each line renders one chunk of at most `width` bytes, in one of two
//! styles: a plain dump (optional 8-digit hex offset and `: `, then `width`
//! two-digit columns — blank for positions past the chunk — with a space
//! after every second column, a separating space, an extra space when
//! `width` is odd, then the chunk's printable-or-dot ASCII rendering), or a
//! commented source-code style (`/* hhhh */ ` offset, `0xhh, ` per byte,
//! six blanks per missing position, then `// ` and the same ASCII
//! rendering).

use vstd::prelude::*;

use crate::hex::hex_render;
use crate::hex::hex_digit_of;
use crate::hex::byte_hex_digit;
use crate::hex::push_hex;
use crate::is_graphic;

verus! {

/// The two digits of one byte, lowercase, most significant first.
pub open spec fn hex_pair(b: u8) -> Seq<u8> {
    seq![hex_digit_of(b / 16), hex_digit_of(b % 16)]
}

/// Column `i` of a plain dump line: the byte's digits, or two blanks past
/// the end of the chunk, then a space after every second column.
pub open spec fn xxd_col(chunk: Seq<u8>, i: int) -> Seq<u8> {
    (if i < chunk.len() {
        hex_pair(chunk[i])
    } else {
        seq![32u8, 32u8]
    }) + (if i % 2 == 1 {
        seq![32u8]
    } else {
        Seq::empty()
    })
}

/// Columns `0..i` of a plain dump line, concatenated.
pub open spec fn xxd_cols(chunk: Seq<u8>, i: int) -> Seq<u8>
    decreases i,
{
    if i <= 0 {
        Seq::empty()
    } else {
        xxd_cols(chunk, i - 1) + xxd_col(chunk, i - 1)
    }
}

/// The ASCII column: each byte as itself when printable, else a dot.
pub open spec fn ascii_render(chunk: Seq<u8>) -> Seq<u8> {
    chunk.map(|i: int, b: u8| if is_graphic(b) { b } else { 46u8 })
}

/// One plain dump line for `chunk` at running offset `off`.
pub open spec fn xxd_line(numbers: bool, off: nat, chunk: Seq<u8>, width: nat) -> Seq<u8> {
    (if numbers {
        hex_render(off, 8) + seq![58u8, 32u8]
    } else {
        Seq::empty()
    }) + xxd_cols(chunk, width as int) + seq![32u8] + (if width % 2 == 1 {
        seq![32u8]
    } else {
        Seq::empty()
    }) + ascii_render(chunk)
}

/// Column `i` of a commented-code line: `0xhh, `, or six blanks past the
/// end of the chunk.
pub open spec fn code_col(chunk: Seq<u8>, i: int) -> Seq<u8> {
    if i < chunk.len() {
        seq![48u8, 120u8] + hex_pair(chunk[i]) + seq![44u8, 32u8]
    } else {
        seq![32u8, 32u8, 32u8, 32u8, 32u8, 32u8]
    }
}

/// Columns `0..i` of a commented-code line, concatenated.
pub open spec fn code_cols(chunk: Seq<u8>, i: int) -> Seq<u8>
    decreases i,
{
    if i <= 0 {
        Seq::empty()
    } else {
        code_cols(chunk, i - 1) + code_col(chunk, i - 1)
    }
}

/// One commented-code line for `chunk` at running offset `off`.
pub open spec fn code_line(numbers: bool, off: nat, chunk: Seq<u8>, width: nat) -> Seq<u8> {
    (if numbers {
        seq![47u8, 42u8, 32u8] + hex_render(off, 4) + seq![32u8, 42u8, 47u8, 32u8]
    } else {
        Seq::empty()
    }) + code_cols(chunk, width as int) + seq![47u8, 47u8, 32u8] + ascii_render(chunk)
}

/// The two output styles.
#[derive(Clone, Copy, Debug, PartialEq, Eq, Structural)]
pub enum Style {
    /// The plain dump of [`xxd_line`].
    Plain,
    /// The commented-code dump of [`code_line`].
    Code,
}

/// The line a chunk renders to in the given style.
pub open spec fn render_line(style: Style, numbers: bool, off: nat, chunk: Seq<u8>, width: nat) -> Seq<
    u8,
> {
    match style {
        Style::Plain => xxd_line(numbers, off, chunk, width),
        Style::Code => code_line(numbers, off, chunk, width),
    }
}

/// All lines of a dump of `data`: one chunk of `width` bytes per line (the
/// last may be shorter, an empty input gives no lines), offsets running
/// from `off`.
pub open spec fn encode_model(
    style: Style,
    numbers: bool,
    data: Seq<u8>,
    width: nat,
    off: nat,
) -> Seq<Seq<u8>>
    decreases data.len(),
{
    if width == 0 || data.len() == 0 {
        Seq::empty()
    } else if data.len() <= width {
        seq![render_line(style, numbers, off, data, width)]
    } else {
        seq![render_line(style, numbers, off, data.take(width as int), width)] + encode_model(
            style,
            numbers,
            data.skip(width as int),
            width,
            off + width,
        )
    }
}

/// Renders one plain dump line.
pub fn encode_xxd_line(numbers: bool, off: u64, chunk: &Vec<u8>, width: usize) -> (line: Vec<u8>)
    requires
        chunk@.len() <= width,
    ensures
        line@ == xxd_line(numbers, off as nat, chunk@, width as nat),
{
    let mut out: Vec<u8> = Vec::new();
    if numbers {
        push_hex(&mut out, off, 8);
        out.push(58);
        out.push(32);
    }
    let ghost pre = out@;
    let mut i: usize = 0;
    while i < width
        invariant
            i <= width,
            chunk@.len() <= width,
            out@ == pre + xxd_cols(chunk@, i as int),
        decreases width - i,
    {
        if i < chunk.len() {
            let b = chunk[i];
            out.push(byte_hex_digit(b / 16));
            out.push(byte_hex_digit(b % 16));
        } else {
            out.push(32);
            out.push(32);
        }
        if i % 2 == 1 {
            out.push(32);
        }
        proof {
            assert(out@ =~= pre + xxd_cols(chunk@, i + 1));
        }
        i = i + 1;
    }
    out.push(32);
    if width % 2 == 1 {
        out.push(32);
    }
    let ghost pre2 = out@;
    let mut k: usize = 0;
    while k < chunk.len()
        invariant
            k <= chunk@.len(),
            out@ == pre2 + ascii_render(chunk@).take(k as int),
        decreases chunk@.len() - k,
    {
        let b = chunk[k];
        if 33 <= b && b <= 126 {
            out.push(b);
        } else {
            out.push(46);
        }
        proof {
            assert(out@ =~= pre2 + ascii_render(chunk@).take(k + 1));
        }
        k = k + 1;
    }
    proof {
        assert(ascii_render(chunk@).take(chunk@.len() as int) =~= ascii_render(chunk@));
        assert(out@ =~= xxd_line(numbers, off as nat, chunk@, width as nat));
    }
    out
}

/// Renders one commented-code line.
pub fn encode_code_line(numbers: bool, off: u64, chunk: &Vec<u8>, width: usize) -> (line: Vec<u8>)
    requires
        chunk@.len() <= width,
    ensures
        line@ == code_line(numbers, off as nat, chunk@, width as nat),
{
    let mut out: Vec<u8> = Vec::new();
    if numbers {
        out.push(47);
        out.push(42);
        out.push(32);
        push_hex(&mut out, off, 4);
        out.push(32);
        out.push(42);
        out.push(47);
        out.push(32);
    }
    let ghost pre = out@;
    proof {
        if numbers {
            assert(pre =~= seq![47u8, 42u8, 32u8] + hex_render(off as nat, 4) + seq![
                32u8, 42u8, 47u8, 32u8,
            ]);
        }
    }
    let mut i: usize = 0;
    while i < width
        invariant
            i <= width,
            chunk@.len() <= width,
            out@ == pre + code_cols(chunk@, i as int),
        decreases width - i,
    {
        if i < chunk.len() {
            let b = chunk[i];
            out.push(48);
            out.push(120);
            out.push(byte_hex_digit(b / 16));
            out.push(byte_hex_digit(b % 16));
            out.push(44);
            out.push(32);
        } else {
            let mut s: usize = 0;
            while s < 6
                invariant
                    s <= 6,
                    out@ == pre + code_cols(chunk@, i as int) + Seq::new(s as nat, |t: int| 32u8),
                decreases 6 - s,
            {
                out.push(32);
                proof {
                    assert(Seq::new((s + 1) as nat, |t: int| 32u8) =~= Seq::new(
                        s as nat,
                        |t: int| 32u8,
                    ).push(32u8));
                    assert(out@ =~= pre + code_cols(chunk@, i as int) + Seq::new(
                        (s + 1) as nat,
                        |t: int| 32u8,
                    ));
                }
                s = s + 1;
            }
            proof {
                assert(Seq::new(6nat, |t: int| 32u8) =~= seq![32u8, 32u8, 32u8, 32u8, 32u8, 32u8]);
            }
        }
        proof {
            assert(out@ =~= pre + code_cols(chunk@, i + 1));
        }
        i = i + 1;
    }
    out.push(47);
    out.push(47);
    out.push(32);
    let ghost pre2 = out@;
    let mut k: usize = 0;
    while k < chunk.len()
        invariant
            k <= chunk@.len(),
            out@ == pre2 + ascii_render(chunk@).take(k as int),
        decreases chunk@.len() - k,
    {
        let b = chunk[k];
        if 33 <= b && b <= 126 {
            out.push(b);
        } else {
            out.push(46);
        }
        proof {
            assert(out@ =~= pre2 + ascii_render(chunk@).take(k + 1));
        }
        k = k + 1;
    }
    proof {
        assert(ascii_render(chunk@).take(chunk@.len() as int) =~= ascii_render(chunk@));
        assert(out@ =~= code_line(numbers, off as nat, chunk@, width as nat));
    }
    out
}

/// Renders one line in the given style.
pub fn encode_line(style: Style, numbers: bool, off: u64, chunk: &Vec<u8>, width: usize) -> (line:
    Vec<u8>)
    requires
        chunk@.len() <= width,
    ensures
        line@ == render_line(style, numbers, off as nat, chunk@, width as nat),
{
    match style {
        Style::Plain => encode_xxd_line(numbers, off, chunk, width),
        Style::Code => encode_code_line(numbers, off, chunk, width),
    }
}

/// Copies `data[a..b]` out as a chunk of its own.
fn subvec(data: &Vec<u8>, a: usize, b: usize) -> (r: Vec<u8>)
    requires
        a <= b <= data@.len(),
    ensures
        r@ == data@.subrange(a as int, b as int),
{
    let mut r: Vec<u8> = Vec::new();
    let mut i: usize = a;
    while i < b
        invariant
            a <= i <= b <= data@.len(),
            r@ == data@.subrange(a as int, i as int),
        decreases b - i,
    {
        r.push(data[i]);
        proof {
            assert(data@.subrange(a as int, i + 1) =~= data@.subrange(a as int, i as int).push(
                data@[i as int],
            ));
        }
        i = i + 1;
    }
    r
}

/// Encodes a whole byte string held in memory, one chunk per line.
pub fn encode(style: Style, numbers: bool, data: &Vec<u8>, width: usize) -> (lines: Vec<Vec<u8>>)
    requires
        width >= 1,
    ensures
        lines.deep_view() == encode_model(style, numbers, data@, width as nat, 0),
{
    let mut lines: Vec<Vec<u8>> = Vec::new();
    let mut pos: usize = 0;
    proof {
        assert(crate::decode::tail_from(data@, 0) =~= data@);
        assert(lines.deep_view() =~~= Seq::<Seq<u8>>::empty());
        assert(lines.deep_view() + encode_model(style, numbers, data@, width as nat, 0)
            =~~= encode_model(style, numbers, data@, width as nat, 0));
    }
    while pos < data.len()
        invariant
            width >= 1,
            pos <= data@.len(),
            encode_model(style, numbers, data@, width as nat, 0) == lines.deep_view()
                + encode_model(
                style,
                numbers,
                crate::decode::tail_from(data@, pos as int),
                width as nat,
                pos as nat,
            ),
        decreases data@.len() - pos,
    {
        let end: usize = if data.len() - pos < width {
            data.len()
        } else {
            pos + width
        };
        let chunk = subvec(data, pos, end);
        let line = encode_line(style, numbers, pos as u64, &chunk, width);
        proof {
            let t = crate::decode::tail_from(data@, pos as int);
            let t2 = crate::decode::tail_from(data@, end as int);
            if data@.len() - pos <= width {
                assert(t =~= chunk@);
                assert(t2 =~= Seq::<u8>::empty());
                assert(encode_model(style, numbers, t, width as nat, pos as nat) =~~= seq![line@]);
            } else {
                assert(t.take(width as int) =~= chunk@);
                assert(t.skip(width as int) =~= t2);
                assert(encode_model(style, numbers, t, width as nat, pos as nat) =~~= seq![line@]
                    + encode_model(style, numbers, t2, width as nat, end as nat));
            }
            assert(lines.deep_view().push(line@) =~~= lines.deep_view() + seq![line@]);
        }
        let ghost prev = lines.deep_view();
        lines.push(line);
        proof {
            assert(lines.deep_view() =~~= prev.push(line@));
        }
        pos = end;
    }
    proof {
        assert(crate::decode::tail_from(data@, pos as int) =~= Seq::<u8>::empty());
        assert(encode_model(
            style,
            numbers,
            crate::decode::tail_from(data@, pos as int),
            width as nat,
            pos as nat,
        ) =~~= Seq::<Seq<u8>>::empty());
        assert(lines.deep_view() =~~= lines.deep_view() + Seq::<Seq<u8>>::empty());
    }
    lines
}

/// Encodes a whole byte string as a plain dump.
pub fn encode_xxd(data: &Vec<u8>, numbers: bool, width: usize) -> (lines: Vec<Vec<u8>>)
    requires
        width >= 1,
    ensures
        lines.deep_view() == encode_model(Style::Plain, numbers, data@, width as nat, 0),
{
    encode(Style::Plain, numbers, data, width)
}

/// Encodes a whole byte string in the commented-code style.
pub fn encode_code(data: &Vec<u8>, numbers: bool, width: usize) -> (lines: Vec<Vec<u8>>)
    requires
        width >= 1,
    ensures
        lines.deep_view() == encode_model(Style::Code, numbers, data@, width as nat, 0),
{
    encode(Style::Code, numbers, data, width)
}

/// A streaming encoder: renders one chunk at a time and keeps the running
/// offset, which always advances by exactly the bytes just rendered.
pub struct Encoder {
    pub style: Style,
    pub numbers: bool,
    pub width: usize,
    pub offset: u64,
}

impl Encoder {
    /// The line width is at least one byte.
    pub open spec fn wf(self) -> bool {
        self.width >= 1
    }

    /// A fresh encoder with offset zero.
    pub fn new(style: Style, numbers: bool, width: usize) -> (e: Encoder)
        requires
            width >= 1,
        ensures
            e.wf(),
            e.style == style,
            e.numbers == numbers,
            e.width == width,
            e.offset == 0,
    {
        Encoder { style, numbers, width, offset: 0 }
    }

    /// Renders the next chunk as one line and advances the offset by the
    /// chunk's length.
    pub fn encode_chunk(&mut self, chunk: &Vec<u8>) -> (line: Vec<u8>)
        requires
            old(self).wf(),
            1 <= chunk@.len() <= old(self).width,
            old(self).offset + chunk@.len() <= u64::MAX,
        ensures
            final(self).wf(),
            line@ == render_line(
                old(self).style,
                old(self).numbers,
                old(self).offset as nat,
                chunk@,
                old(self).width as nat,
            ),
            final(self).offset == old(self).offset + chunk@.len(),
            final(self).style == old(self).style,
            final(self).numbers == old(self).numbers,
            final(self).width == old(self).width,
    {
        let line = encode_line(self.style, self.numbers, self.offset, chunk, self.width);
        self.offset = self.offset + chunk.len() as u64;
        line
    }
}

} // verus!
