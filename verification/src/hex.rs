//! Hex digits: classification, digit values, and rendering of unsigned
//! values as lowercase hex text.

use vstd::prelude::*;

verus! {

/// The bytes `0-9`, `a-f` and `A-F` are hex digits.
pub open spec fn is_hex_digit(b: u8) -> bool {
    (48 <= b <= 57) || (97 <= b <= 102) || (65 <= b <= 70)
}

/// The value (0 to 15) of a hex digit.
pub open spec fn hex_digit_value(b: u8) -> u8
    recommends
        is_hex_digit(b),
{
    if 48 <= b <= 57 {
        (b - 48) as u8
    } else if 97 <= b <= 102 {
        (b - 87) as u8
    } else {
        (b - 55) as u8
    }
}

/// The lowercase hex digit for a value below 16.
pub open spec fn hex_digit_of(v: u8) -> u8
    recommends
        v < 16,
{
    if v < 10 {
        (48 + v) as u8
    } else {
        (87 + v) as u8
    }
}

/// Rendering a value below 16 gives a hex digit that reads back as that
/// value, and is neither whitespace nor a colon.
pub proof fn lemma_hex_digit_of(v: u8)
    requires
        v < 16,
    ensures
        is_hex_digit(hex_digit_of(v)),
        hex_digit_value(hex_digit_of(v)) == v,
        !crate::is_ascii_ws(hex_digit_of(v)),
        hex_digit_of(v) != 58,
        hex_digit_of(v) != 32,
{
}

/// Executable classification of a hex digit.
pub fn byte_is_hex_digit(b: u8) -> (r: bool)
    ensures
        r == is_hex_digit(b),
{
    (48 <= b && b <= 57) || (97 <= b && b <= 102) || (65 <= b && b <= 70)
}

/// Executable digit value.
pub fn byte_hex_value(b: u8) -> (v: u8)
    requires
        is_hex_digit(b),
    ensures
        v == hex_digit_value(b),
        v < 16,
{
    if 48 <= b && b <= 57 {
        b - 48
    } else if 97 <= b && b <= 102 {
        b - 87
    } else {
        b - 55
    }
}

/// Executable digit rendering.
pub fn byte_hex_digit(v: u8) -> (b: u8)
    requires
        v < 16,
    ensures
        b == hex_digit_of(v),
{
    if v < 10 {
        48 + v
    } else {
        87 + v
    }
}

/// The numeric value of a sequence of hex digits, most significant first;
/// an empty sequence reads as zero.
pub open spec fn hex_seq_value(s: Seq<u8>) -> nat
    decreases s.len(),
{
    if s.len() == 0 {
        0
    } else {
        (hex_seq_value(s.drop_last()) * 16 + hex_digit_value(s.last())) as nat
    }
}

/// Every byte of the sequence is a hex digit.
pub open spec fn all_hex(s: Seq<u8>) -> bool {
    forall|i: int| 0 <= i < s.len() ==> is_hex_digit(#[trigger] s[i])
}

/// The lowercase hex rendering of `v`, zero-padded on the left to at least
/// `min` digits (and never fewer than one digit).
pub open spec fn hex_render(v: nat, min: nat) -> Seq<u8>
    decreases v, min,
{
    if v < 16 && min <= 1 {
        seq![hex_digit_of(v as u8)]
    } else {
        hex_render(v / 16, if min == 0 { 0 } else { (min - 1) as nat }).push(
            hex_digit_of((v % 16) as u8),
        )
    }
}

/// A rendered value is made of hex digits only, is nonempty, and reads back
/// as the value it was rendered from.
pub proof fn lemma_hex_render(v: nat, min: nat)
    ensures
        all_hex(hex_render(v, min)),
        hex_render(v, min).len() >= 1,
        hex_render(v, min).len() >= min,
        hex_seq_value(hex_render(v, min)) == v,
    decreases v, min,
{
    let s = hex_render(v, min);
    if v < 16 && min <= 1 {
        lemma_hex_digit_of(v as u8);
        assert(s =~= seq![hex_digit_of(v as u8)]);
        assert(s.drop_last() =~= Seq::<u8>::empty());
        assert(hex_seq_value(Seq::<u8>::empty()) == 0);
        assert(s.last() == hex_digit_of(v as u8));
        assert(hex_seq_value(s) == 0 * 16 + hex_digit_value(hex_digit_of(v as u8)));
    } else {
        let m2: nat = if min == 0 { 0 } else { (min - 1) as nat };
        let p = hex_render(v / 16, m2);
        lemma_hex_render(v / 16, m2);
        lemma_hex_digit_of((v % 16) as u8);
        assert(s == p.push(hex_digit_of((v % 16) as u8)));
        assert(s.drop_last() =~= p);
        assert(s.last() == hex_digit_of((v % 16) as u8));
        assert(hex_seq_value(s) == hex_seq_value(p) * 16 + (v % 16));
        assert((v / 16) * 16 + v % 16 == v) by (nonlinear_arith);
    }
}

/// A rendered value contains no colon and no space, so a decoder that looks
/// for those separators never mistakes an offset field for payload.
pub proof fn lemma_hex_render_no_separator(v: nat, min: nat)
    ensures
        forall|i: int|
            0 <= i < hex_render(v, min).len() ==> #[trigger] hex_render(v, min)[i] != 58
                && hex_render(v, min)[i] != 32,
{
    lemma_hex_render(v, min);
    assert forall|i: int| 0 <= i < hex_render(v, min).len() implies #[trigger] hex_render(v, min)[i]
        != 58 && hex_render(v, min)[i] != 32 by {
        assert(is_hex_digit(hex_render(v, min)[i]));
    }
}

/// Appends the hex rendering of `v` (at least `min` digits) to `out`.
pub fn push_hex(out: &mut Vec<u8>, v: u64, min: usize) -> (r: ())
    ensures
        final(out)@ == old(out)@ + hex_render(v as nat, min as nat),
    decreases v, min,
{
    if v < 16 && min <= 1 {
        out.push(byte_hex_digit(v as u8));
    } else {
        let m2: usize = if min == 0 { 0 } else { min - 1 };
        push_hex(out, v / 16, m2);
        out.push(byte_hex_digit((v % 16) as u8));
        assert(out@ =~= old(out)@ + hex_render(v as nat, min as nat));
    }
}

} // verus!
