//! A line-oriented hex-dump codec.
//!
//! The encoder turns raw bytes into text lines of two-digit lowercase hex
//! columns, with an optional running-offset prefix and an ASCII annotation
//! column; the decoder parses such lines (or bare hex streams) back into the
//! exact original bytes, carrying a lone hex digit across line breaks and
//! checking declared offsets against the running byte count.

pub mod chunk;
pub mod decode;
pub mod encode;
pub mod hex;
pub mod roundtrip;

use vstd::prelude::*;

verus! {

/// A byte is rendered in the ASCII column as itself exactly when it is a
/// printable, non-space ASCII character.
pub open spec fn is_graphic(b: u8) -> bool {
    33 <= b <= 126
}

/// Classifies a byte as ASCII whitespace; these are skipped inside a hex
/// payload, so `"4142"`, `"41 42"` and `"41\t42"` decode alike.
pub open spec fn is_ascii_ws(b: u8) -> bool {
    b == 32 || b == 9 || b == 10 || b == 12 || b == 13
}

/// Executable counterpart of [`is_ascii_ws`].
pub fn byte_is_ascii_ws(b: u8) -> (r: bool)
    ensures
        r == is_ascii_ws(b),
{
    b == 32 || b == 9 || b == 10 || b == 12 || b == 13
}

} // verus!
