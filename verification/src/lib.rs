//! A verified codec for a binary game-data table format: "book" tables of
//! localized text with inline color, size and image directives, and flat
//! two-string item tables, both addressed through a self-terminating pointer
//! table of little-endian 16-bit offsets.
//!
//! The decoder turns a flat byte blob into a nested book, page and line
//! model; the encoder performs the exact inverse, re-deriving the pointer
//! table and re-emitting control bytes from inline text markers. The round
//! trip is proved: decoding what the encoder produced gives the model back.
//! Text itself passes through a fixed legacy double-byte charset, treated as
//! an opaque byte-level codec.

pub mod book;
pub mod digits;
pub mod emit;
pub mod errors;
pub mod item;
pub mod model;
pub mod ptable;
pub mod roundtrip;
pub mod text;
pub mod tokens;
pub mod util;

use vstd::prelude::*;

verus! {

/// Reads the little-endian 16-bit value stored at byte positions
/// `i` and `i + 1` of `blob`.
pub open spec fn le16_at(blob: Seq<u8>, i: int) -> u16 {
    (blob[i] as u16) | ((blob[i + 1] as u16) << 8)
}

/// Splits a 16-bit value into its two little-endian bytes.
pub open spec fn le16_bytes(v: u16) -> Seq<u8> {
    seq![(v & 0xff) as u8, ((v >> 8) & 0xff) as u8]
}

/// Reading back the two little-endian bytes of `v` gives `v` again.
pub proof fn lemma_le16_roundtrip(v: u16)
    ensures
        le16_at(le16_bytes(v), 0) == v,
{
    let b0 = (v & 0xff) as u8;
    let b1 = ((v >> 8) & 0xff) as u8;
    assert((((v & 0xff) as u8) as u16) | (((((v >> 8) & 0xff) as u8) as u16) << 8) == v)
        by (bit_vector);
    assert(le16_bytes(v)[0] == b0);
    assert(le16_bytes(v)[1] == b1);
}

} // verus!
