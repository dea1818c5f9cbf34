use vstd::prelude::*;

verus! {

/// The character sequence that the legacy double-byte charset decoder yields
/// for a byte sequence. The decoder is a fixed table lookup, so the result is
/// a function of the bytes alone; runs that the charset cannot represent come
/// back as replacement characters, never as a failure.
pub uninterp spec fn sjis_decode_of(bytes: Seq<u8>) -> Seq<char>;

/// The byte sequence that the legacy double-byte charset encoder yields for a
/// character sequence. Like the decoder it is a fixed table lookup, a function
/// of the characters alone.
pub uninterp spec fn sjis_encode_of(text: Seq<char>) -> Seq<u8>;

/// Relies on encoding_rs::SHIFT_JIS.decode: decodes a whole byte buffer to
/// text, replacing malformed sequences with the replacement character. The
/// result depends on the bytes alone.
#[verifier::external_body]
pub fn decode_string(bytes: &Vec<u8>) -> (r: String)
    ensures
        r@ == sjis_decode_of(bytes@),
{
    let (decoded, _, _) = encoding_rs::SHIFT_JIS.decode(bytes.as_slice());
    decoded.into_owned()
}

/// Relies on encoding_rs::SHIFT_JIS.encode: encodes text to the legacy
/// charset, substituting for unmappable characters. The result depends on the
/// characters alone.
#[verifier::external_body]
pub fn encode_string(s: &str) -> (r: Vec<u8>)
    ensures
        r@ == sjis_encode_of(s@),
{
    let (bytes, _, _) = encoding_rs::SHIFT_JIS.encode(s);
    bytes.into_owned()
}

/// Relies on encoding_rs::SHIFT_JIS.encode, applied to the one-character
/// string holding `c`; the contract speaks of the same encoder function as
/// `encode_string`, at a one-character argument.
#[verifier::external_body]
pub fn encode_char(c: char) -> (r: Vec<u8>)
    ensures
        r@ == sjis_encode_of(seq![c]),
{
    let mut buf = [0u8; 4];
    let s: &str = c.encode_utf8(&mut buf);
    let (bytes, _, _) = encoding_rs::SHIFT_JIS.encode(s);
    bytes.into_owned()
}

} // verus!
