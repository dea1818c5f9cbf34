use vstd::prelude::*;
use crate::text::{decode_string, sjis_decode_of};

verus! {

/// The bytes of the string stored at `pos`: everything up to, and not
/// including, the first `end_byte`, or up to the end of the blob if no
/// `end_byte` follows.
pub open spec fn string_at(blob: Seq<u8>, pos: int, end_byte: u8) -> Seq<u8>
    decreases blob.len() - pos,
{
    if pos < 0 || pos >= blob.len() || blob[pos] == end_byte {
        seq![]
    } else {
        seq![blob[pos]] + string_at(blob, pos + 1, end_byte)
    }
}

/// The read position after scanning the string at `pos`: one past its
/// terminator, or the end of the blob when the string ran to the end.
pub open spec fn string_skip(blob: Seq<u8>, pos: int, end_byte: u8) -> int {
    let e = pos + string_at(blob, pos, end_byte).len();
    if pos >= blob.len() {
        pos
    } else if e < blob.len() {
        e + 1
    } else {
        blob.len() as int
    }
}

/// Collects the raw bytes of the string at `pos` and returns them with the
/// position of the next unread byte.
#[verifier::loop_isolation(false)]
pub fn scan_bytes_until(blob: &Vec<u8>, pos: usize, end_byte: u8) -> (r: (Vec<u8>, usize))
    ensures
        r.0@ == string_at(blob@, pos as int, end_byte),
        r.1 as int == string_skip(blob@, pos as int, end_byte),
{
    let mut acc: Vec<u8> = Vec::new();
    let mut cur: usize = pos;
    loop
        invariant
            pos <= cur,
            pos < blob@.len() ==> cur <= blob@.len(),
            pos >= blob@.len() ==> cur == pos,
            string_at(blob@, pos as int, end_byte) == acc@ + string_at(
                blob@,
                cur as int,
                end_byte,
            ),
            acc@.len() == cur - pos,
        decreases blob@.len() - cur,
    {
        if cur >= blob.len() {
            proof {
                assert(string_at(blob@, cur as int, end_byte) =~= Seq::<u8>::empty());
                assert(acc@ =~= string_at(blob@, pos as int, end_byte));
            }
            return (acc, cur);
        }
        let b = blob[cur];
        cur = cur + 1;
        if b == end_byte {
            proof {
                assert(string_at(blob@, cur - 1, end_byte) =~= Seq::<u8>::empty());
                assert(acc@ =~= string_at(blob@, pos as int, end_byte));
            }
            return (acc, cur);
        }
        acc.push(b);
        proof {
            assert(string_at(blob@, cur - 1, end_byte) == seq![b] + string_at(
                blob@,
                cur as int,
                end_byte,
            ));
            assert(acc@ + string_at(blob@, cur as int, end_byte) =~= acc@.drop_last() + string_at(
                blob@,
                cur - 1,
                end_byte,
            ));
        }
    }
}

/// Reads the text stored at `pos`, delimited by `end_byte` or the end of the
/// blob, decoding it from the legacy charset; returns the text together with
/// the position of the next unread byte.
pub fn parse_string_until_byte(blob: &Vec<u8>, pos: usize, end_byte: u8) -> (r: (String, usize))
    ensures
        r.0@ == sjis_decode_of(string_at(blob@, pos as int, end_byte)),
        r.1 as int == string_skip(blob@, pos as int, end_byte),
{
    let (bytes, next) = scan_bytes_until(blob, pos, end_byte);
    let s = decode_string(&bytes);
    (s, next)
}

/// Reads the null-terminated text stored at `pos`.
pub fn parse_string(blob: &Vec<u8>, pos: usize) -> (r: (String, usize))
    ensures
        r.0@ == sjis_decode_of(string_at(blob@, pos as int, 0)),
        r.1 as int == string_skip(blob@, pos as int, 0),
{
    parse_string_until_byte(blob, pos, 0)
}

/// Truncates a buffer position to the 16 bits that a pointer table entry can
/// hold.
pub open spec fn to_u16(a: int) -> u16 {
    (a % 0x10000) as u16
}

/// Appends `bytes` and a null terminator to `buffer`, returning the address
/// of the first byte written.
#[verifier::loop_isolation(false)]
pub fn write_bytes_to_buffer(buffer: &mut Vec<u8>, bytes: Vec<u8>) -> (address: u16)
    ensures
        final(buffer)@ == old(buffer)@ + bytes@ + seq![0u8],
        address == to_u16(old(buffer)@.len() as int),
{
    let address = (buffer.len() % 0x10000) as u16;
    let ghost orig = buffer@;
    let mut i: usize = 0;
    while i < bytes.len()
        invariant
            i <= bytes@.len(),
            buffer@ == orig + bytes@.take(i as int),
        decreases bytes@.len() - i,
    {
        buffer.push(bytes[i]);
        proof {
            assert(orig + bytes@.take(i + 1) =~= (orig + bytes@.take(i as int)).push(
                bytes@[i as int],
            ));
        }
        i = i + 1;
    }
    buffer.push(0);
    proof {
        assert(bytes@.take(bytes@.len() as int) =~= bytes@);
        assert(buffer@ =~= old(buffer)@ + bytes@ + seq![0u8]);
    }
    address
}

} // verus!
