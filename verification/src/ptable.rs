use vstd::prelude::*;
use crate::errors::DtError;
use crate::{le16_at, le16_bytes};

verus! {

/// The pointer table at the head of a blob: consecutive little-endian 16-bit
/// offsets, ending where the first offset points (the table's byte length
/// equals the first value read). `TruncatedInput` when the blob ends before
/// that condition can be met, which also covers a first offset that no
/// two-byte step ever reaches.
pub open spec fn spec_read_table(blob: Seq<u8>) -> Result<Seq<u16>, DtError> {
    if blob.len() < 2 {
        Err(DtError::TruncatedInput)
    } else {
        let first = le16_at(blob, 0);
        if first % 2 != 0 || first > blob.len() {
            Err(DtError::TruncatedInput)
        } else {
            Ok(Seq::new((first / 2) as nat, |i: int| le16_at(blob, 2 * i)))
        }
    }
}

/// The table's serialized form: each offset as two little-endian bytes, in
/// order.
pub open spec fn spec_write_table(offsets: Seq<u16>) -> Seq<u8>
    decreases offsets.len(),
{
    if offsets.len() == 0 {
        seq![]
    } else {
        le16_bytes(offsets[0]) + spec_write_table(offsets.drop_first())
    }
}

/// A valid table occupies exactly `first_offset` bytes: reading consumes
/// `first_offset / 2` offsets and control returns at the record region.
pub proof fn lemma_table_self_terminating(blob: Seq<u8>, offsets: Seq<u16>)
    requires
        spec_read_table(blob) == Ok::<Seq<u16>, DtError>(offsets),
    ensures
        2 * offsets.len() == le16_at(blob, 0),
{
}

/// Reads the little-endian 16-bit value at `i`.
pub fn read_le16(blob: &Vec<u8>, i: usize) -> (r: u16)
    requires
        i + 2 <= blob@.len(),
    ensures
        r == le16_at(blob@, i as int),
{
    let n = blob.len();
    assert(i + 2 <= n);
    (blob[i] as u16) | ((blob[i + 1] as u16) << 8)
}

/// Reads the pointer table at the head of `blob`, returning the offsets and
/// the first offset (the table's own length in bytes).
#[verifier::loop_isolation(false)]
pub fn read_table(blob: &Vec<u8>) -> (r: Result<(Vec<u16>, u16), DtError>)
    ensures
        match r {
            Ok(t) => spec_read_table(blob@) == Ok::<Seq<u16>, DtError>(t.0@) && t.1 == le16_at(
                blob@,
                0,
            ) && 2 * t.0@.len() == t.1,
            Err(e) => spec_read_table(blob@) == Err::<Seq<u16>, DtError>(e),
        },
{
    if blob.len() < 2 {
        return Err(DtError::TruncatedInput);
    }
    let first = read_le16(blob, 0);
    if first % 2 != 0 || (first as usize) > blob.len() {
        return Err(DtError::TruncatedInput);
    }
    let mut offsets: Vec<u16> = Vec::new();
    let mut pos: usize = 0;
    while pos < first as usize
        invariant
            pos <= first,
            pos % 2 == 0,
            offsets@.len() == pos / 2,
            forall|i: int| 0 <= i < offsets@.len() ==> offsets@[i] == le16_at(blob@, 2 * i),
        decreases first - pos,
    {
        offsets.push(read_le16(blob, pos));
        pos = pos + 2;
    }
    proof {
        let table = Seq::new((le16_at(blob@, 0) / 2) as nat, |i: int| le16_at(blob@, 2 * i));
        assert(offsets@ =~= table);
    }
    Ok((offsets, first))
}

/// Serializes the offsets as the head of a fresh buffer.
#[verifier::loop_isolation(false)]
pub fn write_table(offsets: &Vec<u16>) -> (r: Vec<u8>)
    ensures
        r@ == spec_write_table(offsets@),
        r@.len() == 2 * offsets@.len(),
{
    let mut out: Vec<u8> = Vec::new();
    let mut i: usize = 0;
    proof {
        assert(offsets@.skip(0) =~= offsets@);
        assert(Seq::<u8>::empty() + spec_write_table(offsets@) =~= spec_write_table(offsets@));
    }
    while i < offsets.len()
        invariant
            i <= offsets@.len(),
            out@.len() == 2 * i,
            spec_write_table(offsets@) == out@ + spec_write_table(offsets@.skip(i as int)),
        decreases offsets@.len() - i,
    {
        let v = offsets[i];
        out.push((v & 0xff) as u8);
        out.push(((v >> 8) & 0xff) as u8);
        proof {
            let rest = offsets@.skip(i as int);
            assert(rest[0] == offsets@[i as int]);
            assert(rest.drop_first() =~= offsets@.skip(i + 1));
            assert(spec_write_table(rest) == le16_bytes(offsets@[i as int]) + spec_write_table(
                offsets@.skip(i + 1),
            ));
            assert(out@ =~= (out@.subrange(0, out@.len() - 2) + le16_bytes(offsets@[i as int])));
            assert(out@ + spec_write_table(offsets@.skip(i + 1)) =~= out@.subrange(
                0,
                out@.len() - 2,
            ) + spec_write_table(offsets@.skip(i as int)));
        }
        i = i + 1;
    }
    proof {
        assert(spec_write_table(offsets@.skip(i as int)) =~= Seq::<u8>::empty());
        assert(out@ =~= spec_write_table(offsets@));
    }
    out
}

} // verus!
