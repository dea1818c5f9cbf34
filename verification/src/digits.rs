use vstd::prelude::*;

verus! {

/// An ASCII decimal digit.
pub open spec fn is_digit(b: u8) -> bool {
    0x30 <= b <= 0x39
}

pub open spec fn all_digits(ds: Seq<u8>) -> bool {
    forall|i: int| 0 <= i < ds.len() ==> is_digit(#[trigger] ds[i])
}

/// The integer value of a run of ASCII decimal digits.
pub open spec fn dec_val(ds: Seq<u8>) -> int
    decreases ds.len(),
{
    if ds.len() == 0 {
        0
    } else {
        dec_val(ds.drop_last()) * 10 + (ds.last() - 0x30)
    }
}

/// The ASCII decimal digits of `v`, most significant first, no leading zeros
/// (a single `0` for zero).
pub open spec fn dec_digits(v: nat) -> Seq<u8>
    decreases v,
{
    if v < 10 {
        seq![(0x30 + v) as u8]
    } else {
        dec_digits(v / 10).push((0x30 + v % 10) as u8)
    }
}

/// What `str::parse::<u16>` accepts when applied to these bytes read as text:
/// an optional leading plus sign, then at least one ASCII digit, with a value
/// that fits in 16 bits.
pub open spec fn spec_parse_u16(bs: Seq<u8>) -> Option<u16> {
    let ds = if bs.len() > 0 && bs[0] == 0x2b {
        bs.drop_first()
    } else {
        bs
    };
    if ds.len() == 0 {
        None
    } else if !all_digits(ds) {
        None
    } else if dec_val(ds) > 0xFFFF {
        None
    } else {
        Some(dec_val(ds) as u16)
    }
}

pub proof fn lemma_dec_val_nonneg(ds: Seq<u8>)
    requires
        all_digits(ds),
    ensures
        dec_val(ds) >= 0,
    decreases ds.len(),
{
    if ds.len() > 0 {
        lemma_dec_val_nonneg(ds.drop_last());
        assert(dec_val(ds.drop_last()) * 10 >= 0) by (nonlinear_arith)
            requires
                dec_val(ds.drop_last()) >= 0,
        ;
    }
}

/// Appending a digit can only grow the value of a digit run.
pub proof fn lemma_dec_val_monotone(ds: Seq<u8>, k: int)
    requires
        all_digits(ds),
        0 <= k <= ds.len(),
    ensures
        dec_val(ds) >= dec_val(ds.take(k)),
    decreases ds.len() - k,
{
    if k < ds.len() {
        lemma_dec_val_monotone(ds, k + 1);
        let t = ds.take(k + 1);
        assert(t.drop_last() =~= ds.take(k));
        lemma_dec_val_nonneg(ds.take(k));
        assert(dec_val(ds.take(k)) * 10 >= dec_val(ds.take(k))) by (nonlinear_arith)
            requires
                dec_val(ds.take(k)) >= 0,
        ;
        assert(dec_val(t) >= dec_val(ds.take(k)));
    } else {
        assert(ds.take(k) =~= ds);
    }
}

/// The decimal digits of `v` are digits, start with a digit, and read back to
/// `v` itself.
pub proof fn lemma_dec_digits_value(v: nat)
    ensures
        dec_digits(v).len() >= 1,
        all_digits(dec_digits(v)),
        dec_val(dec_digits(v)) == v,
    decreases v,
{
    if v < 10 {
        let ds = dec_digits(v);
        assert(ds =~= seq![(0x30 + v) as u8]);
        assert(ds.drop_last() =~= Seq::<u8>::empty());
        assert((0x30 + v) as u8 == 0x30 + v);
        assert(dec_val(ds) == dec_val(ds.drop_last()) * 10 + (ds.last() - 0x30));
        assert(dec_val(ds) == v);
    } else {
        lemma_dec_digits_value(v / 10);
        let ds = dec_digits(v);
        assert(ds.drop_last() =~= dec_digits(v / 10));
        assert(ds.last() == (0x30 + v % 10) as u8);
        assert(dec_val(ds) == dec_val(dec_digits(v / 10)) * 10 + (v % 10));
        assert(v / 10 * 10 + v % 10 == v) by (nonlinear_arith);
    }
}

/// Parsing the decimal rendering of a 16-bit value gives that value back.
pub proof fn lemma_parse_dec_roundtrip(v: u16)
    ensures
        spec_parse_u16(dec_digits(v as nat)) == Some(v),
{
    lemma_dec_digits_value(v as nat);
    let ds = dec_digits(v as nat);
    assert(is_digit(ds[0]));
    assert(ds[0] != 0x2b);
}

/// Renders `v` as ASCII decimal digits.
pub fn u16_to_dec(v: u16) -> (r: Vec<u8>)
    ensures
        r@ == dec_digits(v as nat),
    decreases v,
{
    if v < 10 {
        let mut r: Vec<u8> = Vec::new();
        r.push(0x30 + v as u8);
        proof {
            assert(r@ =~= dec_digits(v as nat));
        }
        r
    } else {
        let mut r = u16_to_dec(v / 10);
        r.push(0x30 + (v % 10) as u8);
        proof {
            assert(r@ =~= dec_digits(v as nat));
        }
        r
    }
}

/// Parses bytes as `str::parse::<u16>` would parse the corresponding text.
#[verifier::loop_isolation(false)]
pub fn parse_u16_dec(bs: &Vec<u8>) -> (r: Option<u16>)
    ensures
        r == spec_parse_u16(bs@),
{
    let ghost ds = if bs@.len() > 0 && bs@[0] == 0x2b {
        bs@.drop_first()
    } else {
        bs@
    };
    let start: usize = if bs.len() > 0 && bs[0] == 0x2b {
        1
    } else {
        0
    };
    proof {
        assert(ds =~= bs@.subrange(start as int, bs@.len() as int));
    }
    if bs.len() == start {
        return None;
    }
    let mut val: u32 = 0;
    let mut j: usize = start;
    while j < bs.len()
        invariant
            start <= j <= bs@.len(),
            start < bs@.len(),
            ds == bs@.subrange(start as int, bs@.len() as int),
            all_digits(ds.take(j - start)),
            val == dec_val(ds.take(j - start)),
            val <= 0xFFFF,
        decreases bs@.len() - j,
    {
        let b = bs[j];
        if b < 0x30 || b > 0x39 {
            proof {
                assert(ds[j - start] == bs@[j as int]);
                assert(!is_digit(ds[j - start]));
                assert(!all_digits(ds));
                assert(ds.len() > 0);
                assert(spec_parse_u16(bs@) is None);
            }
            return None;
        }
        let next: u32 = val * 10 + (b - 0x30) as u32;
        proof {
            assert(ds.take(j + 1 - start).drop_last() =~= ds.take(j - start));
            assert(ds.take(j + 1 - start).last() == b);
            assert(dec_val(ds.take(j + 1 - start)) == val * 10 + (b - 0x30));
        }
        if next > 0xFFFF {
            proof {
                if all_digits(ds) {
                    lemma_dec_val_monotone(ds, j + 1 - start);
                }
            }
            return None;
        }
        val = next;
        j = j + 1;
    }
    proof {
        assert(ds.take(j - start) =~= ds);
    }
    Some(val as u16)
}

} // verus!
