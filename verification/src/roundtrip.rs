use vstd::prelude::*;
use crate::book::{
    apply_upds, lemma_scan_line_bounds, lemma_scan_page_bounds, spec_scan_line, spec_scan_page,
    spec_scan_book, spec_books_from, spec_parse_books, BookV, ImgUpdV, LineEnd, PageV,
};
use crate::digits::{all_digits, dec_digits, is_digit, lemma_dec_digits_value,
    lemma_parse_dec_roundtrip};
use crate::emit::{
    spec_book_addrs, spec_book_record, spec_emit_books, spec_emit_img, spec_emit_lines,
    spec_emit_page, spec_emit_pages, spec_emit_recs, spec_emit_seg, spec_emit_segs,
};
use crate::errors::DtError;
use crate::tokens::{fmt_terminator, lemma_next_token_bounds, spec_fmt_value, spec_next_token,
    SegV, TokV};
use crate::ptable::spec_write_table;
use crate::util::{string_at, to_u16};

verus! {

/// A byte that may stand as literal text: not one of the control bytes that
/// the tokenizer claims.
pub open spec fn lit_ok(b: u8) -> bool {
    b != 0x00 && b != 0x01 && b != 0x02 && b != 0x03 && b != 0x07 && b != 0x23
}

/// A segment whose re-expansion scans back to itself: literal bytes are not
/// control bytes, and a size directive's value run is nonempty, does not
/// start with the bare-clear byte, and contains no terminator after its first
/// byte.
pub open spec fn seg_valid(s: SegV) -> bool {
    match s {
        SegV::Lit(b) => lit_ok(b),
        SegV::Color(n) => true,
        SegV::Size(bs) => bs.len() >= 1 && bs[0] != 0x46 && (forall|i: int|
            1 <= i < bs.len() ==> !fmt_terminator(#[trigger] bs[i])),
    }
}

pub open spec fn line_valid(segs: Seq<SegV>) -> bool {
    forall|i: int| 0 <= i < segs.len() ==> seg_valid(#[trigger] segs[i])
}

pub open spec fn page_valid(p: PageV) -> bool {
    p.lines.len() >= 1 && (forall|i: int| 0 <= i < p.lines.len() ==> line_valid(#[trigger] p.lines[i]))
}

pub open spec fn book_valid(b: BookV) -> bool {
    b.pages.len() >= 1 && (forall|i: int| 0 <= i < b.name.len() ==> #[trigger] b.name[i] != 0) && (
    forall|i: int| 0 <= i < b.pages.len() ==> page_valid(#[trigger] b.pages[i]))
}

/// Every pointer the encoder records fits in a sixteen-bit table entry.
pub open spec fn addrs_ok(books: Seq<BookV>, base: int) -> bool
    decreases books.len(),
{
    if books.len() == 0 {
        true
    } else {
        &&& 0 <= base
        &&& base + books[0].name.len() + 1 <= 0xFFFF
        &&& addrs_ok(books.drop_first(), base + spec_book_record(books[0]).len())
    }
}

/// A model that a well-formed blob decodes to: at least one book, every book
/// well formed, and every recorded pointer representable.
pub open spec fn books_valid(books: Seq<BookV>) -> bool {
    books.len() >= 1 && (forall|i: int| 0 <= i < books.len() ==> book_valid(#[trigger] books[i]))
        && addrs_ok(books, 4 * books.len() as int)
}

/// Splitting a placed concatenation gives each part at its own position.
pub proof fn lemma_split(blob: Seq<u8>, pos: int, a: Seq<u8>, b: Seq<u8>)
    requires
        0 <= pos,
        pos + a.len() + b.len() <= blob.len(),
        blob.subrange(pos, pos + a.len() + b.len()) == a + b,
    ensures
        blob.subrange(pos, pos + a.len()) == a,
        blob.subrange(pos + a.len(), pos + a.len() + b.len()) == b,
{
    let whole = blob.subrange(pos, pos + a.len() + b.len());
    assert(blob.subrange(pos, pos + a.len()) =~= a) by {
        assert forall|i: int| 0 <= i < a.len() implies blob.subrange(pos, pos + a.len())[i] == a[i]
        by {
            assert(whole[i] == (a + b)[i]);
        }
    }
    assert(blob.subrange(pos + a.len(), pos + a.len() + b.len()) =~= b) by {
        assert forall|i: int|
            0 <= i < b.len() implies blob.subrange(pos + a.len(), pos + a.len() + b.len())[i]
            == b[i] by {
            assert(whole[a.len() + i] == (a + b)[a.len() + i]);
        }
    }
}

/// A null-free byte run placed before a null byte reads back as itself.
pub proof fn lemma_string_at_of(blob: Seq<u8>, pos: int, bs: Seq<u8>)
    requires
        0 <= pos,
        pos + bs.len() + 1 <= blob.len(),
        blob.subrange(pos, pos + bs.len()) == bs,
        blob[pos + bs.len()] == 0,
        forall|i: int| 0 <= i < bs.len() ==> #[trigger] bs[i] != 0,
    ensures
        string_at(blob, pos, 0) == bs,
    decreases bs.len(),
{
    if bs.len() == 0 {
        assert(string_at(blob, pos, 0) =~= bs);
    } else {
        assert(blob.subrange(pos, pos + bs.len())[0] == bs[0]);
        assert(blob[pos] == bs[0]);
        assert(bs =~= seq![bs[0]] + bs.drop_first());
        lemma_split(blob, pos, seq![bs[0]], bs.drop_first());
        assert(blob.subrange(pos + 1, pos + bs.len()) == bs.drop_first());
        lemma_string_at_of(blob, pos + 1, bs.drop_first());
        assert(string_at(blob, pos, 0) =~= seq![bs[0]] + bs.drop_first());
        assert(seq![bs[0]] + bs.drop_first() =~= bs);
    }
}

/// A formatting sub-scan walks over placed non-terminator bytes, carrying
/// them into its accumulator.
pub proof fn lemma_fmt_scan(blob: Seq<u8>, j: int, acc: Seq<u8>, vs: int, rest: Seq<u8>)
    requires
        0 <= j,
        j + rest.len() < blob.len(),
        blob.subrange(j, j + rest.len()) == rest,
        forall|i: int| 0 <= i < rest.len() ==> !fmt_terminator(#[trigger] rest[i]),
    ensures
        spec_fmt_value(blob, j, acc, vs) == spec_fmt_value(blob, j + rest.len(), acc + rest, vs),
    decreases rest.len(),
{
    if rest.len() == 0 {
        assert(acc + rest =~= acc);
    } else {
        assert(blob.subrange(j, j + rest.len())[0] == rest[0]);
        assert(blob[j] == rest[0]);
        assert(!fmt_terminator(rest[0]));
        assert(rest =~= seq![rest[0]] + rest.drop_first());
        lemma_split(blob, j, seq![rest[0]], rest.drop_first());
        lemma_fmt_scan(blob, j + 1, acc.push(rest[0]), vs, rest.drop_first());
        assert(acc.push(rest[0]) + rest.drop_first() =~= acc + rest);
    }
}

/// Decimal digits are never sub-scan terminators.
pub proof fn lemma_digits_not_terminators(ds: Seq<u8>)
    requires
        all_digits(ds),
    ensures
        forall|i: int| 0 <= i < ds.len() ==> !fmt_terminator(#[trigger] ds[i]),
        ds.len() >= 1 ==> ds[0] != 0x46,
{
    assert forall|i: int| 0 <= i < ds.len() implies !fmt_terminator(#[trigger] ds[i]) by {
        assert(is_digit(ds[i]));
    }
    if ds.len() >= 1 {
        assert(is_digit(ds[0]));
    }
}

/// The token a valid segment's re-expansion scans back to.
pub open spec fn tok_of_seg(s: SegV) -> TokV {
    match s {
        SegV::Lit(b) => TokV::Lit(b),
        SegV::Color(n) => TokV::Color(n),
        SegV::Size(bs) => TokV::SizeTok(bs),
    }
}

/// Scanning a placed valid segment yields its own token and consumes exactly
/// its bytes.
pub proof fn lemma_token_of_seg(blob: Seq<u8>, pos: int, s: SegV)
    requires
        seg_valid(s),
        0 <= pos,
        pos + spec_emit_seg(s).len() < blob.len(),
        blob.subrange(pos, pos + spec_emit_seg(s).len()) == spec_emit_seg(s),
    ensures
        spec_next_token(blob, pos) == Ok::<(TokV, int), DtError>(
            (tok_of_seg(s), pos + spec_emit_seg(s).len()),
        ),
{
    let eb = spec_emit_seg(s);
    match s {
        SegV::Lit(b) => {
            assert(blob.subrange(pos, pos + 1)[0] == eb[0]);
            assert(blob[pos] == eb[0]);
        },
        SegV::Color(n) => {
            assert(blob.subrange(pos, pos + 2)[0] == eb[0]);
            assert(blob.subrange(pos, pos + 2)[1] == eb[1]);
            assert(blob[pos] == eb[0] && blob[pos + 1] == eb[1]);
        },
        SegV::Size(bs) => {
            assert(blob.subrange(pos, pos + eb.len())[0] == eb[0]);
            assert(eb[0] == 0x23);
            assert(blob[pos] == 0x23);
            assert(eb =~= seq![0x23u8] + (bs + seq![0x53u8]));
            lemma_split(blob, pos, seq![0x23u8], bs + seq![0x53u8]);
            lemma_split(blob, pos + 1, bs, seq![0x53u8]);
            assert(blob.subrange(pos + 1, pos + 1 + bs.len()) == bs);
            assert(blob.subrange(pos + 1, pos + 1 + bs.len())[0] == bs[0]);
            assert(blob[pos + 1] == bs[0]);
            assert(blob.subrange(pos + 1 + bs.len(), pos + 2 + bs.len())[0] == 0x53);
            assert(blob[pos + 1 + bs.len()] == 0x53);
            assert(bs =~= seq![bs[0]] + bs.drop_first());
            lemma_split(blob, pos + 1, seq![bs[0]], bs.drop_first());
            assert(blob.subrange(pos + 2, pos + 1 + bs.len()) == bs.drop_first());
            assert(forall|i: int|
                0 <= i < bs.drop_first().len() ==> !fmt_terminator(
                    #[trigger] bs.drop_first()[i],
                ));
            lemma_fmt_scan(blob, pos + 2, seq![bs[0]], pos + 1, bs.drop_first());
            assert(seq![bs[0]] + bs.drop_first() =~= bs);
            assert(spec_fmt_value(blob, pos + 1 + bs.len(), bs, pos + 1) == Ok::<
                (TokV, int),
                DtError,
            >((TokV::SizeTok(bs), pos + 2 + bs.len())));
        },
    }
}

} // verus!

verus! {

/// The bytes that one image-directive effect re-expands to.
pub open spec fn spec_emit_upd(u: ImgUpdV) -> Seq<u8> {
    match u {
        ImgUpdV::SetX(v) => seq![0x23u8] + dec_digits(v as nat) + seq![0x78u8],
        ImgUpdV::SetY(v) => seq![0x23u8] + dec_digits(v as nat) + seq![0x79u8],
        ImgUpdV::SetId(v) => if v == 0xFFF {
            seq![0x23u8, 0x46u8]
        } else {
            seq![0x23u8] + dec_digits(v as nat) + seq![0x46u8]
        },
    }
}

pub open spec fn spec_emit_upds(us: Seq<ImgUpdV>) -> Seq<u8>
    decreases us.len(),
{
    if us.len() == 0 {
        seq![]
    } else {
        spec_emit_upd(us[0]) + spec_emit_upds(us.drop_first())
    }
}

/// The image-directive effects that a page's fields stand for, in the fixed
/// emission order.
pub open spec fn upds_of(x: Option<u16>, y: Option<u16>, id: Option<u16>) -> Seq<ImgUpdV> {
    (match x {
        Some(v) => seq![ImgUpdV::SetX(v)],
        None => seq![],
    }) + (match y {
        Some(v) => seq![ImgUpdV::SetY(v)],
        None => seq![],
    }) + (match id {
        Some(v) => seq![ImgUpdV::SetId(v)],
        None => seq![],
    })
}

/// The page's emitted image directives are exactly the re-expansion of its
/// effects.
pub proof fn lemma_emit_img_as_upds(x: Option<u16>, y: Option<u16>, id: Option<u16>)
    ensures
        spec_emit_img(x, y, id) == spec_emit_upds(upds_of(x, y, id)),
{
    let xs = match x {
        Some(v) => seq![ImgUpdV::SetX(v)],
        None => seq![],
    };
    let ys = match y {
        Some(v) => seq![ImgUpdV::SetY(v)],
        None => seq![],
    };
    let ids = match id {
        Some(v) => seq![ImgUpdV::SetId(v)],
        None => seq![],
    };
    lemma_emit_upds_concat(xs, ys + ids);
    lemma_emit_upds_concat(ys, ids);
    assert(upds_of(x, y, id) =~= xs + (ys + ids));
    assert(spec_emit_upds(Seq::<ImgUpdV>::empty()) == Seq::<u8>::empty());
    if xs.len() > 0 {
        assert(xs.drop_first() =~= Seq::<ImgUpdV>::empty());
        assert(spec_emit_upds(xs) =~= spec_emit_upd(xs[0]));
    }
    if ys.len() > 0 {
        assert(ys.drop_first() =~= Seq::<ImgUpdV>::empty());
        assert(spec_emit_upds(ys) =~= spec_emit_upd(ys[0]));
    }
    if ids.len() > 0 {
        assert(ids.drop_first() =~= Seq::<ImgUpdV>::empty());
        assert(spec_emit_upds(ids) =~= spec_emit_upd(ids[0]));
    }
    assert(spec_emit_img(x, y, id) =~= spec_emit_upds(xs) + (spec_emit_upds(ys) + spec_emit_upds(
        ids,
    )));
}

pub proof fn lemma_emit_upds_concat(a: Seq<ImgUpdV>, b: Seq<ImgUpdV>)
    ensures
        spec_emit_upds(a + b) == spec_emit_upds(a) + spec_emit_upds(b),
    decreases a.len(),
{
    if a.len() == 0 {
        assert(a + b =~= b);
        assert(spec_emit_upds(a) + spec_emit_upds(b) =~= spec_emit_upds(b));
    } else {
        assert((a + b).drop_first() =~= a.drop_first() + b);
        lemma_emit_upds_concat(a.drop_first(), b);
        assert((a + b)[0] == a[0]);
        assert(spec_emit_upd(a[0]) + (spec_emit_upds(a.drop_first()) + spec_emit_upds(b))
            =~= (spec_emit_upd(a[0]) + spec_emit_upds(a.drop_first())) + spec_emit_upds(b));
    }
}

/// Replaying the page's own effects over empty fields restores the fields.
pub proof fn lemma_apply_upds_of(x: Option<u16>, y: Option<u16>, id: Option<u16>)
    ensures
        apply_upds(None, None, None, upds_of(x, y, id)) == (x, y, id),
    decreases (if x is Some { 1int } else { 0int }) + (if y is Some { 1int } else { 0int }) + (
    if id is Some {
        1int
    } else {
        0int
    }),
{
    let us = upds_of(x, y, id);
    if id is Some {
        assert(us.last() == ImgUpdV::SetId(id->0));
        assert(us.drop_last() =~= upds_of(x, y, None));
        lemma_apply_upds_of(x, y, None);
        let t = apply_upds(None, None, None, us.drop_last());
        assert(t == (x, y, None::<u16>));
        assert(us.len() > 0);
        assert(apply_upds(None, None, None, us) == (t.0, t.1, Some(id->0)));
    } else if y is Some {
        assert(us.last() == ImgUpdV::SetY(y->0));
        assert(us.drop_last() =~= upds_of(x, None, None));
        lemma_apply_upds_of(x, None, None);
        let t = apply_upds(None, None, None, us.drop_last());
        assert(t == (x, None::<u16>, None::<u16>));
        assert(us.len() > 0);
        assert(apply_upds(None, None, None, us) == (t.0, Some(y->0), t.2));
    } else if x is Some {
        assert(us.last() == ImgUpdV::SetX(x->0));
        assert(us.drop_last() =~= upds_of(None, None, None));
        assert(us.drop_last() =~= Seq::<ImgUpdV>::empty());
        let t = apply_upds(None, None, None, us.drop_last());
        assert(t == (None::<u16>, None::<u16>, None::<u16>));
        assert(us.len() > 0);
        assert(apply_upds(None, None, None, us) == (Some(x->0), t.1, t.2));
    } else {
        assert(us =~= Seq::<ImgUpdV>::empty());
    }
}

/// The token one image-directive effect scans back to.
pub open spec fn tok_of_upd(u: ImgUpdV) -> TokV {
    match u {
        ImgUpdV::SetX(v) => TokV::ImgX(v),
        ImgUpdV::SetY(v) => TokV::ImgY(v),
        ImgUpdV::SetId(v) => TokV::ImgId(v),
    }
}

/// Scanning a placed image directive yields its own effect token and consumes
/// exactly its bytes.
pub proof fn lemma_token_of_upd(blob: Seq<u8>, pos: int, u: ImgUpdV)
    requires
        0 <= pos,
        pos + spec_emit_upd(u).len() < blob.len(),
        blob.subrange(pos, pos + spec_emit_upd(u).len()) == spec_emit_upd(u),
    ensures
        spec_next_token(blob, pos) == Ok::<(TokV, int), DtError>(
            (tok_of_upd(u), pos + spec_emit_upd(u).len()),
        ),
{
    let eb = spec_emit_upd(u);
    assert(blob.subrange(pos, pos + eb.len())[0] == eb[0]);
    assert(blob[pos] == 0x23);
    if u matches ImgUpdV::SetId(v) && v == 0xFFF {
        assert(blob.subrange(pos, pos + eb.len())[1] == eb[1]);
        assert(blob[pos + 1] == 0x46);
    } else {
        let v: u16 = match u {
            ImgUpdV::SetX(w) => w,
            ImgUpdV::SetY(w) => w,
            ImgUpdV::SetId(w) => w,
        };
        let ds = dec_digits(v as nat);
        let close: u8 = match u {
            ImgUpdV::SetX(w) => 0x78,
            ImgUpdV::SetY(w) => 0x79,
            ImgUpdV::SetId(w) => 0x46,
        };
        lemma_dec_digits_value(v as nat);
        lemma_digits_not_terminators(ds);
        assert(eb =~= seq![0x23u8] + (ds + seq![close]));
        lemma_split(blob, pos, seq![0x23u8], ds + seq![close]);
        lemma_split(blob, pos + 1, ds, seq![close]);
        assert(blob.subrange(pos + 1, pos + 1 + ds.len()) == ds);
        assert(blob.subrange(pos + 1, pos + 1 + ds.len())[0] == ds[0]);
        assert(blob[pos + 1] == ds[0]);
        assert(ds[0] != 0x46);
        assert(blob.subrange(pos + 1 + ds.len(), pos + 2 + ds.len())[0] == close);
        assert(blob[pos + 1 + ds.len()] == close);
        assert(ds =~= seq![ds[0]] + ds.drop_first());
        lemma_split(blob, pos + 1, seq![ds[0]], ds.drop_first());
        assert(forall|i: int|
            0 <= i < ds.drop_first().len() ==> !fmt_terminator(#[trigger] ds.drop_first()[i]));
        lemma_fmt_scan(blob, pos + 2, seq![ds[0]], pos + 1, ds.drop_first());
        assert(seq![ds[0]] + ds.drop_first() =~= ds);
        lemma_parse_dec_roundtrip(v);
    }
}

} // verus!

verus! {

/// The byte that closes a line ending the given way.
pub open spec fn end_byte_of(e: LineEnd) -> u8 {
    match e {
        LineEnd::NextLine => 1,
        LineEnd::NextPage => 2,
        LineEnd::BookDone => 0,
    }
}

/// Scanning a placed line — its image directives, then its segments, then an
/// ending byte — yields exactly its segments and effects and stops one past
/// the ending byte.
pub proof fn lemma_scan_line_of(
    blob: Seq<u8>,
    pos: int,
    upds: Seq<ImgUpdV>,
    segs: Seq<SegV>,
    e: LineEnd,
)
    requires
        line_valid(segs),
        0 <= pos,
        pos + spec_emit_upds(upds).len() + spec_emit_segs(segs).len() + 1 <= blob.len(),
        blob.subrange(
            pos,
            pos + spec_emit_upds(upds).len() + spec_emit_segs(segs).len(),
        ) == spec_emit_upds(upds) + spec_emit_segs(segs),
        blob[pos + spec_emit_upds(upds).len() + spec_emit_segs(segs).len()] == end_byte_of(e),
    ensures
        spec_scan_line(blob, pos) == Ok::<(Seq<SegV>, Seq<ImgUpdV>, int, LineEnd), DtError>(
            (segs, upds, pos + spec_emit_upds(upds).len() + spec_emit_segs(segs).len() + 1, e),
        ),
    decreases upds.len(), segs.len(),
{
    let ub = spec_emit_upds(upds);
    let sb = spec_emit_segs(segs);
    if upds.len() > 0 {
        let u0 = upds[0];
        let eb0 = spec_emit_upd(u0);
        let tail = spec_emit_upds(upds.drop_first());
        assert(ub == eb0 + tail);
        assert(ub + sb =~= eb0 + (tail + sb));
        lemma_split(blob, pos, eb0, tail + sb);
        lemma_token_of_upd(blob, pos, u0);
        lemma_scan_line_of(blob, pos + eb0.len(), upds.drop_first(), segs, e);
        assert(seq![u0] + upds.drop_first() =~= upds);
    } else if segs.len() > 0 {
        let s0 = segs[0];
        let eb0 = spec_emit_seg(s0);
        let tail = spec_emit_segs(segs.drop_first());
        assert(ub =~= Seq::<u8>::empty());
        assert(sb == eb0 + tail);
        assert(ub + sb =~= eb0 + (Seq::<u8>::empty() + tail));
        assert(Seq::<u8>::empty() + tail =~= tail);
        assert(ub + sb =~= eb0 + tail);
        lemma_split(blob, pos, eb0, tail);
        assert(seg_valid(s0));
        lemma_token_of_seg(blob, pos, s0);
        assert(blob.subrange(pos + eb0.len(), pos + eb0.len() + tail.len()) =~= Seq::<
            u8,
        >::empty() + tail);
        lemma_scan_line_of(blob, pos + eb0.len(), upds, segs.drop_first(), e);
        assert(seq![s0] + segs.drop_first() =~= segs);
    } else {
        assert(ub + sb =~= Seq::<u8>::empty());
        assert(blob[pos] == end_byte_of(e));
        assert(pos < blob.len());
        assert(spec_scan_line(blob, pos) == Ok::<(Seq<SegV>, Seq<ImgUpdV>, int, LineEnd), DtError>(
            (Seq::empty(), Seq::empty(), pos + 1, e),
        ));
        assert(Seq::<SegV>::empty() =~= segs);
        assert(Seq::<ImgUpdV>::empty() =~= upds);
    }
}

} // verus!

verus! {

/// The optional page-break marker byte that may precede a page's content.
pub open spec fn lead_bytes(lead3: bool) -> Seq<u8> {
    if lead3 {
        seq![3u8]
    } else {
        seq![]
    }
}

/// Scanning a placed page — an optional page-break marker, the image
/// directives, and the lines joined by end-of-line bytes, closed by an
/// end-of-page or end-of-book byte — yields exactly its lines and effects.
pub proof fn lemma_scan_lines(
    blob: Seq<u8>,
    pos: int,
    lead3: bool,
    upds: Seq<ImgUpdV>,
    lines: Seq<Seq<SegV>>,
    last: bool,
)
    requires
        lines.len() >= 1,
        forall|i: int| 0 <= i < lines.len() ==> line_valid(#[trigger] lines[i]),
        0 <= pos,
        pos + lead_bytes(lead3).len() + spec_emit_upds(upds).len() + spec_emit_lines(lines).len()
            + 1 <= blob.len(),
        blob.subrange(
            pos,
            pos + lead_bytes(lead3).len() + spec_emit_upds(upds).len() + spec_emit_lines(
                lines,
            ).len(),
        ) == lead_bytes(lead3) + spec_emit_upds(upds) + spec_emit_lines(lines),
        blob[pos + lead_bytes(lead3).len() + spec_emit_upds(upds).len() + spec_emit_lines(
            lines,
        ).len()] == (if last {
            0u8
        } else {
            2u8
        }),
    ensures
        spec_scan_page(blob, pos) == Ok::<(Seq<Seq<SegV>>, Seq<ImgUpdV>, int, bool), DtError>(
            (
                lines,
                upds,
                pos + lead_bytes(lead3).len() + spec_emit_upds(upds).len() + spec_emit_lines(
                    lines,
                ).len() + 1,
                last,
            ),
        ),
    decreases lines.len(), (if lead3 { 1int } else { 0int }),
{
    let lb = lead_bytes(lead3);
    let ub = spec_emit_upds(upds);
    let jb = spec_emit_lines(lines);
    if lead3 {
        assert(lb + ub + jb =~= seq![3u8] + (ub + jb));
        lemma_split(blob, pos, seq![3u8], ub + jb);
        assert(blob.subrange(pos, pos + 1)[0] == 3);
        assert(blob[pos] == 3);
        assert(lead_bytes(false) + ub + jb =~= ub + jb);
        lemma_scan_lines(blob, pos + 1, false, upds, lines, last);
        assert(spec_scan_line(blob, pos) == spec_scan_line(blob, pos + 1));
    } else if lines.len() == 1 {
        let e = if last {
            LineEnd::BookDone
        } else {
            LineEnd::NextPage
        };
        assert(jb == spec_emit_segs(lines[0]));
        assert(lb + ub + jb =~= ub + spec_emit_segs(lines[0]));
        assert(line_valid(lines[0]));
        lemma_scan_line_of(blob, pos, upds, lines[0], e);
        assert(seq![lines[0]] =~= lines);
    } else {
        let l0 = lines[0];
        let s0 = spec_emit_segs(l0);
        let rest = spec_emit_lines(lines.drop_first());
        assert(jb == s0 + seq![0x01u8] + rest);
        assert(lb + ub + jb =~= (ub + s0) + (seq![0x01u8] + rest));
        lemma_split(blob, pos, ub + s0, seq![0x01u8] + rest);
        lemma_split(blob, pos + ub.len() + s0.len(), seq![0x01u8], rest);
        assert(blob.subrange(pos + ub.len() + s0.len(), pos + ub.len() + s0.len() + 1)[0] == 1);
        assert(blob[pos + ub.len() + s0.len()] == 1);
        assert(line_valid(l0));
        lemma_scan_line_of(blob, pos, upds, l0, LineEnd::NextLine);
        let p2 = pos + ub.len() + s0.len() + 1;
        assert(blob.subrange(p2, p2 + rest.len()) == rest);
        assert(lead_bytes(false) + spec_emit_upds(Seq::<ImgUpdV>::empty()) + rest =~= rest);
        lemma_scan_lines(blob, p2, false, Seq::empty(), lines.drop_first(), last);
        assert(seq![l0] + lines.drop_first() =~= lines);
        assert(upds + Seq::<ImgUpdV>::empty() =~= upds);
    }
}

} // verus!

verus! {

/// Scanning a placed book content region — its pages joined by the
/// end-of-page pair, closed by the end-of-book byte — yields exactly its
/// pages.
#[verifier::rlimit(100)]
pub proof fn lemma_scan_book_of(blob: Seq<u8>, pos: int, lead3: bool, pages: Seq<PageV>)
    requires
        pages.len() >= 1,
        forall|i: int| 0 <= i < pages.len() ==> page_valid(#[trigger] pages[i]),
        0 <= pos,
        pos + lead_bytes(lead3).len() + spec_emit_pages(pages).len() + 1 <= blob.len(),
        blob.subrange(
            pos,
            pos + lead_bytes(lead3).len() + spec_emit_pages(pages).len(),
        ) == lead_bytes(lead3) + spec_emit_pages(pages),
        blob[pos + lead_bytes(lead3).len() + spec_emit_pages(pages).len()] == 0u8,
    ensures
        spec_scan_book(blob, pos) == Ok::<(Seq<PageV>, int), DtError>(
            (pages, pos + lead_bytes(lead3).len() + spec_emit_pages(pages).len() + 1),
        ),
    decreases pages.len(),
{
    let lb = lead_bytes(lead3);
    let pb = spec_emit_pages(pages);
    let p0 = pages[0];
    let ub = spec_emit_upds(upds_of(p0.image_x, p0.image_y, p0.image_id));
    let jb = spec_emit_lines(p0.lines);
    assert(page_valid(p0));
    lemma_emit_img_as_upds(p0.image_x, p0.image_y, p0.image_id);
    lemma_apply_upds_of(p0.image_x, p0.image_y, p0.image_id);
    if pages.len() == 1 {
        assert(pb == spec_emit_page(p0));
        assert(spec_emit_page(p0) == ub + jb);
        assert(lb + pb =~= lb + ub + jb);
        lemma_scan_lines(
            blob,
            pos,
            lead3,
            upds_of(p0.image_x, p0.image_y, p0.image_id),
            p0.lines,
            true,
        );
        let img = apply_upds(None, None, None, upds_of(p0.image_x, p0.image_y, p0.image_id));
        let built = PageV {
            image_x: img.0,
            image_y: img.1,
            image_id: img.2,
            lines: p0.lines,
        };
        assert(built == p0);
        assert(seq![p0] =~= pages);
    } else {
        let rest = spec_emit_pages(pages.drop_first());
        assert(pb == spec_emit_page(p0) + seq![0x02u8, 0x03u8] + rest);
        assert(lb + pb =~= (lb + ub + jb) + (seq![0x02u8, 0x03u8] + rest));
        lemma_split(blob, pos, lb + ub + jb, seq![0x02u8, 0x03u8] + rest);
        let mid = pos + lb.len() + ub.len() + jb.len();
        assert(blob.subrange(mid, mid + 2 + rest.len()) == seq![0x02u8, 0x03u8] + rest);
        assert((seq![0x02u8, 0x03u8] + rest) =~= seq![0x02u8] + (seq![0x03u8] + rest));
        lemma_split(blob, mid, seq![0x02u8], seq![0x03u8] + rest);
        assert(blob.subrange(mid, mid + 1)[0] == 2);
        assert(blob[mid] == 2);
        lemma_scan_lines(
            blob,
            pos,
            lead3,
            upds_of(p0.image_x, p0.image_y, p0.image_id),
            p0.lines,
            false,
        );
        let img = apply_upds(None, None, None, upds_of(p0.image_x, p0.image_y, p0.image_id));
        let built = PageV {
            image_x: img.0,
            image_y: img.1,
            image_id: img.2,
            lines: p0.lines,
        };
        assert(built == p0);
        let p2 = mid + 1;
        assert(blob.subrange(p2, p2 + 1 + rest.len()) == seq![0x03u8] + rest);
        assert(lead_bytes(true) + rest =~= seq![0x03u8] + rest);
        lemma_scan_book_of(blob, p2, true, pages.drop_first());
        assert(seq![p0] + pages.drop_first() =~= pages);
    }
}

} // verus!

verus! {

pub proof fn lemma_write_table_len(addrs: Seq<u16>)
    ensures
        spec_write_table(addrs).len() == 2 * addrs.len(),
    decreases addrs.len(),
{
    if addrs.len() > 0 {
        lemma_write_table_len(addrs.drop_first());
    }
}

/// Reading entry `i` of a serialized pointer table gives the offset back.
pub proof fn lemma_write_table_le16(addrs: Seq<u16>, i: int)
    requires
        0 <= i < addrs.len(),
    ensures
        spec_write_table(addrs).len() == 2 * addrs.len(),
        crate::le16_at(spec_write_table(addrs), 2 * i) == addrs[i],
    decreases i,
{
    lemma_write_table_len(addrs);
    let tb = spec_write_table(addrs);
    let first = crate::le16_bytes(addrs[0]);
    if i == 0 {
        crate::lemma_le16_roundtrip(addrs[0]);
        assert(tb[0] == first[0]);
        assert(tb[1] == first[1]);
    } else {
        lemma_write_table_le16(addrs.drop_first(), i - 1);
        let rest = spec_write_table(addrs.drop_first());
        assert(tb[2 * i] == rest[2 * (i - 1)]);
        assert(tb[2 * i + 1] == rest[2 * (i - 1) + 1]);
        assert(addrs.drop_first()[i - 1] == addrs[i]);
    }
}

pub proof fn lemma_book_addrs_len(books: Seq<BookV>, base: int)
    ensures
        spec_book_addrs(books, base).len() == 2 * books.len(),
    decreases books.len(),
{
    if books.len() > 0 {
        lemma_book_addrs_len(books.drop_first(), base + spec_book_record(books[0]).len());
    }
}

/// Decoding the records placed after the table yields the very books whose
/// offsets the table holds.
#[verifier::rlimit(100)]
pub proof fn lemma_books_from_emit(blob: Seq<u8>, offs: Seq<u16>, s: Seq<BookV>, k: int, base: int)
    requires
        0 <= k,
        0 <= base,
        forall|i: int| 0 <= i < s.len() ==> book_valid(#[trigger] s[i]),
        addrs_ok(s, base),
        spec_book_addrs(s, base) == offs.skip(2 * k),
        2 * k + 2 * s.len() == offs.len(),
        base + spec_emit_recs(s).len() <= blob.len(),
        blob.subrange(base, base + spec_emit_recs(s).len()) == spec_emit_recs(s),
    ensures
        spec_books_from(blob, offs, k) == Ok::<Seq<BookV>, DtError>(s),
    decreases s.len(),
{
    if s.len() == 0 {
        assert(spec_books_from(blob, offs, k) == Ok::<Seq<BookV>, DtError>(Seq::empty()));
        assert(Seq::<BookV>::empty() =~= s);
    } else {
        let b0 = s[0];
        let name = b0.name;
        let pagesb = spec_emit_pages(b0.pages);
        let record = spec_book_record(b0);
        let rest = spec_emit_recs(s.drop_first());
        assert(book_valid(b0));
        lemma_book_addrs_len(s, base);
        assert(spec_book_addrs(s, base)[0] == to_u16(base));
        assert(spec_book_addrs(s, base)[1] == to_u16(base + name.len() + 1));
        assert(offs.skip(2 * k)[0] == offs[2 * k]);
        assert(offs.skip(2 * k)[1] == offs[2 * k + 1]);
        assert(base + name.len() + 1 <= 0xFFFF);
        assert(to_u16(base) == base as u16);
        assert(to_u16(base + name.len() + 1) == (base + name.len() + 1) as u16);
        assert(offs[2 * k] as int == base);
        assert(offs[2 * k + 1] as int == base + name.len() + 1);
        // carve the record out of the placed records
        assert(spec_emit_recs(s) == record + rest);
        lemma_split(blob, base, record, rest);
        // carve the name, its terminator, the pages and the final terminator
        assert(record =~= name + (seq![0u8] + (pagesb + seq![0u8])));
        lemma_split(blob, base, name, seq![0u8] + (pagesb + seq![0u8]));
        assert(blob.subrange(base, base + record.len()) == record) by {
            lemma_split(blob, base, record, rest);
        }
        lemma_split(blob, base + name.len(), seq![0u8], pagesb + seq![0u8]);
        lemma_split(blob, base + name.len() + 1, pagesb, seq![0u8]);
        let cpos = base + name.len() + 1;
        assert(blob.subrange(base + name.len(), base + name.len() + 1)[0] == 0);
        assert(blob[base + name.len()] == 0);
        assert(blob.subrange(cpos + pagesb.len(), cpos + pagesb.len() + 1)[0] == 0);
        assert(blob[cpos + pagesb.len()] == 0);
        lemma_string_at_of(blob, base, name);
        assert(lead_bytes(false) + pagesb =~= pagesb);
        lemma_scan_book_of(blob, cpos, false, b0.pages);
        let built = BookV { name: string_at(blob, offs[2 * k] as int, 0), pages: b0.pages };
        assert(built == b0);
        // the remaining books follow at the next record position
        let base2 = base + record.len();
        assert(spec_book_addrs(s.drop_first(), base2) =~= offs.skip(2 * (k + 1))) by {
            let two = seq![to_u16(base), to_u16(base + name.len() + 1)];
            assert(spec_book_addrs(s, base) == two + spec_book_addrs(s.drop_first(), base2));
            assert((two + spec_book_addrs(s.drop_first(), base2)).skip(2) =~= spec_book_addrs(
                s.drop_first(),
                base2,
            ));
            assert(offs.skip(2 * k).skip(2) =~= offs.skip(2 * (k + 1)));
        }
        lemma_books_from_emit(blob, offs, s.drop_first(), k + 1, base2);
        assert(seq![b0] + s.drop_first() =~= s);
    }
}

/// Round trip: decoding what the encoder produced for a well-formed book
/// model gives the model back, byte positions, pointer table and all.
pub proof fn theorem_books_round_trip(books: Seq<BookV>)
    requires
        books_valid(books),
    ensures
        spec_parse_books(spec_emit_books(books)) == Ok::<Seq<BookV>, DtError>(books),
{
    let n = books.len() as int;
    let addrs = spec_book_addrs(books, 4 * n);
    let table = spec_write_table(addrs);
    let recs = spec_emit_recs(books);
    let blob = spec_emit_books(books);
    lemma_book_addrs_len(books, 4 * n);
    lemma_write_table_len(addrs);
    assert(blob == table + recs);
    assert(blob.len() == 4 * n + recs.len());
    assert(addrs[0] == to_u16(4 * n));
    assert(4 * n + books[0].name.len() + 1 <= 0xFFFF);
    assert(to_u16(4 * n) == (4 * n) as u16);
    lemma_write_table_le16(addrs, 0);
    assert(crate::le16_at(blob, 0) == crate::le16_at(table, 0)) by {
        assert(blob[0] == table[0]);
        assert(blob[1] == table[1]);
    }
    assert(crate::le16_at(blob, 0) as int == 4 * n);
    let offs = Seq::new((crate::le16_at(blob, 0) / 2) as nat, |i: int| crate::le16_at(blob, 2 * i));
    assert(offs =~= addrs) by {
        assert forall|i: int| 0 <= i < addrs.len() implies offs[i] == addrs[i] by {
            lemma_write_table_le16(addrs, i);
            assert(blob[2 * i] == table[2 * i]);
            assert(blob[2 * i + 1] == table[2 * i + 1]);
        }
    }
    assert(crate::ptable::spec_read_table(blob) == Ok::<Seq<u16>, DtError>(addrs));
    assert(blob.subrange(4 * n, 4 * n + recs.len()) =~= recs) by {
        assert forall|i: int| 0 <= i < recs.len() implies blob.subrange(
            4 * n,
            4 * n + recs.len(),
        )[i] == recs[i] by {
            assert(blob[4 * n + i] == recs[i]);
        }
    }
    assert(addrs.skip(0) =~= addrs);
    lemma_books_from_emit(blob, addrs, books, 0, 4 * n);
}

} // verus!

verus! {

/// A scanned string never contains its own terminator.
pub proof fn lemma_string_at_no_zero(blob: Seq<u8>, pos: int)
    ensures
        forall|i: int|
            0 <= i < string_at(blob, pos, 0).len() ==> #[trigger] string_at(blob, pos, 0)[i] != 0,
    decreases blob.len() - pos,
{
    if !(pos < 0 || pos >= blob.len() || blob[pos] == 0) {
        lemma_string_at_no_zero(blob, pos + 1);
        let s = string_at(blob, pos, 0);
        assert forall|i: int| 0 <= i < s.len() implies #[trigger] s[i] != 0 by {
            if i > 0 {
                assert(s[i] == string_at(blob, pos + 1, 0)[i - 1]);
            }
        }
    }
}

/// A size token carries the accumulator it was scanned into: nonempty, not
/// starting with the bare-clear byte, no terminator after the first byte.
pub proof fn lemma_fmt_value_size_valid(blob: Seq<u8>, i: int, acc: Seq<u8>, vs: int)
    requires
        acc.len() >= 1,
        acc[0] != 0x46,
        forall|k: int| 1 <= k < acc.len() ==> !fmt_terminator(#[trigger] acc[k]),
    ensures
        match spec_fmt_value(blob, i, acc, vs) {
            Ok(t) => (t.0 matches TokV::SizeTok(bs) ==> seg_valid(SegV::Size(bs))) && !(t.0
                is Lit),
            Err(e) => true,
        },
    decreases blob.len() - i,
{
    if 0 <= i < blob.len() {
        let b = blob[i];
        if b != 0x46 && b != 0x78 && b != 0x79 && b != 0x53 {
            assert forall|k: int|
                1 <= k < acc.push(b).len() implies !fmt_terminator(#[trigger] acc.push(b)[k]) by {
                if k < acc.len() {
                    assert(acc.push(b)[k] == acc[k]);
                }
            }
            lemma_fmt_value_size_valid(blob, i + 1, acc.push(b), vs);
        }
    }
}

/// Every literal or size token the tokenizer yields is itself a valid
/// segment.
pub proof fn lemma_next_token_seg_valid(blob: Seq<u8>, pos: int)
    ensures
        match spec_next_token(blob, pos) {
            Ok(t) => (t.0 matches TokV::Lit(b) ==> lit_ok(b)) && (t.0 matches TokV::SizeTok(bs)
                ==> seg_valid(SegV::Size(bs))),
            Err(e) => true,
        },
{
    if 0 <= pos < blob.len() {
        let b = blob[pos];
        if b == 0x23 && pos + 2 <= blob.len() && blob[pos + 1] != 0x46 {
            let acc = seq![blob[pos + 1]];
            assert(acc.len() == 1);
            assert(acc[0] == blob[pos + 1]);
            lemma_fmt_value_size_valid(blob, pos + 2, acc, pos + 1);
            assert(spec_next_token(blob, pos) == spec_fmt_value(blob, pos + 2, acc, pos + 1));
        }
    }
}

/// Every line the scanner yields is made of valid segments.
pub proof fn lemma_scan_line_valid(blob: Seq<u8>, pos: int)
    ensures
        match spec_scan_line(blob, pos) {
            Ok(t) => line_valid(t.0),
            Err(e) => true,
        },
    decreases blob.len() - pos,
{
    if pos >= 0 {
        lemma_next_token_bounds(blob, pos);
    }
    lemma_next_token_seg_valid(blob, pos);
    match spec_next_token(blob, pos) {
        Err(e) => {},
        Ok(t) => match t.0 {
            TokV::EndBook | TokV::EndLine | TokV::EndPage => {},
            _ => {
                lemma_scan_line_valid(blob, t.1);
                if let Ok(u) = spec_scan_line(blob, t.1) {
                    let s0 = match t.0 {
                        TokV::Lit(b) => seq![SegV::Lit(b)],
                        TokV::Color(n) => seq![SegV::Color(n)],
                        TokV::SizeTok(bs) => seq![SegV::Size(bs)],
                        _ => seq![],
                    };
                    assert forall|i: int|
                        0 <= i < (s0 + u.0).len() implies seg_valid(#[trigger] (s0 + u.0)[i]) by {
                        if i >= s0.len() {
                            assert((s0 + u.0)[i] == u.0[i - s0.len()]);
                        }
                    }
                }
            },
        },
    }
}

/// Every page the scanner yields holds at least one line, all of them valid.
pub proof fn lemma_scan_page_valid(blob: Seq<u8>, pos: int)
    ensures
        match spec_scan_page(blob, pos) {
            Ok(t) => t.0.len() >= 1 && (forall|i: int|
                0 <= i < t.0.len() ==> line_valid(#[trigger] t.0[i])),
            Err(e) => true,
        },
    decreases blob.len() - pos,
{
    if pos >= 0 {
        lemma_scan_line_bounds(blob, pos);
    }
    lemma_scan_line_valid(blob, pos);
    match spec_scan_line(blob, pos) {
        Err(e) => {},
        Ok(t) => {
            if t.3 == LineEnd::NextLine {
                lemma_scan_page_valid(blob, t.2);
                if let Ok(u) = spec_scan_page(blob, t.2) {
                    assert forall|i: int|
                        0 <= i < (seq![t.0] + u.0).len() implies line_valid(
                        #[trigger] (seq![t.0] + u.0)[i],
                    ) by {
                        if i >= 1 {
                            assert((seq![t.0] + u.0)[i] == u.0[i - 1]);
                        }
                    }
                }
            }
        },
    }
}

/// Every book content region the scanner yields holds at least one page, all
/// of them well formed.
pub proof fn lemma_scan_book_valid(blob: Seq<u8>, pos: int)
    ensures
        match spec_scan_book(blob, pos) {
            Ok(t) => t.0.len() >= 1 && (forall|i: int|
                0 <= i < t.0.len() ==> page_valid(#[trigger] t.0[i])),
            Err(e) => true,
        },
    decreases blob.len() - pos,
{
    if pos >= 0 {
        lemma_scan_page_bounds(blob, pos);
    }
    lemma_scan_page_valid(blob, pos);
    match spec_scan_page(blob, pos) {
        Err(e) => {},
        Ok(t) => {
            let img = apply_upds(None, None, None, t.1);
            let page = PageV { image_x: img.0, image_y: img.1, image_id: img.2, lines: t.0 };
            assert(page_valid(page));
            if !t.3 {
                lemma_scan_book_valid(blob, t.2);
                if let Ok(u) = spec_scan_book(blob, t.2) {
                    assert forall|i: int|
                        0 <= i < (seq![page] + u.0).len() implies page_valid(
                        #[trigger] (seq![page] + u.0)[i],
                    ) by {
                        if i >= 1 {
                            assert((seq![page] + u.0)[i] == u.0[i - 1]);
                        }
                    }
                }
            }
        },
    }
}

pub proof fn lemma_books_from_valid(blob: Seq<u8>, offs: Seq<u16>, k: int)
    ensures
        match spec_books_from(blob, offs, k) {
            Ok(bs) => forall|i: int| 0 <= i < bs.len() ==> book_valid(#[trigger] bs[i]),
            Err(e) => true,
        },
    decreases offs.len() - 2 * k,
{
    if !(k < 0 || 2 * k + 2 > offs.len()) {
        lemma_string_at_no_zero(blob, offs[2 * k] as int);
        lemma_scan_book_valid(blob, offs[2 * k + 1] as int);
        lemma_books_from_valid(blob, offs, k + 1);
        if let Ok(t) = spec_scan_book(blob, offs[2 * k + 1] as int) {
            let b0 = BookV { name: string_at(blob, offs[2 * k] as int, 0), pages: t.0 };
            assert(book_valid(b0));
            if let Ok(rest) = spec_books_from(blob, offs, k + 1) {
                assert forall|i: int|
                    0 <= i < (seq![b0] + rest).len() implies book_valid(
                    #[trigger] (seq![b0] + rest)[i],
                ) by {
                    if i >= 1 {
                        assert((seq![b0] + rest)[i] == rest[i - 1]);
                    }
                }
            }
        }
    }
}

/// Every book a well-formed blob decodes to is itself well formed. Together
/// with the round-trip theorem: re-encoding a decoded model and decoding the
/// result reproduces it, whenever at least one book was decoded and the
/// re-encoded layout keeps every pointer within sixteen bits.
pub proof fn theorem_decoded_books_wellformed(blob: Seq<u8>)
    ensures
        match spec_parse_books(blob) {
            Ok(books) => forall|i: int| 0 <= i < books.len() ==> book_valid(#[trigger] books[i]),
            Err(e) => true,
        },
{
    if let Ok(offs) = crate::ptable::spec_read_table(blob) {
        if offs.len() % 2 == 0 {
            lemma_books_from_valid(blob, offs, 0);
        }
    }
}

} // verus!

verus! {

/// An item whose strings read back: neither holds a null byte.
pub open spec fn item_ok(it: crate::item::ItemV) -> bool {
    (forall|i: int| 0 <= i < it.name.len() ==> #[trigger] it.name[i] != 0) && (forall|i: int|
        0 <= i < it.desc.len() ==> #[trigger] it.desc[i] != 0)
}

/// Every item record the encoder places starts at a position a sixteen-bit
/// table entry can hold.
pub open spec fn item_addrs_ok(items: Seq<crate::item::ItemV>, base: int) -> bool
    decreases items.len(),
{
    if items.len() == 0 {
        true
    } else {
        &&& 0 <= base <= 0xFFFF
        &&& item_addrs_ok(
            items.drop_first(),
            base + crate::item::spec_item_record(items[0], base).len(),
        )
    }
}

/// A model that a well-formed item blob decodes to: at least one item, every
/// string null-free, every record position representable.
pub open spec fn items_valid(items: Seq<crate::item::ItemV>) -> bool {
    items.len() >= 1 && (forall|i: int| 0 <= i < items.len() ==> item_ok(#[trigger] items[i]))
        && item_addrs_ok(items, 2 * items.len() as int)
}

pub proof fn lemma_item_addrs_len(items: Seq<crate::item::ItemV>, base: int)
    ensures
        crate::item::spec_item_addrs(items, base).len() == items.len(),
    decreases items.len(),
{
    if items.len() > 0 {
        lemma_item_addrs_len(
            items.drop_first(),
            base + crate::item::spec_item_record(items[0], base).len(),
        );
    }
}

/// Reading any record the encoder placed gives the item back.
#[verifier::rlimit(100)]
pub proof fn lemma_item_recs_at(blob: Seq<u8>, s: Seq<crate::item::ItemV>, base: int)
    requires
        forall|i: int| 0 <= i < s.len() ==> item_ok(#[trigger] s[i]),
        item_addrs_ok(s, base),
        0 <= base,
        base + crate::item::spec_item_recs(s, base).len() <= blob.len(),
        blob.subrange(base, base + crate::item::spec_item_recs(s, base).len())
            == crate::item::spec_item_recs(s, base),
    ensures
        forall|i: int|
            0 <= i < s.len() ==> crate::item::spec_item_at(
                blob,
                #[trigger] crate::item::spec_item_addrs(s, base)[i] as int,
            ) == s[i],
    decreases s.len(),
{
    lemma_item_addrs_len(s, base);
    if s.len() > 0 {
        let it = s[0];
        assert(item_ok(it));
        let record = crate::item::spec_item_record(it, base);
        let rest = crate::item::spec_item_recs(
            s.drop_first(),
            base + record.len(),
        );
        assert(crate::item::spec_item_recs(s, base) == record + rest);
        lemma_split(blob, base, record, rest);
        let subs = crate::le16_bytes(to_u16(base + 4)) + crate::le16_bytes(
            to_u16(base + 4 + it.name.len() + 1),
        );
        assert(record =~= subs + (it.name + (seq![0u8] + (it.desc + seq![0u8]))));
        lemma_split(blob, base, subs, it.name + (seq![0u8] + (it.desc + seq![0u8])));
        lemma_split(blob, base + 4, it.name, seq![0u8] + (it.desc + seq![0u8]));
        lemma_split(blob, base + 4 + it.name.len(), seq![0u8], it.desc + seq![0u8]);
        lemma_split(blob, base + 4 + it.name.len() + 1, it.desc, seq![0u8]);
        let npos = base + 4;
        let dpos = base + 4 + it.name.len() + 1;
        assert(blob.subrange(npos + it.name.len(), npos + it.name.len() + 1)[0] == 0);
        assert(blob[npos + it.name.len()] == 0);
        assert(blob.subrange(dpos + it.desc.len(), dpos + it.desc.len() + 1)[0] == 0);
        assert(blob[dpos + it.desc.len()] == 0);
        lemma_string_at_of(blob, npos, it.name);
        lemma_string_at_of(blob, dpos, it.desc);
        assert(crate::util::string_skip(blob, npos, 0) == dpos);
        assert(crate::item::spec_item_addrs(s, base)[0] == to_u16(base));
        assert(to_u16(base) == base as u16);
        assert(crate::item::spec_item_at(blob, base) == it);
        lemma_item_recs_at(blob, s.drop_first(), base + record.len());
        assert forall|i: int|
            0 <= i < s.len() implies crate::item::spec_item_at(
            blob,
            #[trigger] crate::item::spec_item_addrs(s, base)[i] as int,
        ) == s[i] by {
            if i >= 1 {
                assert(crate::item::spec_item_addrs(s, base)[i] == crate::item::spec_item_addrs(
                    s.drop_first(),
                    base + record.len(),
                )[i - 1]);
                assert(s[i] == s.drop_first()[i - 1]);
            }
        }
    }
}

/// Round trip for the flat item table: decoding what the encoder produced for
/// a well-formed item model gives the model back.
pub proof fn theorem_items_round_trip(items: Seq<crate::item::ItemV>)
    requires
        items_valid(items),
    ensures
        crate::item::spec_parse_items(crate::item::spec_emit_items(items)) == Ok::<
            Seq<crate::item::ItemV>,
            DtError,
        >(items),
{
    let n = items.len() as int;
    let addrs = crate::item::spec_item_addrs(items, 2 * n);
    let table = spec_write_table(addrs);
    let recs = crate::item::spec_item_recs(items, 2 * n);
    let blob = crate::item::spec_emit_items(items);
    lemma_item_addrs_len(items, 2 * n);
    lemma_write_table_len(addrs);
    assert(blob == table + recs);
    assert(addrs[0] == to_u16(2 * n));
    assert(to_u16(2 * n) == (2 * n) as u16);
    lemma_write_table_le16(addrs, 0);
    assert(crate::le16_at(blob, 0) == crate::le16_at(table, 0)) by {
        assert(blob[0] == table[0]);
        assert(blob[1] == table[1]);
    }
    assert(crate::le16_at(blob, 0) as int == 2 * n);
    let offs = Seq::new((crate::le16_at(blob, 0) / 2) as nat, |i: int| crate::le16_at(blob, 2 * i));
    assert(offs =~= addrs) by {
        assert forall|i: int| 0 <= i < addrs.len() implies offs[i] == addrs[i] by {
            lemma_write_table_le16(addrs, i);
            assert(blob[2 * i] == table[2 * i]);
            assert(blob[2 * i + 1] == table[2 * i + 1]);
        }
    }
    assert(crate::ptable::spec_read_table(blob) == Ok::<Seq<u16>, DtError>(addrs));
    assert(blob.subrange(2 * n, 2 * n + recs.len()) =~= recs) by {
        assert forall|i: int| 0 <= i < recs.len() implies blob.subrange(
            2 * n,
            2 * n + recs.len(),
        )[i] == recs[i] by {
            assert(blob[2 * n + i] == recs[i]);
        }
    }
    lemma_item_recs_at(blob, items, 2 * n);
    let parsed = Seq::new(addrs.len(), |i: int| crate::item::spec_item_at(blob, addrs[i] as int));
    assert(parsed =~= items);
}

} // verus!
