use vstd::prelude::*;
use crate::book::{BookV, PageV, RawBook, RawPage};
use crate::digits::{dec_digits, u16_to_dec};
use crate::ptable::{spec_write_table, write_table};
use crate::tokens::{Seg, SegV};
use crate::util::to_u16;

verus! {

/// The control bytes that re-expand one line segment.
pub open spec fn spec_emit_seg(s: SegV) -> Seq<u8> {
    match s {
        SegV::Lit(b) => seq![b],
        SegV::Color(n) => seq![0x07u8, n],
        SegV::Size(bs) => seq![0x23u8] + bs + seq![0x53u8],
    }
}

pub open spec fn spec_emit_segs(segs: Seq<SegV>) -> Seq<u8>
    decreases segs.len(),
{
    if segs.len() == 0 {
        seq![]
    } else {
        spec_emit_seg(segs[0]) + spec_emit_segs(segs.drop_first())
    }
}

pub proof fn lemma_emit_segs_push(s: Seq<SegV>, x: SegV)
    ensures
        spec_emit_segs(s.push(x)) == spec_emit_segs(s) + spec_emit_seg(x),
    decreases s.len(),
{
    if s.len() == 0 {
        assert(s.push(x)[0] == x);
        assert(s.push(x).drop_first() =~= Seq::<SegV>::empty());
        assert(spec_emit_segs(Seq::<SegV>::empty()) == Seq::<u8>::empty());
        assert(spec_emit_segs(s.push(x)) =~= spec_emit_seg(x));
        assert(spec_emit_segs(s) + spec_emit_seg(x) =~= spec_emit_seg(x));
    } else {
        assert(s.push(x).drop_first() =~= s.drop_first().push(x));
        lemma_emit_segs_push(s.drop_first(), x);
        assert(s.push(x)[0] == s[0]);
        assert(spec_emit_seg(s[0]) + (spec_emit_segs(s.drop_first()) + spec_emit_seg(x))
            =~= (spec_emit_seg(s[0]) + spec_emit_segs(s.drop_first())) + spec_emit_seg(x));
    }
}

/// The image directives implied by a page's fields, in the fixed order x,
/// then y, then image id; the sentinel image id is written bare.
pub open spec fn spec_emit_img(x: Option<u16>, y: Option<u16>, id: Option<u16>) -> Seq<u8> {
    (match x {
        Some(v) => seq![0x23u8] + dec_digits(v as nat) + seq![0x78u8],
        None => seq![],
    }) + (match y {
        Some(v) => seq![0x23u8] + dec_digits(v as nat) + seq![0x79u8],
        None => seq![],
    }) + (match id {
        Some(v) => if v == 0xFFF {
            seq![0x23u8, 0x46u8]
        } else {
            seq![0x23u8] + dec_digits(v as nat) + seq![0x46u8]
        },
        None => seq![],
    })
}

/// A page's lines, joined by the end-of-line byte.
pub open spec fn spec_emit_lines(lines: Seq<Seq<SegV>>) -> Seq<u8>
    decreases lines.len(),
{
    if lines.len() == 0 {
        seq![]
    } else if lines.len() == 1 {
        spec_emit_segs(lines[0])
    } else {
        spec_emit_segs(lines[0]) + seq![0x01u8] + spec_emit_lines(lines.drop_first())
    }
}

pub open spec fn spec_emit_page(p: PageV) -> Seq<u8> {
    spec_emit_img(p.image_x, p.image_y, p.image_id) + spec_emit_lines(p.lines)
}

/// A book's pages, joined by the end-of-page pair.
pub open spec fn spec_emit_pages(pages: Seq<PageV>) -> Seq<u8>
    decreases pages.len(),
{
    if pages.len() == 0 {
        seq![]
    } else if pages.len() == 1 {
        spec_emit_page(pages[0])
    } else {
        spec_emit_page(pages[0]) + seq![0x02u8, 0x03u8] + spec_emit_pages(pages.drop_first())
    }
}

/// One book's record: its name with a terminator, then its content with the
/// end-of-book byte.
pub open spec fn spec_book_record(b: BookV) -> Seq<u8> {
    b.name + seq![0u8] + spec_emit_pages(b.pages) + seq![0u8]
}

/// All book records, in order.
pub open spec fn spec_emit_recs(books: Seq<BookV>) -> Seq<u8>
    decreases books.len(),
{
    if books.len() == 0 {
        seq![]
    } else {
        spec_book_record(books[0]) + spec_emit_recs(books.drop_first())
    }
}

/// The pointer table entries for the books: for each book, in order, the
/// address of its name and the address of its content, as positions in the
/// final buffer (truncated to the sixteen bits an entry can hold). `base` is
/// the position where the first record begins.
pub open spec fn spec_book_addrs(books: Seq<BookV>, base: int) -> Seq<u16>
    decreases books.len(),
{
    if books.len() == 0 {
        seq![]
    } else {
        seq![to_u16(base), to_u16(base + books[0].name.len() + 1)] + spec_book_addrs(
            books.drop_first(),
            base + spec_book_record(books[0]).len(),
        )
    }
}

/// A whole book table: the pointer table, then the records it points into.
pub open spec fn spec_emit_books(books: Seq<BookV>) -> Seq<u8> {
    spec_write_table(spec_book_addrs(books, 4 * books.len() as int)) + spec_emit_recs(books)
}

/// Appends a copy of `bs` to `out`.
#[verifier::loop_isolation(false)]
pub fn push_bytes(out: &mut Vec<u8>, bs: &Vec<u8>)
    ensures
        final(out)@ == old(out)@ + bs@,
{
    let mut i: usize = 0;
    while i < bs.len()
        invariant
            i <= bs@.len(),
            out@ == old(out)@ + bs@.take(i as int),
        decreases bs@.len() - i,
    {
        out.push(bs[i]);
        proof {
            assert(old(out)@ + bs@.take(i + 1) =~= (old(out)@ + bs@.take(i as int)).push(
                bs@[i as int],
            ));
        }
        i = i + 1;
    }
    proof {
        assert(bs@.take(bs@.len() as int) =~= bs@);
    }
}

/// Re-expands one segment into control bytes at the end of `out`.
pub fn emit_seg(seg: &Seg, out: &mut Vec<u8>)
    ensures
        final(out)@ == old(out)@ + spec_emit_seg(seg@),
{
    match seg {
        Seg::Lit(b) => {
            out.push(*b);
            proof {
                assert(out@ =~= old(out)@ + spec_emit_seg(seg@));
            }
        },
        Seg::Color(n) => {
            out.push(0x07);
            out.push(*n);
            proof {
                assert(out@ =~= old(out)@ + spec_emit_seg(seg@));
            }
        },
        Seg::Size(bs) => {
            out.push(0x23);
            push_bytes(out, bs);
            out.push(0x53);
            proof {
                assert(out@ =~= old(out)@ + spec_emit_seg(seg@));
            }
        },
    }
}

/// Re-expands a line's segments.
#[verifier::loop_isolation(false)]
pub fn emit_segs(segs: &Vec<Seg>, out: &mut Vec<u8>)
    ensures
        final(out)@ == old(out)@ + spec_emit_segs(segs.deep_view()),
{
    let mut i: usize = 0;
    proof {
        assert(segs.deep_view().take(0) =~= Seq::<SegV>::empty());
        assert(out@ =~= old(out)@ + spec_emit_segs(segs.deep_view().take(0)));
    }
    while i < segs.len()
        invariant
            i <= segs@.len(),
            out@ == old(out)@ + spec_emit_segs(segs.deep_view().take(i as int)),
        decreases segs@.len() - i,
    {
        emit_seg(&segs[i], out);
        proof {
            let dv = segs.deep_view();
            assert(dv.take(i + 1) =~= dv.take(i as int).push(dv[i as int]));
            lemma_emit_segs_push(dv.take(i as int), dv[i as int]);
            assert((old(out)@ + spec_emit_segs(dv.take(i as int))) + spec_emit_seg(dv[i as int])
                =~= old(out)@ + spec_emit_segs(dv.take(i + 1)));
        }
        i = i + 1;
    }
    proof {
        assert(segs.deep_view().take(segs@.len() as int) =~= segs.deep_view());
    }
}

/// Emits one optional image directive: the opening byte, the decimal value,
/// and the closing type byte.
fn emit_img_value(v: u16, close: u8, out: &mut Vec<u8>)
    ensures
        final(out)@ == old(out)@ + seq![0x23u8] + dec_digits(v as nat) + seq![close],
{
    out.push(0x23);
    let ds = u16_to_dec(v);
    push_bytes(out, &ds);
    out.push(close);
    proof {
        assert(out@ =~= old(out)@ + seq![0x23u8] + dec_digits(v as nat) + seq![close]);
    }
}

/// Emits a page: its image directives in the fixed order, then its lines
/// joined by the end-of-line byte.
#[verifier::loop_isolation(false)]
#[verifier::rlimit(50)]
pub fn emit_page(page: &RawPage, out: &mut Vec<u8>)
    ensures
        final(out)@ == old(out)@ + spec_emit_page(page.deep_view()),
{
    match page.image_x {
        Some(v) => emit_img_value(v, 0x78, out),
        None => (),
    }
    match page.image_y {
        Some(v) => emit_img_value(v, 0x79, out),
        None => (),
    }
    match page.image_id {
        Some(v) => {
            if v != 0xFFF {
                emit_img_value(v, 0x46, out);
            } else {
                out.push(0x23);
                out.push(0x46);
            }
        },
        None => (),
    }
    proof {
        assert(out@ =~= old(out)@ + spec_emit_img(page.image_x, page.image_y, page.image_id));
    }
    let ghost mid = out@;
    let ghost dv = page.lines.deep_view();
    let mut i: usize = 0;
    proof {
        assert(dv.skip(0) =~= dv);
        assert(out@ + spec_emit_lines(dv.skip(0)) =~= mid + spec_emit_lines(dv));
    }
    while i < page.lines.len()
        invariant
            i <= page.lines@.len(),
            dv == page.lines.deep_view(),
            out@ + spec_emit_lines(dv.skip(i as int)) == mid + spec_emit_lines(dv),
        decreases page.lines@.len() - i,
    {
        let ghost pre = out@;
        emit_segs(&page.lines[i], out);
        proof {
            assert(dv.skip(i as int)[0] == dv[i as int]);
            assert(dv.skip(i as int).drop_first() =~= dv.skip(i + 1));
        }
        if i + 1 < page.lines.len() {
            out.push(0x01);
            proof {
                assert(out@ =~= pre + spec_emit_segs(dv[i as int]) + seq![0x01u8]);
                assert(out@ + spec_emit_lines(dv.skip(i + 1)) =~= pre + spec_emit_lines(
                    dv.skip(i as int),
                ));
            }
        } else {
            proof {
                assert(dv.skip(i as int).len() == 1);
                assert(spec_emit_lines(dv.skip(i as int)) == spec_emit_segs(dv[i as int]));
                assert(dv.skip(i + 1) =~= Seq::<Seq<SegV>>::empty());
                assert(out@ + spec_emit_lines(dv.skip(i + 1)) =~= pre + spec_emit_lines(
                    dv.skip(i as int),
                ));
            }
        }
        i = i + 1;
    }
    proof {
        assert(dv.skip(i as int) =~= Seq::<Seq<SegV>>::empty());
        assert(out@ + Seq::<u8>::empty() =~= out@);
        assert(out@ =~= mid + spec_emit_lines(dv));
        assert(out@ =~= old(out)@ + spec_emit_page(page.deep_view()));
    }
}

/// Emits a book's pages, joined by the end-of-page pair.
#[verifier::loop_isolation(false)]
pub fn emit_pages(pages: &Vec<RawPage>, out: &mut Vec<u8>)
    ensures
        final(out)@ == old(out)@ + spec_emit_pages(pages.deep_view()),
{
    let ghost dv = pages.deep_view();
    let mut i: usize = 0;
    proof {
        assert(dv.skip(0) =~= dv);
        assert(out@ + spec_emit_pages(dv.skip(0)) =~= old(out)@ + spec_emit_pages(dv));
    }
    while i < pages.len()
        invariant
            i <= pages@.len(),
            dv == pages.deep_view(),
            out@ + spec_emit_pages(dv.skip(i as int)) == old(out)@ + spec_emit_pages(dv),
        decreases pages@.len() - i,
    {
        let ghost pre = out@;
        emit_page(&pages[i], out);
        proof {
            assert(dv.skip(i as int)[0] == dv[i as int]);
            assert(dv.skip(i as int).drop_first() =~= dv.skip(i + 1));
        }
        if i + 1 < pages.len() {
            out.push(0x02);
            out.push(0x03);
            proof {
                assert(out@ =~= pre + spec_emit_page(dv[i as int]) + seq![0x02u8, 0x03u8]);
                assert(out@ + spec_emit_pages(dv.skip(i + 1)) =~= pre + spec_emit_pages(
                    dv.skip(i as int),
                ));
            }
        } else {
            proof {
                assert(dv.skip(i as int).len() == 1);
                assert(spec_emit_pages(dv.skip(i as int)) == spec_emit_page(dv[i as int]));
                assert(dv.skip(i + 1) =~= Seq::<PageV>::empty());
                assert(out@ + spec_emit_pages(dv.skip(i + 1)) =~= pre + spec_emit_pages(
                    dv.skip(i as int),
                ));
            }
        }
        i = i + 1;
    }
    proof {
        assert(dv.skip(i as int) =~= Seq::<PageV>::empty());
        assert(out@ + Seq::<u8>::empty() =~= out@);
    }
}

/// Encodes a whole book table: writes every record while recording each
/// book's name and content addresses, then prepends the pointer table built
/// from them.
#[verifier::loop_isolation(false)]
pub fn emit_books(books: &Vec<RawBook>) -> (r: Vec<u8>)
    ensures
        r@ == spec_emit_books(books.deep_view()),
{
    let ghost dv = books.deep_view();
    let n = books.len();
    let base: u128 = 4u128 * (n as u128);
    let mut recs: Vec<u8> = Vec::new();
    let mut addrs: Vec<u16> = Vec::new();
    let mut k: usize = 0;
    proof {
        assert(dv.skip(0) =~= dv);
        assert(Seq::<u16>::empty() + spec_book_addrs(dv, 4 * dv.len() as int) =~= spec_book_addrs(
            dv,
            4 * dv.len() as int,
        ));
        assert(Seq::<u8>::empty() + spec_emit_recs(dv) =~= spec_emit_recs(dv));
    }
    while k < books.len()
        invariant
            k <= books@.len(),
            n == books@.len(),
            base == 4 * dv.len() as int,
            dv == books.deep_view(),
            spec_book_addrs(dv, 4 * dv.len() as int) == addrs@ + spec_book_addrs(
                dv.skip(k as int),
                4 * dv.len() as int + recs@.len(),
            ),
            spec_emit_recs(dv) == recs@ + spec_emit_recs(dv.skip(k as int)),
        decreases books@.len() - k,
    {
        let ghost pre_recs = recs@;
        let ghost pre_addrs = addrs@;
        let book = &books[k];
        let name_addr = ((base + recs.len() as u128) % 0x10000) as u16;
        addrs.push(name_addr);
        push_bytes(&mut recs, &book.name);
        recs.push(0);
        let content_addr = ((base + recs.len() as u128) % 0x10000) as u16;
        addrs.push(content_addr);
        emit_pages(&book.pages, &mut recs);
        recs.push(0);
        proof {
            let bk = dv[k as int];
            assert(dv.skip(k as int)[0] == bk);
            assert(dv.skip(k as int).drop_first() =~= dv.skip(k + 1));
            assert(book.deep_view() == bk);
            assert(name_addr == to_u16(4 * dv.len() as int + pre_recs.len()));
            assert(content_addr == to_u16(4 * dv.len() as int + pre_recs.len() + bk.name.len() + 1));
            assert(recs@ =~= pre_recs + spec_book_record(bk));
            assert(addrs@ =~= pre_addrs + seq![name_addr, content_addr]);
            assert(pre_addrs + (seq![name_addr, content_addr] + spec_book_addrs(
                dv.skip(k + 1),
                4 * dv.len() as int + pre_recs.len() + spec_book_record(bk).len(),
            )) =~= addrs@ + spec_book_addrs(dv.skip(k + 1), 4 * dv.len() as int + recs@.len()));
            assert(pre_recs + (spec_book_record(bk) + spec_emit_recs(dv.skip(k + 1))) =~= recs@
                + spec_emit_recs(dv.skip(k + 1)));
        }
        k = k + 1;
    }
    proof {
        assert(dv.skip(k as int) =~= Seq::<BookV>::empty());
        assert(addrs@ + Seq::<u16>::empty() =~= addrs@);
        assert(recs@ + Seq::<u8>::empty() =~= recs@);
    }
    let mut out = write_table(&addrs);
    out.append(&mut recs);
    out
}

} // verus!
