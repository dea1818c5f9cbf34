use vstd::prelude::*;
use crate::errors::DtError;
use crate::ptable::{read_table, spec_read_table};
use crate::tokens::{spec_next_token, next_token, lemma_next_token_bounds, Seg, SegV, Tok, TokV};
use crate::util::{scan_bytes_until, string_at};

verus! {

/// How a line ended: at a line break, at a page break, or with the book
/// itself (an end-of-book byte or the end of the input).
#[derive(Clone, Copy, PartialEq, Eq, Structural)]
pub enum LineEnd {
    NextLine,
    NextPage,
    BookDone,
}

/// One image-directive effect on the enclosing page, in the order
/// encountered.
pub enum ImgUpdV {
    SetX(u16),
    SetY(u16),
    SetId(u16),
}

/// The mathematical shape of a decoded page.
pub struct PageV {
    pub image_x: Option<u16>,
    pub image_y: Option<u16>,
    pub image_id: Option<u16>,
    pub lines: Seq<Seq<SegV>>,
}

/// The mathematical shape of a decoded book: its raw name bytes and its
/// pages.
pub struct BookV {
    pub name: Seq<u8>,
    pub pages: Seq<PageV>,
}

/// A decoded page, before text decoding: image fields plus each line's
/// segments.
pub struct RawPage {
    pub image_x: Option<u16>,
    pub image_y: Option<u16>,
    pub image_id: Option<u16>,
    pub lines: Vec<Vec<Seg>>,
}

impl DeepView for RawPage {
    type V = PageV;

    open spec fn deep_view(&self) -> PageV {
        PageV {
            image_x: self.image_x,
            image_y: self.image_y,
            image_id: self.image_id,
            lines: self.lines.deep_view(),
        }
    }
}

/// A decoded book, before text decoding: raw name bytes plus pages.
pub struct RawBook {
    pub name: Vec<u8>,
    pub pages: Vec<RawPage>,
}

impl DeepView for RawBook {
    type V = BookV;

    open spec fn deep_view(&self) -> BookV {
        BookV { name: self.name@, pages: self.pages.deep_view() }
    }
}

/// Applies image-directive effects left to right to the page's three image
/// fields; a later directive of the same kind overwrites an earlier one.
pub open spec fn apply_upds(
    x: Option<u16>,
    y: Option<u16>,
    id: Option<u16>,
    upds: Seq<ImgUpdV>,
) -> (Option<u16>, Option<u16>, Option<u16>)
    decreases upds.len(),
{
    if upds.len() == 0 {
        (x, y, id)
    } else {
        let t = apply_upds(x, y, id, upds.drop_last());
        match upds.last() {
            ImgUpdV::SetX(v) => (Some(v), t.1, t.2),
            ImgUpdV::SetY(v) => (t.0, Some(v), t.2),
            ImgUpdV::SetId(v) => (t.0, t.1, Some(v)),
        }
    }
}

/// Applying a concatenation of effects applies the two runs in order.
pub proof fn lemma_apply_upds_concat(
    x: Option<u16>,
    y: Option<u16>,
    id: Option<u16>,
    a: Seq<ImgUpdV>,
    b: Seq<ImgUpdV>,
)
    ensures
        apply_upds(x, y, id, a + b) == ({
            let t = apply_upds(x, y, id, a);
            apply_upds(t.0, t.1, t.2, b)
        }),
    decreases b.len(),
{
    if b.len() == 0 {
        assert(a + b =~= a);
    } else {
        lemma_apply_upds_concat(x, y, id, a, b.drop_last());
        assert((a + b).drop_last() =~= a + b.drop_last());
        assert((a + b).last() == b.last());
    }
}

pub open spec fn line_cons_seg(
    s: SegV,
    r: Result<(Seq<SegV>, Seq<ImgUpdV>, int, LineEnd), DtError>,
) -> Result<(Seq<SegV>, Seq<ImgUpdV>, int, LineEnd), DtError> {
    match r {
        Ok(t) => Ok((seq![s] + t.0, t.1, t.2, t.3)),
        Err(e) => Err(e),
    }
}

pub open spec fn line_cons_upd(
    u: ImgUpdV,
    r: Result<(Seq<SegV>, Seq<ImgUpdV>, int, LineEnd), DtError>,
) -> Result<(Seq<SegV>, Seq<ImgUpdV>, int, LineEnd), DtError> {
    match r {
        Ok(t) => Ok((t.0, seq![u] + t.1, t.2, t.3)),
        Err(e) => Err(e),
    }
}

/// Scans one line of content from `pos`: literal bytes, color and size
/// directives become segments, image directives become page effects, and a
/// terminator byte (or the end of the input) ends the line.
pub open spec fn spec_scan_line(blob: Seq<u8>, pos: int) -> Result<
    (Seq<SegV>, Seq<ImgUpdV>, int, LineEnd),
    DtError,
>
    decreases blob.len() - pos,
{
    proof {
        if pos >= 0 {
            lemma_next_token_bounds(blob, pos);
        }
    }
    match spec_next_token(blob, pos) {
        Err(e) => Err(e),
        Ok(t) => match t.0 {
            TokV::EndBook => Ok((seq![], seq![], t.1, LineEnd::BookDone)),
            TokV::EndLine => Ok((seq![], seq![], t.1, LineEnd::NextLine)),
            TokV::EndPage => Ok((seq![], seq![], t.1, LineEnd::NextPage)),
            TokV::Skip => spec_scan_line(blob, t.1),
            TokV::Lit(b) => line_cons_seg(SegV::Lit(b), spec_scan_line(blob, t.1)),
            TokV::Color(n) => line_cons_seg(SegV::Color(n), spec_scan_line(blob, t.1)),
            TokV::SizeTok(bs) => line_cons_seg(SegV::Size(bs), spec_scan_line(blob, t.1)),
            TokV::ImgX(v) => line_cons_upd(ImgUpdV::SetX(v), spec_scan_line(blob, t.1)),
            TokV::ImgY(v) => line_cons_upd(ImgUpdV::SetY(v), spec_scan_line(blob, t.1)),
            TokV::ImgId(v) => line_cons_upd(ImgUpdV::SetId(v), spec_scan_line(blob, t.1)),
        },
    }
}

/// A line scan never moves backwards; unless the book ended it consumed at
/// least one byte and stayed inside the input.
pub proof fn lemma_scan_line_bounds(blob: Seq<u8>, pos: int)
    requires
        pos >= 0,
    ensures
        match spec_scan_line(blob, pos) {
            Ok(t) => pos <= t.2 && (pos <= blob.len() ==> t.2 <= blob.len()) && (t.3
                != LineEnd::BookDone ==> pos < t.2 && t.2 <= blob.len()),
            Err(e) => true,
        },
    decreases blob.len() - pos,
{
    lemma_next_token_bounds(blob, pos);
    match spec_next_token(blob, pos) {
        Err(e) => {},
        Ok(t) => match t.0 {
            TokV::EndBook | TokV::EndLine | TokV::EndPage => {},
            _ => {
                lemma_scan_line_bounds(blob, t.1);
            },
        },
    }
}

/// Scans the lines of one page; the page's image fields are the accumulated
/// effects of the directives seen in its lines.
pub open spec fn spec_scan_page(blob: Seq<u8>, pos: int) -> Result<
    (Seq<Seq<SegV>>, Seq<ImgUpdV>, int, bool),
    DtError,
>
    decreases blob.len() - pos,
{
    proof {
        if pos >= 0 {
            lemma_scan_line_bounds(blob, pos);
        }
    }
    match spec_scan_line(blob, pos) {
        Err(e) => Err(e),
        Ok(t) => match t.3 {
            LineEnd::BookDone => Ok((seq![t.0], t.1, t.2, true)),
            LineEnd::NextPage => Ok((seq![t.0], t.1, t.2, false)),
            LineEnd::NextLine => match spec_scan_page(blob, t.2) {
                Err(e) => Err(e),
                Ok(u) => Ok((seq![t.0] + u.0, t.1 + u.1, u.2, u.3)),
            },
        },
    }
}

/// A page scan never moves backwards; unless the book ended it consumed at
/// least one byte and stayed inside the input.
pub proof fn lemma_scan_page_bounds(blob: Seq<u8>, pos: int)
    requires
        pos >= 0,
    ensures
        match spec_scan_page(blob, pos) {
            Ok(t) => pos <= t.2 && (pos <= blob.len() ==> t.2 <= blob.len()) && (!t.3 ==> pos < t.2
                && t.2 <= blob.len()),
            Err(e) => true,
        },
    decreases blob.len() - pos,
{
    lemma_scan_line_bounds(blob, pos);
    match spec_scan_line(blob, pos) {
        Err(e) => {},
        Ok(t) => {
            if t.3 == LineEnd::NextLine {
                lemma_scan_page_bounds(blob, t.2);
            }
        },
    }
}

/// Scans the pages of one book starting at its content offset.
pub open spec fn spec_scan_book(blob: Seq<u8>, pos: int) -> Result<(Seq<PageV>, int), DtError>
    decreases blob.len() - pos,
{
    proof {
        if pos >= 0 {
            lemma_scan_page_bounds(blob, pos);
        }
    }
    match spec_scan_page(blob, pos) {
        Err(e) => Err(e),
        Ok(t) => {
            let img = apply_upds(None, None, None, t.1);
            let page = PageV { image_x: img.0, image_y: img.1, image_id: img.2, lines: t.0 };
            if t.3 {
                Ok((seq![page], t.2))
            } else {
                match spec_scan_book(blob, t.2) {
                    Err(e) => Err(e),
                    Ok(u) => Ok((seq![page] + u.0, u.1)),
                }
            }
        },
    }
}

/// The books named by the offset pairs of the pointer table, from pair `k`
/// on: each pair is the book's name offset and content offset.
pub open spec fn spec_books_from(blob: Seq<u8>, offs: Seq<u16>, k: int) -> Result<
    Seq<BookV>,
    DtError,
>
    decreases offs.len() - 2 * k,
{
    if k < 0 || 2 * k + 2 > offs.len() {
        Ok(seq![])
    } else {
        let name = string_at(blob, offs[2 * k] as int, 0);
        match spec_scan_book(blob, offs[2 * k + 1] as int) {
            Err(e) => Err(e),
            Ok(t) => match spec_books_from(blob, offs, k + 1) {
                Err(e) => Err(e),
                Ok(rest) => Ok(seq![BookV { name, pages: t.0 }] + rest),
            },
        }
    }
}

/// Decodes a whole book table: the self-terminating pointer table of
/// `[name_offset, content_offset]` pairs, then each book's name and content.
pub open spec fn spec_parse_books(blob: Seq<u8>) -> Result<Seq<BookV>, DtError> {
    match spec_read_table(blob) {
        Err(e) => Err(e),
        Ok(offs) => if offs.len() % 2 != 0 {
            Err(DtError::TruncatedInput)
        } else {
            spec_books_from(blob, offs, 0)
        },
    }
}

/// The page's three image fields, as a triple.
pub open spec fn page_img(p: RawPage) -> (Option<u16>, Option<u16>, Option<u16>) {
    (p.image_x, p.image_y, p.image_id)
}

/// Reads one line from `pos`, mutating the enclosing page's image fields as
/// image directives come by.
#[verifier::loop_isolation(false)]
pub fn scan_line(blob: &Vec<u8>, pos: usize, page: &mut RawPage) -> (r: Result<
    (Vec<Seg>, usize, LineEnd),
    DtError,
>)
    ensures
        match spec_scan_line(blob@, pos as int) {
            Ok(t) => r matches Ok(o) && o.0.deep_view() == t.0 && o.1 == t.2 && o.2 == t.3
                && page_img(*final(page)) == ({
                let i = page_img(*old(page));
                apply_upds(i.0, i.1, i.2, t.1)
            }) && final(page).lines == old(page).lines,
            Err(e) => r == Err::<(Vec<Seg>, usize, LineEnd), DtError>(e),
        },
{
    let mut segs: Vec<Seg> = Vec::new();
    let ghost mut upds: Seq<ImgUpdV> = Seq::empty();
    let mut cur: usize = pos;
    proof {
        assert(segs.deep_view() =~= Seq::<SegV>::empty());
    }
    loop
        invariant
            pos <= cur,
            spec_scan_line(blob@, pos as int) == ({
                match spec_scan_line(blob@, cur as int) {
                    Ok(t) => Ok::<(Seq<SegV>, Seq<ImgUpdV>, int, LineEnd), DtError>(
                        (segs.deep_view() + t.0, upds + t.1, t.2, t.3),
                    ),
                    Err(e) => Err(e),
                }
            }),
            page_img(*page) == ({
                let i = page_img(*old(page));
                apply_upds(i.0, i.1, i.2, upds)
            }),
            page.lines == old(page).lines,
        decreases blob@.len() + 1 - cur,
    {
        proof {
            lemma_next_token_bounds(blob@, cur as int);
        }
        match next_token(blob, cur) {
            Err(e) => {
                return Err(e);
            },
            Ok((tok, p2)) => {
                let ghost rest = spec_scan_line(blob@, p2 as int);
                match tok {
                    Tok::EndBook => {
                        proof {
                            assert(segs.deep_view() + Seq::<SegV>::empty() =~= segs.deep_view());
                            assert(upds + Seq::<ImgUpdV>::empty() =~= upds);
                        }
                        return Ok((segs, p2, LineEnd::BookDone));
                    },
                    Tok::EndLine => {
                        proof {
                            assert(segs.deep_view() + Seq::<SegV>::empty() =~= segs.deep_view());
                            assert(upds + Seq::<ImgUpdV>::empty() =~= upds);
                        }
                        return Ok((segs, p2, LineEnd::NextLine));
                    },
                    Tok::EndPage => {
                        proof {
                            assert(segs.deep_view() + Seq::<SegV>::empty() =~= segs.deep_view());
                            assert(upds + Seq::<ImgUpdV>::empty() =~= upds);
                        }
                        return Ok((segs, p2, LineEnd::NextPage));
                    },
                    Tok::Skip => {
                        cur = p2;
                    },
                    Tok::Lit(b) => {
                        let ghost old_dv = segs.deep_view();
                        segs.push(Seg::Lit(b));
                        proof {
                            assert(segs.deep_view() =~= old_dv + seq![SegV::Lit(b)]);
                            if let Ok(t) = rest {
                                assert(old_dv + (seq![SegV::Lit(b)] + t.0) =~= (old_dv + seq![
                                    SegV::Lit(b),
                                ]) + t.0);
                            }
                        }
                        cur = p2;
                    },
                    Tok::Color(n) => {
                        let ghost old_dv = segs.deep_view();
                        segs.push(Seg::Color(n));
                        proof {
                            assert(segs.deep_view() =~= old_dv + seq![SegV::Color(n)]);
                            if let Ok(t) = rest {
                                assert(old_dv + (seq![SegV::Color(n)] + t.0) =~= (old_dv + seq![
                                    SegV::Color(n),
                                ]) + t.0);
                            }
                        }
                        cur = p2;
                    },
                    Tok::SizeTok(bs) => {
                        let ghost old_dv = segs.deep_view();
                        let ghost bsv = bs@;
                        segs.push(Seg::Size(bs));
                        proof {
                            assert(segs.deep_view() =~= old_dv + seq![SegV::Size(bsv)]);
                            if let Ok(t) = rest {
                                assert(old_dv + (seq![SegV::Size(bsv)] + t.0) =~= (old_dv + seq![
                                    SegV::Size(bsv),
                                ]) + t.0);
                            }
                        }
                        cur = p2;
                    },
                    Tok::ImgX(v) => {
                        page.image_x = Some(v);
                        proof {
                            assert((upds.push(ImgUpdV::SetX(v))).drop_last() =~= upds);
                            lemma_line_upd_assoc(upds, ImgUpdV::SetX(v), rest);
                            upds = upds.push(ImgUpdV::SetX(v));
                        }
                        cur = p2;
                    },
                    Tok::ImgY(v) => {
                        page.image_y = Some(v);
                        proof {
                            assert((upds.push(ImgUpdV::SetY(v))).drop_last() =~= upds);
                            lemma_line_upd_assoc(upds, ImgUpdV::SetY(v), rest);
                            upds = upds.push(ImgUpdV::SetY(v));
                        }
                        cur = p2;
                    },
                    Tok::ImgId(v) => {
                        page.image_id = Some(v);
                        proof {
                            assert((upds.push(ImgUpdV::SetId(v))).drop_last() =~= upds);
                            lemma_line_upd_assoc(upds, ImgUpdV::SetId(v), rest);
                            upds = upds.push(ImgUpdV::SetId(v));
                        }
                        cur = p2;
                    },
                }
            },
        }
    }
}

/// Shifting one effect from the tail into the accumulator keeps the
/// concatenation the same.
proof fn lemma_line_upd_assoc(
    acc: Seq<ImgUpdV>,
    u: ImgUpdV,
    rest: Result<(Seq<SegV>, Seq<ImgUpdV>, int, LineEnd), DtError>,
)
    ensures
        match rest {
            Ok(t) => acc + (seq![u] + t.1) =~= (acc.push(u)) + t.1,
            Err(e) => true,
        },
{
    if let Ok(t) = rest {
        assert(acc + (seq![u] + t.1) =~= acc.push(u) + t.1);
    }
}

} // verus!

verus! {

/// Reads the lines of one page starting at `pos`, returning the page, the
/// next read position, and whether the book ended with it.
#[verifier::loop_isolation(false)]
pub fn scan_page(blob: &Vec<u8>, pos: usize) -> (r: Result<(RawPage, usize, bool), DtError>)
    ensures
        match spec_scan_page(blob@, pos as int) {
            Ok(t) => r matches Ok(o) && o.0.deep_view().lines == t.0 && page_img(o.0)
                == apply_upds(None, None, None, t.1) && o.1 == t.2 && o.2 == t.3,
            Err(e) => r == Err::<(RawPage, usize, bool), DtError>(e),
        },
{
    let mut page = RawPage { image_x: None, image_y: None, image_id: None, lines: Vec::new() };
    let ghost mut upds: Seq<ImgUpdV> = Seq::empty();
    let mut cur: usize = pos;
    proof {
        assert(page.lines.deep_view() =~= Seq::<Seq<SegV>>::empty());
    }
    loop
        invariant
            pos <= cur,
            spec_scan_page(blob@, pos as int) == ({
                match spec_scan_page(blob@, cur as int) {
                    Ok(t) => Ok::<(Seq<Seq<SegV>>, Seq<ImgUpdV>, int, bool), DtError>(
                        (page.lines.deep_view() + t.0, upds + t.1, t.2, t.3),
                    ),
                    Err(e) => Err(e),
                }
            }),
            page_img(page) == apply_upds(None, None, None, upds),
        decreases blob@.len() + 1 - cur,
    {
        proof {
            lemma_scan_line_bounds(blob@, cur as int);
        }
        let ghost line_res = spec_scan_line(blob@, cur as int);
        let ghost page_rest = spec_scan_page(blob@, cur as int);
        match scan_line(blob, cur, &mut page) {
            Err(e) => {
                return Err(e);
            },
            Ok((segs, p2, end)) => {
                let ghost lsegs = line_res->Ok_0.0;
                let ghost lupds = line_res->Ok_0.1;
                let ghost old_lines = page.lines.deep_view();
                let ghost old_upds = upds;
                page.lines.push(segs);
                proof {
                    assert(page.lines.deep_view() =~= old_lines.push(lsegs));
                    lemma_apply_upds_concat(None, None, None, old_upds, lupds);
                    upds = old_upds + lupds;
                }
                match end {
                    LineEnd::BookDone => {
                        proof {
                            assert(old_lines + seq![lsegs] =~= page.lines.deep_view());
                        }
                        return Ok((page, p2, true));
                    },
                    LineEnd::NextPage => {
                        proof {
                            assert(old_lines + seq![lsegs] =~= page.lines.deep_view());
                        }
                        return Ok((page, p2, false));
                    },
                    LineEnd::NextLine => {
                        proof {
                            if let Ok(u) = spec_scan_page(blob@, p2 as int) {
                                assert(old_lines + (seq![lsegs] + u.0) =~= page.lines.deep_view()
                                    + u.0);
                                assert(old_upds + (lupds + u.1) =~= upds + u.1);
                            }
                        }
                        cur = p2;
                    },
                }
            },
        }
    }
}

} // verus!

verus! {

/// Reads all the pages of one book starting at its content offset.
#[verifier::loop_isolation(false)]
pub fn scan_book(blob: &Vec<u8>, pos: usize) -> (r: Result<(Vec<RawPage>, usize), DtError>)
    ensures
        match spec_scan_book(blob@, pos as int) {
            Ok(t) => r matches Ok(o) && o.0.deep_view() == t.0 && o.1 == t.1,
            Err(e) => r == Err::<(Vec<RawPage>, usize), DtError>(e),
        },
{
    let mut pages: Vec<RawPage> = Vec::new();
    let mut cur: usize = pos;
    proof {
        assert(pages.deep_view() =~= Seq::<PageV>::empty());
    }
    loop
        invariant
            pos <= cur,
            spec_scan_book(blob@, pos as int) == ({
                match spec_scan_book(blob@, cur as int) {
                    Ok(t) => Ok::<(Seq<PageV>, int), DtError>((pages.deep_view() + t.0, t.1)),
                    Err(e) => Err(e),
                }
            }),
        decreases blob@.len() + 1 - cur,
    {
        proof {
            lemma_scan_page_bounds(blob@, cur as int);
        }
        let ghost page_res = spec_scan_page(blob@, cur as int);
        match scan_page(blob, cur) {
            Err(e) => {
                return Err(e);
            },
            Ok((page, p2, done)) => {
                let ghost pv = ({
                    let t = page_res->Ok_0;
                    let img = apply_upds(None, None, None, t.1);
                    PageV { image_x: img.0, image_y: img.1, image_id: img.2, lines: t.0 }
                });
                let ghost old_pages = pages.deep_view();
                proof {
                    assert(page.deep_view() == pv);
                }
                pages.push(page);
                proof {
                    assert(pages.deep_view() =~= old_pages.push(pv));
                }
                if done {
                    proof {
                        assert(old_pages + seq![pv] =~= pages.deep_view());
                    }
                    return Ok((pages, p2));
                }
                proof {
                    if let Ok(u) = spec_scan_book(blob@, p2 as int) {
                        assert(old_pages + (seq![pv] + u.0) =~= pages.deep_view() + u.0);
                    }
                }
                cur = p2;
            },
        }
    }
}

/// Decodes all books of a book-table blob: reads the pointer table, then each
/// book's name bytes and content.
#[verifier::loop_isolation(false)]
pub fn parse_books(blob: &Vec<u8>) -> (r: Result<Vec<RawBook>, DtError>)
    ensures
        match spec_parse_books(blob@) {
            Ok(bs) => r matches Ok(o) && o.deep_view() == bs,
            Err(e) => r == Err::<Vec<RawBook>, DtError>(e),
        },
{
    let (offsets, _first) = match read_table(blob) {
        Ok(t) => t,
        Err(e) => {
            return Err(e);
        },
    };
    if offsets.len() % 2 != 0 {
        return Err(DtError::TruncatedInput);
    }
    let pairs = offsets.len() / 2;
    let mut books: Vec<RawBook> = Vec::new();
    let mut k: usize = 0;
    proof {
        assert(books.deep_view() =~= Seq::<BookV>::empty());
    }
    while k < pairs
        invariant
            k <= pairs,
            pairs == offsets@.len() / 2,
            offsets@.len() % 2 == 0,
            spec_books_from(blob@, offsets@, 0) == ({
                match spec_books_from(blob@, offsets@, k as int) {
                    Ok(bs) => Ok::<Seq<BookV>, DtError>(books.deep_view() + bs),
                    Err(e) => Err(e),
                }
            }),
        decreases pairs - k,
    {
        let name_off = offsets[2 * k];
        let content_off = offsets[2 * k + 1];
        let (name_bytes, _) = scan_bytes_until(blob, name_off as usize, 0);
        let ghost book_res = spec_scan_book(blob@, content_off as int);
        match scan_book(blob, content_off as usize) {
            Err(e) => {
                return Err(e);
            },
            Ok((pages, _end)) => {
                let ghost bv = BookV {
                    name: string_at(blob@, name_off as int, 0),
                    pages: book_res->Ok_0.0,
                };
                let ghost old_books = books.deep_view();
                let book = RawBook { name: name_bytes, pages };
                proof {
                    assert(book.deep_view() == bv);
                }
                books.push(book);
                proof {
                    assert(books.deep_view() =~= old_books.push(bv));
                    if let Ok(bs) = spec_books_from(blob@, offsets@, k + 1) {
                        assert(old_books + (seq![bv] + bs) =~= books.deep_view() + bs);
                    }
                }
                k = k + 1;
            },
        }
    }
    proof {
        assert(spec_books_from(blob@, offsets@, pairs as int) == Ok::<Seq<BookV>, DtError>(
            Seq::empty(),
        ));
        assert(books.deep_view() + Seq::<BookV>::empty() =~= books.deep_view());
    }
    Ok(books)
}

} // verus!
