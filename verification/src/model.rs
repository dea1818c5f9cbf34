use vstd::prelude::*;
use crate::book::{parse_books, spec_parse_books, BookV, PageV, RawBook, RawPage};
use crate::digits::dec_digits;
use crate::errors::DtError;
use crate::text::{decode_string, sjis_decode_of};
use crate::tokens::{Seg, SegV};

verus! {

/// One line of a page: its position within the page and its text, with
/// inline color and size markers spelled out.
#[derive(Debug)]
pub struct Line {
    pub id: u64,
    pub text: String,
}

/// One page of a book: its position within the book, the optional image
/// position and id the page sets, and its lines.
#[derive(Debug)]
pub struct Page {
    pub id: u64,
    pub image_x: Option<u16>,
    pub image_y: Option<u16>,
    pub image_id: Option<u16>,
    pub lines: Vec<Line>,
}

/// One book: its position in the table, its name, and its pages.
#[derive(Debug)]
pub struct Book {
    pub id: u64,
    pub name: String,
    pub pages: Vec<Page>,
}

pub struct LineM {
    pub id: u64,
    pub text: Seq<char>,
}

pub struct PageM {
    pub id: u64,
    pub image_x: Option<u16>,
    pub image_y: Option<u16>,
    pub image_id: Option<u16>,
    pub lines: Seq<LineM>,
}

pub struct BookM {
    pub id: u64,
    pub name: Seq<char>,
    pub pages: Seq<PageM>,
}

impl DeepView for Line {
    type V = LineM;

    open spec fn deep_view(&self) -> LineM {
        LineM { id: self.id, text: self.text@ }
    }
}

impl DeepView for Page {
    type V = PageM;

    open spec fn deep_view(&self) -> PageM {
        PageM {
            id: self.id,
            image_x: self.image_x,
            image_y: self.image_y,
            image_id: self.image_id,
            lines: self.lines.deep_view(),
        }
    }
}

impl DeepView for Book {
    type V = BookM;

    open spec fn deep_view(&self) -> BookM {
        BookM { id: self.id, name: self.name@, pages: self.pages.deep_view() }
    }
}

/// The marker spelling of one segment: a literal byte stands as itself, a
/// color directive as `<C:n>`, a size directive as `<S:` its raw value bytes
/// `>`.
pub open spec fn spec_render_seg(s: SegV) -> Seq<u8> {
    match s {
        SegV::Lit(b) => seq![b],
        SegV::Color(n) => seq![0x3Cu8, 0x43u8, 0x3Au8] + dec_digits(n as nat) + seq![0x3Eu8],
        SegV::Size(bs) => seq![0x3Cu8, 0x53u8, 0x3Au8] + bs + seq![0x3Eu8],
    }
}

pub open spec fn spec_render_segs(segs: Seq<SegV>) -> Seq<u8>
    decreases segs.len(),
{
    if segs.len() == 0 {
        seq![]
    } else {
        spec_render_seg(segs[0]) + spec_render_segs(segs.drop_first())
    }
}

pub proof fn lemma_render_segs_push(s: Seq<SegV>, x: SegV)
    ensures
        spec_render_segs(s.push(x)) == spec_render_segs(s) + spec_render_seg(x),
    decreases s.len(),
{
    if s.len() == 0 {
        assert(s.push(x)[0] == x);
        assert(s.push(x).drop_first() =~= Seq::<SegV>::empty());
        assert(spec_render_segs(Seq::<SegV>::empty()) == Seq::<u8>::empty());
        assert(spec_render_segs(s.push(x)) =~= spec_render_seg(x));
        assert(spec_render_segs(s) + spec_render_seg(x) =~= spec_render_seg(x));
    } else {
        assert(s.push(x).drop_first() =~= s.drop_first().push(x));
        lemma_render_segs_push(s.drop_first(), x);
        assert(s.push(x)[0] == s[0]);
        assert(spec_render_seg(s[0]) + (spec_render_segs(s.drop_first()) + spec_render_seg(x))
            =~= (spec_render_seg(s[0]) + spec_render_segs(s.drop_first())) + spec_render_seg(x));
    }
}

/// The text of a decoded line: its segments spelled out as marker bytes, then
/// decoded from the legacy charset.
pub open spec fn spec_line_text(segs: Seq<SegV>) -> Seq<char> {
    sjis_decode_of(spec_render_segs(segs))
}

pub open spec fn spec_line_model(l: int, segs: Seq<SegV>) -> LineM {
    LineM { id: l as u64, text: spec_line_text(segs) }
}

pub open spec fn spec_page_model(j: int, p: PageV) -> PageM {
    PageM {
        id: j as u64,
        image_x: p.image_x,
        image_y: p.image_y,
        image_id: p.image_id,
        lines: Seq::new(p.lines.len(), |l: int| spec_line_model(l, p.lines[l])),
    }
}

pub open spec fn spec_book_model_one(i: int, b: BookV) -> BookM {
    BookM {
        id: i as u64,
        name: sjis_decode_of(b.name),
        pages: Seq::new(b.pages.len(), |j: int| spec_page_model(j, b.pages[j])),
    }
}

/// The book model a decoded table stands for: identifiers are positions, and
/// every name and line is decoded from the legacy charset.
pub open spec fn spec_book_model(raw: Seq<BookV>) -> Seq<BookM> {
    Seq::new(raw.len(), |i: int| spec_book_model_one(i, raw[i]))
}

/// Spells a line's segments out as marker bytes.
#[verifier::loop_isolation(false)]
pub fn render_segs(segs: &Vec<Seg>) -> (r: Vec<u8>)
    ensures
        r@ == spec_render_segs(segs.deep_view()),
{
    let mut out: Vec<u8> = Vec::new();
    let mut i: usize = 0;
    proof {
        assert(segs.deep_view().take(0) =~= Seq::<SegV>::empty());
        assert(out@ =~= spec_render_segs(segs.deep_view().take(0)));
    }
    while i < segs.len()
        invariant
            i <= segs@.len(),
            out@ == spec_render_segs(segs.deep_view().take(i as int)),
        decreases segs@.len() - i,
    {
        let ghost pre = out@;
        match &segs[i] {
            Seg::Lit(b) => {
                out.push(*b);
            },
            Seg::Color(n) => {
                out.push(0x3C);
                out.push(0x43);
                out.push(0x3A);
                let ds = crate::digits::u16_to_dec(*n as u16);
                crate::emit::push_bytes(&mut out, &ds);
                out.push(0x3E);
            },
            Seg::Size(bs) => {
                out.push(0x3C);
                out.push(0x53);
                out.push(0x3A);
                crate::emit::push_bytes(&mut out, bs);
                out.push(0x3E);
            },
        }
        proof {
            let dv = segs.deep_view();
            assert(out@ =~= pre + spec_render_seg(dv[i as int]));
            assert(dv.take(i + 1) =~= dv.take(i as int).push(dv[i as int]));
            lemma_render_segs_push(dv.take(i as int), dv[i as int]);
        }
        i = i + 1;
    }
    proof {
        assert(segs.deep_view().take(segs@.len() as int) =~= segs.deep_view());
    }
    out
}

/// Builds the book model from decoded raw books: positional identifiers, and
/// text decoded from the legacy charset with markers spelled out.
#[verifier::loop_isolation(false)]
pub fn raw_to_books(raw: &Vec<RawBook>) -> (r: Vec<Book>)
    ensures
        r.deep_view() == spec_book_model(raw.deep_view()),
{
    let mut books: Vec<Book> = Vec::new();
    let mut i: usize = 0;
    while i < raw.len()
        invariant
            i <= raw@.len(),
            books@.len() == i,
            forall|x: int|
                0 <= x < i ==> #[trigger] books.deep_view()[x] == spec_book_model_one(
                    x,
                    raw.deep_view()[x],
                ),
        decreases raw@.len() - i,
    {
        let rb = &raw[i];
        let name = decode_string(&rb.name);
        let mut pages: Vec<Page> = Vec::new();
        let mut j: usize = 0;
        while j < rb.pages.len()
            invariant
                j <= rb.pages@.len(),
                pages@.len() == j,
                forall|x: int|
                    0 <= x < j ==> #[trigger] pages.deep_view()[x] == spec_page_model(
                        x,
                        rb.pages.deep_view()[x],
                    ),
            decreases rb.pages@.len() - j,
        {
            let rp = &rb.pages[j];
            let mut lines: Vec<Line> = Vec::new();
            let mut l: usize = 0;
            while l < rp.lines.len()
                invariant
                    l <= rp.lines@.len(),
                    lines@.len() == l,
                    forall|x: int|
                        0 <= x < l ==> #[trigger] lines.deep_view()[x] == spec_line_model(
                            x,
                            rp.lines.deep_view()[x],
                        ),
                decreases rp.lines@.len() - l,
            {
                let buf = render_segs(&rp.lines[l]);
                let text = decode_string(&buf);
                let line = Line { id: l as u64, text };
                proof {
                    assert(line.deep_view() == spec_line_model(
                        l as int,
                        rp.lines.deep_view()[l as int],
                    ));
                }
                let ghost prevl = lines.deep_view();
                lines.push(line);
                proof {
                    assert forall|x: int|
                        0 <= x < l + 1 implies #[trigger] lines.deep_view()[x] == spec_line_model(
                        x,
                        rp.lines.deep_view()[x],
                    ) by {
                        if x < l {
                            assert(lines.deep_view()[x] == prevl[x]);
                        } else {
                            assert(lines.deep_view()[x] == line.deep_view());
                        }
                    }
                }
                l = l + 1;
            }
            let page = Page {
                id: j as u64,
                image_x: rp.image_x,
                image_y: rp.image_y,
                image_id: rp.image_id,
                lines,
            };
            proof {
                let pv = rb.pages.deep_view()[j as int];
                assert(page.lines.deep_view() =~= Seq::new(
                    pv.lines.len(),
                    |l: int| spec_line_model(l, pv.lines[l]),
                ));
                assert(page.deep_view() == spec_page_model(j as int, pv));
            }
            let ghost prevp = pages.deep_view();
            pages.push(page);
            proof {
                assert forall|x: int|
                    0 <= x < j + 1 implies #[trigger] pages.deep_view()[x] == spec_page_model(
                    x,
                    rb.pages.deep_view()[x],
                ) by {
                    if x < j {
                        assert(pages.deep_view()[x] == prevp[x]);
                    } else {
                        assert(pages.deep_view()[x] == page.deep_view());
                    }
                }
            }
            j = j + 1;
        }
        let book = Book { id: i as u64, name, pages };
        proof {
            let bv = raw.deep_view()[i as int];
            assert(book.pages.deep_view() =~= Seq::new(
                bv.pages.len(),
                |j: int| spec_page_model(j, bv.pages[j]),
            ));
            assert(book.deep_view() == spec_book_model_one(i as int, bv));
        }
        let ghost prevb = books.deep_view();
        books.push(book);
        proof {
            assert forall|x: int|
                0 <= x < i + 1 implies #[trigger] books.deep_view()[x] == spec_book_model_one(
                x,
                raw.deep_view()[x],
            ) by {
                if x < i {
                    assert(books.deep_view()[x] == prevb[x]);
                } else {
                    assert(books.deep_view()[x] == book.deep_view());
                }
            }
        }
        i = i + 1;
    }
    proof {
        assert(books.deep_view() =~= spec_book_model(raw.deep_view()));
    }
    books
}

/// Decodes a whole book-table blob into the book model.
pub fn books_from_byte_data(blob: &Vec<u8>) -> (r: Result<Vec<Book>, DtError>)
    ensures
        match spec_parse_books(blob@) {
            Ok(raw) => r matches Ok(o) && o.deep_view() == spec_book_model(raw),
            Err(e) => r == Err::<Vec<Book>, DtError>(e),
        },
{
    match parse_books(blob) {
        Ok(raw) => Ok(raw_to_books(&raw)),
        Err(e) => Err(e),
    }
}

} // verus!

verus! {

pub open spec fn is_digit_char(c: char) -> bool {
    0x30 <= c as int <= 0x39
}

/// The first position at or after `j` whose character is not an ASCII digit.
pub open spec fn digit_run_end(s: Seq<char>, j: int) -> int
    decreases s.len() - j,
{
    if j < 0 || j >= s.len() || !is_digit_char(s[j]) {
        j
    } else {
        digit_run_end(s, j + 1)
    }
}

/// The position of the first closing angle bracket at or after `j`, or the
/// end of the text.
pub open spec fn gt_end(s: Seq<char>, j: int) -> int
    decreases s.len() - j,
{
    if j < 0 || j >= s.len() {
        j
    } else if s[j] == '>' {
        j
    } else {
        gt_end(s, j + 1)
    }
}

pub proof fn lemma_gt_end_bounds(s: Seq<char>, j: int)
    requires
        0 <= j <= s.len(),
    ensures
        j <= gt_end(s, j) <= s.len(),
    decreases s.len() - j,
{
    if j < s.len() && s[j] != '>' {
        lemma_gt_end_bounds(s, j + 1);
    }
}

pub proof fn lemma_digit_run_bounds(s: Seq<char>, j: int)
    requires
        0 <= j <= s.len(),
    ensures
        j <= digit_run_end(s, j) <= s.len(),
    decreases s.len() - j,
{
    if j < s.len() && is_digit_char(s[j]) {
        lemma_digit_run_bounds(s, j + 1);
    }
}

/// The bytes the legacy charset encoder yields for one character.
pub open spec fn char_bytes(c: char) -> Seq<u8> {
    crate::text::sjis_encode_of(seq![c])
}

/// Each byte as its own literal segment.
pub open spec fn lits_of(bs: Seq<u8>) -> Seq<SegV> {
    Seq::new(bs.len(), |k: int| SegV::Lit(bs[k]))
}

pub open spec fn cons_seg_res(x: SegV, r: Result<Seq<SegV>, DtError>) -> Result<
    Seq<SegV>,
    DtError,
> {
    match r {
        Ok(rest) => Ok(seq![x] + rest),
        Err(e) => Err(e),
    }
}

pub open spec fn cons_segs_res(xs: Seq<SegV>, r: Result<Seq<SegV>, DtError>) -> Result<
    Seq<SegV>,
    DtError,
> {
    match r {
        Ok(rest) => Ok(xs + rest),
        Err(e) => Err(e),
    }
}

/// Scans a line's text left to right back into segments: a `<C:` marker reads
/// its decimal digits and skips past the closing bracket, an `<S:` marker
/// reads exactly one following character and skips the spelled five-character
/// form, and any other character encodes through the legacy charset. A
/// malformed marker — digits missing or too large for a color byte, or a size
/// marker without a plain one-byte value — fails the conversion.
pub open spec fn spec_scan_text(s: Seq<char>, i: int) -> Result<Seq<SegV>, DtError>
    decreases s.len() - i,
{
    proof {
        if 0 <= i <= s.len() {
            lemma_gt_end_bounds(s, i);
        }
    }
    if i < 0 {
        Err(DtError::TruncatedInput)
    } else if i >= s.len() {
        Ok(seq![])
    } else {
        let c = s[i];
        if c == '<' && i + 3 <= s.len() && s[i + 1] == 'C' && s[i + 2] == ':' {
            let de = digit_run_end(s, i + 3);
            let ds = Seq::new((de - (i + 3)) as nat, |k: int| (s[i + 3 + k] as u8));
            if ds.len() == 0 || crate::digits::dec_val(ds) > 255 {
                Err(DtError::MalformedDirective { at: i as usize })
            } else {
                let g = gt_end(s, i);
                let next = if g < s.len() {
                    g + 1
                } else {
                    s.len() as int
                };
                cons_seg_res(SegV::Color(crate::digits::dec_val(ds) as u8), spec_scan_text(s, next))
            }
        } else if c == '<' && i + 3 <= s.len() && s[i + 1] == 'S' && s[i + 2] == ':' {
            if i + 4 <= s.len() && (s[i + 3] as int) < 128 {
                let next = if i + 5 <= s.len() {
                    i + 5
                } else {
                    s.len() as int
                };
                cons_seg_res(SegV::Size(seq![(s[i + 3] as u8)]), spec_scan_text(s, next))
            } else {
                Err(DtError::MalformedDirective { at: i as usize })
            }
        } else {
            cons_segs_res(lits_of(char_bytes(c)), spec_scan_text(s, i + 1))
        }
    }
}

} // verus!

verus! {

/// Scans a line's text back into segments, as the encoder's marker grammar
/// reads it.
#[verifier::loop_isolation(false)]
#[verifier::rlimit(100)]
pub fn scan_line_text(text: &str) -> (r: Result<Vec<Seg>, DtError>)
    ensures
        match spec_scan_text(text@, 0) {
            Ok(sv) => r matches Ok(o) && o.deep_view() == sv,
            Err(e) => r == Err::<Vec<Seg>, DtError>(e),
        },
{
    let ghost s = text@;
    let len = text.unicode_len();
    let mut segs: Vec<Seg> = Vec::new();
    let mut i: usize = 0;
    proof {
        assert(segs.deep_view() =~= Seq::<SegV>::empty());
    }
    while i < len
        invariant
            i <= len,
            len == s.len(),
            s == text@,
            spec_scan_text(s, 0) == ({
                match spec_scan_text(s, i as int) {
                    Ok(rest) => Ok::<Seq<SegV>, DtError>(segs.deep_view() + rest),
                    Err(e) => Err(e),
                }
            }),
        decreases len - i,
    {
        let ghost rest0 = spec_scan_text(s, i as int);
        let c = text.get_char(i);
        let is_marker: bool = c == '<' && len - i >= 3;
        let kind: u8 = if is_marker {
            let c1 = text.get_char(i + 1);
            let c2 = text.get_char(i + 2);
            if c1 == 'C' && c2 == ':' {
                1
            } else if c1 == 'S' && c2 == ':' {
                2
            } else {
                0
            }
        } else {
            0
        };
        if kind == 1 {
            // color marker: read the decimal digits after it
            assert(len - i >= 3);
            let mut j: usize = i + 3;
            let mut val: u32 = 0;
            let ghost run = Seq::new(
                (digit_run_end(s, i + 3) - (i + 3)) as nat,
                |k: int| (s[i + 3 + k] as u8),
            );
            proof {
                lemma_digit_run_bounds(s, i + 3);
                assert(Seq::new(0nat, |k: int| (s[i + 3 + k] as u8)) =~= Seq::<u8>::empty());
            }
            while j < len && char_digit_at(text, j)
                invariant
                    i + 3 <= j <= len,
                    digit_run_end(s, i + 3) == digit_run_end(s, j as int),
                    j <= digit_run_end(s, i + 3) <= len,
                    crate::digits::all_digits(
                        Seq::new((j - (i + 3)) as nat, |k: int| (s[i + 3 + k] as u8)),
                    ),
                    val == crate::digits::dec_val(
                        Seq::new((j - (i + 3)) as nat, |k: int| (s[i + 3 + k] as u8)),
                    ),
                    val <= 255,
                decreases len - j,
            {
                let cj = text.get_char(j);
                assert(is_digit_char(s[j as int]));
                let d: u32 = (cj as u32) - 0x30;
                proof {
                    let prev = Seq::new((j - (i + 3)) as nat, |k: int| (s[i + 3 + k] as u8));
                    let nextds = Seq::new((j + 1 - (i + 3)) as nat, |k: int| (s[i + 3 + k] as u8));
                    assert(nextds.drop_last() =~= prev);
                    assert(nextds.last() == (s[j as int] as u8));
                    assert(is_digit_char(s[j as int]));
                    assert(crate::digits::dec_val(nextds) == val * 10 + ((s[j as int] as u8)
                        - 0x30));
                    assert forall|k: int|
                        0 <= k < nextds.len() implies crate::digits::is_digit(
                        #[trigger] nextds[k],
                    ) by {
                        if k < prev.len() {
                            assert(nextds[k] == prev[k]);
                        } else {
                            assert(nextds[k] == (s[j as int] as u8));
                        }
                    }
                }
                let next_val: u32 = val * 10 + d;
                if next_val > 255 {
                    proof {
                        let nextds = Seq::new(
                            (j + 1 - (i + 3)) as nat,
                            |k: int| (s[i + 3 + k] as u8),
                        );
                        let de = digit_run_end(s, i + 3);
                        assert(j < de) by {
                            assert(is_digit_char(s[j as int]));
                            assert(digit_run_end(s, j as int) == digit_run_end(s, j + 1));
                            lemma_digit_run_bounds(s, j + 1);
                        }
                        assert(run.take(j + 1 - (i + 3)) =~= nextds);
                        assert(crate::digits::all_digits(run)) by {
                            assert forall|k: int|
                                0 <= k < run.len() implies crate::digits::is_digit(
                                #[trigger] run[k],
                            ) by {
                                lemma_run_digit(s, i + 3, i + 3 + k);
                            }
                        }
                        crate::digits::lemma_dec_val_monotone(run, j + 1 - (i + 3));
                        assert(crate::digits::dec_val(run) > 255);
                        assert(run.len() > 0);
                    }
                    return Err(DtError::MalformedDirective { at: i });
                }
                val = next_val;
                j = j + 1;
                proof {
                    assert(digit_run_end(s, (j - 1) as int) == digit_run_end(s, j as int));
                    lemma_digit_run_bounds(s, j as int);
                }
            }
            proof {
                assert(digit_run_end(s, j as int) == j) by {
                    if j < len {
                        assert(!is_digit_char(s[j as int]));
                    }
                }
                assert(run =~= Seq::new((j - (i + 3)) as nat, |k: int| (s[i + 3 + k] as u8)));
            }
            if j == i + 3 {
                proof {
                    assert(run.len() == 0);
                }
                return Err(DtError::MalformedDirective { at: i });
            }
            // skip to just past the closing bracket
            let mut g: usize = i;
            proof {
                lemma_gt_end_bounds(s, i as int);
            }
            while g < len && text.get_char(g) != '>'
                invariant
                    i <= g <= len,
                    gt_end(s, i as int) == gt_end(s, g as int),
                    g <= gt_end(s, i as int) <= len,
                decreases len - g,
            {
                g = g + 1;
                proof {
                    assert(gt_end(s, (g - 1) as int) == gt_end(s, g as int));
                    lemma_gt_end_bounds(s, g as int);
                }
            }
            proof {
                assert(gt_end(s, g as int) == g);
            }
            let next: usize = if g < len {
                g + 1
            } else {
                len
            };
            let ghost prev_dv = segs.deep_view();
            segs.push(Seg::Color(val as u8));
            proof {
                assert(segs.deep_view() =~= prev_dv.push(SegV::Color(val as u8)));
                assert(SegV::Color(crate::digits::dec_val(run) as u8) == SegV::Color(val as u8));
                if let Ok(rest) = spec_scan_text(s, next as int) {
                    assert(prev_dv + (seq![SegV::Color(val as u8)] + rest) =~= segs.deep_view()
                        + rest);
                }
            }
            i = next;
        } else if kind == 2 {
            // size marker: exactly one plain character follows
            if len - i < 4 {
                return Err(DtError::MalformedDirective { at: i });
            }
            let c3 = text.get_char(i + 3);
            let u3 = c3 as u32;
            if u3 >= 128 {
                return Err(DtError::MalformedDirective { at: i });
            }
            let next: usize = if len - i >= 5 {
                i + 5
            } else {
                len
            };
            let mut bs: Vec<u8> = Vec::new();
            bs.push(u3 as u8);
            let ghost prev_dv = segs.deep_view();
            let ghost sv = SegV::Size(seq![(s[i + 3] as u8)]);
            proof {
                assert(bs@ =~= seq![(s[i + 3] as u8)]);
            }
            segs.push(Seg::Size(bs));
            proof {
                assert(segs.deep_view() =~= prev_dv.push(sv));
                if let Ok(rest) = spec_scan_text(s, next as int) {
                    assert(prev_dv + (seq![sv] + rest) =~= segs.deep_view() + rest);
                }
            }
            i = next;
        } else {
            // plain character: encode it through the legacy charset
            let bytes = crate::text::encode_char(c);
            let ghost prev_dv = segs.deep_view();
            let mut x: usize = 0;
            while x < bytes.len()
                invariant
                    x <= bytes@.len(),
                    bytes@ == char_bytes(s[i as int]),
                    segs.deep_view() == prev_dv + lits_of(bytes@.take(x as int)),
                decreases bytes@.len() - x,
            {
                let ghost before = segs.deep_view();
                segs.push(Seg::Lit(bytes[x]));
                proof {
                    assert(segs.deep_view() =~= before.push(SegV::Lit(bytes@[x as int])));
                    assert(lits_of(bytes@.take(x + 1)) =~= lits_of(bytes@.take(x as int)).push(
                        SegV::Lit(bytes@[x as int]),
                    ));
                    assert(prev_dv + lits_of(bytes@.take(x + 1)) =~= (prev_dv + lits_of(
                        bytes@.take(x as int),
                    )).push(SegV::Lit(bytes@[x as int])));
                }
                x = x + 1;
            }
            proof {
                assert(bytes@.take(bytes@.len() as int) =~= bytes@);
                assert(segs.deep_view() =~= prev_dv + lits_of(char_bytes(s[i as int])));
                if let Ok(rest) = spec_scan_text(s, i + 1) {
                    assert(prev_dv + (lits_of(char_bytes(s[i as int])) + rest) =~= segs.deep_view()
                        + rest);
                }
            }
            i = i + 1;
        }
    }
    proof {
        assert(spec_scan_text(s, i as int) == Ok::<Seq<SegV>, DtError>(Seq::empty()));
        assert(segs.deep_view() + Seq::<SegV>::empty() =~= segs.deep_view());
    }
    Ok(segs)
}

/// Whether the character at `j` is an ASCII digit.
fn char_digit_at(text: &str, j: usize) -> (r: bool)
    requires
        j < text@.len(),
    ensures
        r == is_digit_char(text@[j as int]),
{
    let c = text.get_char(j);
    c >= '0' && c <= '9'
}

/// Every position inside a digit run holds a digit.
proof fn lemma_run_digit(s: Seq<char>, start: int, p: int)
    requires
        0 <= start <= p < digit_run_end(s, start),
        start <= s.len(),
    ensures
        is_digit_char(s[p]),
        crate::digits::is_digit(s[p] as u8),
    decreases p - start,
{
    lemma_digit_run_bounds(s, start);
    assert(is_digit_char(s[start]));
    if p > start {
        lemma_run_digit(s, start + 1, p);
    }
}

} // verus!

verus! {

/// Each line's text scanned back into segments; the first malformed marker
/// fails the whole conversion.
pub open spec fn spec_lines_raw(lines: Seq<LineM>) -> Result<Seq<Seq<SegV>>, DtError>
    decreases lines.len(),
{
    if lines.len() == 0 {
        Ok(seq![])
    } else {
        match spec_scan_text(lines[0].text, 0) {
            Err(e) => Err(e),
            Ok(segs) => match spec_lines_raw(lines.drop_first()) {
                Err(e) => Err(e),
                Ok(rest) => Ok(seq![segs] + rest),
            },
        }
    }
}

pub open spec fn spec_pages_raw(pages: Seq<PageM>) -> Result<Seq<PageV>, DtError>
    decreases pages.len(),
{
    if pages.len() == 0 {
        Ok(seq![])
    } else {
        match spec_lines_raw(pages[0].lines) {
            Err(e) => Err(e),
            Ok(lines) => match spec_pages_raw(pages.drop_first()) {
                Err(e) => Err(e),
                Ok(rest) => Ok(
                    seq![
                        PageV {
                            image_x: pages[0].image_x,
                            image_y: pages[0].image_y,
                            image_id: pages[0].image_id,
                            lines,
                        },
                    ] + rest,
                ),
            },
        }
    }
}

/// The raw books a model encodes to: names pass through the legacy charset,
/// line text is scanned back into segments. Identifiers play no part.
pub open spec fn spec_books_raw(books: Seq<BookM>) -> Result<Seq<BookV>, DtError>
    decreases books.len(),
{
    if books.len() == 0 {
        Ok(seq![])
    } else {
        match spec_pages_raw(books[0].pages) {
            Err(e) => Err(e),
            Ok(pages) => match spec_books_raw(books.drop_first()) {
                Err(e) => Err(e),
                Ok(rest) => Ok(
                    seq![BookV { name: crate::text::sjis_encode_of(books[0].name), pages }] + rest,
                ),
            },
        }
    }
}

/// Converts the book model back to raw books, scanning each line's markers.
#[verifier::loop_isolation(false)]
pub fn books_to_raw(books: &Vec<Book>) -> (r: Result<Vec<RawBook>, DtError>)
    ensures
        match spec_books_raw(books.deep_view()) {
            Ok(raw) => r matches Ok(o) && o.deep_view() == raw,
            Err(e) => r == Err::<Vec<RawBook>, DtError>(e),
        },
{
    let ghost bdv = books.deep_view();
    let mut raws: Vec<RawBook> = Vec::new();
    let mut i: usize = 0;
    proof {
        assert(bdv.skip(0) =~= bdv);
        assert(raws.deep_view() =~= Seq::<BookV>::empty());
    }
    while i < books.len()
        invariant
            i <= books@.len(),
            bdv == books.deep_view(),
            spec_books_raw(bdv) == ({
                match spec_books_raw(bdv.skip(i as int)) {
                    Ok(rest) => Ok::<Seq<BookV>, DtError>(raws.deep_view() + rest),
                    Err(e) => Err(e),
                }
            }),
        decreases books@.len() - i,
    {
        let book = &books[i];
        let ghost bm = bdv[i as int];
        let name = crate::text::encode_string(book.name.as_str());
        let ghost pdv = book.pages.deep_view();
        let mut pages: Vec<RawPage> = Vec::new();
        let mut j: usize = 0;
        proof {
            assert(bm.pages == pdv);
            assert(pdv.skip(0) =~= pdv);
            assert(pages.deep_view() =~= Seq::<PageV>::empty());
        }
        while j < book.pages.len()
            invariant
                j <= book.pages@.len(),
                pdv == book.pages.deep_view(),
                spec_pages_raw(pdv) == ({
                    match spec_pages_raw(pdv.skip(j as int)) {
                        Ok(rest) => Ok::<Seq<PageV>, DtError>(pages.deep_view() + rest),
                        Err(e) => Err(e),
                    }
                }),
            decreases book.pages@.len() - j,
        {
            let page = &book.pages[j];
            let ghost pm = pdv[j as int];
            let ghost ldv = page.lines.deep_view();
            let mut lines: Vec<Vec<Seg>> = Vec::new();
            let mut l: usize = 0;
            proof {
                assert(pm.lines == ldv);
                assert(ldv.skip(0) =~= ldv);
                assert(lines.deep_view() =~= Seq::<Seq<SegV>>::empty());
            }
            while l < page.lines.len()
                invariant
                    l <= page.lines@.len(),
                    ldv == page.lines.deep_view(),
                    spec_lines_raw(ldv) == ({
                        match spec_lines_raw(ldv.skip(l as int)) {
                            Ok(rest) => Ok::<Seq<Seq<SegV>>, DtError>(lines.deep_view() + rest),
                            Err(e) => Err(e),
                        }
                    }),
                decreases page.lines@.len() - l,
            {
                proof {
                    assert(ldv.skip(l as int)[0] == ldv[l as int]);
                    assert(ldv.skip(l as int).drop_first() =~= ldv.skip(l + 1));
                }
                match scan_line_text(page.lines[l].text.as_str()) {
                    Err(e) => {
                        return Err(e);
                    },
                    Ok(segs) => {
                        let ghost segs_dv = segs.deep_view();
                        let ghost prev = lines.deep_view();
                        lines.push(segs);
                        proof {
                            assert(lines.deep_view() =~= prev.push(segs_dv));
                            if let Ok(rest) = spec_lines_raw(ldv.skip(l + 1)) {
                                assert(prev + (seq![segs_dv] + rest) =~= lines.deep_view() + rest);
                            }
                        }
                        l = l + 1;
                    },
                }
            }
            proof {
                assert(ldv.skip(l as int) =~= Seq::<LineM>::empty());
                assert(lines.deep_view() + Seq::<Seq<SegV>>::empty() =~= lines.deep_view());
                assert(pdv.skip(j as int)[0] == pdv[j as int]);
                assert(pdv.skip(j as int).drop_first() =~= pdv.skip(j + 1));
            }
            let rp = RawPage {
                image_x: page.image_x,
                image_y: page.image_y,
                image_id: page.image_id,
                lines,
            };
            let ghost rpv = PageV {
                image_x: pm.image_x,
                image_y: pm.image_y,
                image_id: pm.image_id,
                lines: spec_lines_raw(ldv)->Ok_0,
            };
            let ghost prevp = pages.deep_view();
            proof {
                assert(rp.deep_view() == rpv);
            }
            pages.push(rp);
            proof {
                assert(pages.deep_view() =~= prevp.push(rpv));
                if let Ok(rest) = spec_pages_raw(pdv.skip(j + 1)) {
                    assert(prevp + (seq![rpv] + rest) =~= pages.deep_view() + rest);
                }
            }
            j = j + 1;
        }
        proof {
            assert(pdv.skip(j as int) =~= Seq::<PageM>::empty());
            assert(pages.deep_view() + Seq::<PageV>::empty() =~= pages.deep_view());
            assert(bdv.skip(i as int)[0] == bdv[i as int]);
            assert(bdv.skip(i as int).drop_first() =~= bdv.skip(i + 1));
        }
        let rb = RawBook { name, pages };
        let ghost rbv = BookV {
            name: crate::text::sjis_encode_of(bm.name),
            pages: spec_pages_raw(pdv)->Ok_0,
        };
        let ghost prevb = raws.deep_view();
        proof {
            assert(rb.deep_view() == rbv);
        }
        raws.push(rb);
        proof {
            assert(raws.deep_view() =~= prevb.push(rbv));
            if let Ok(rest) = spec_books_raw(bdv.skip(i + 1)) {
                assert(prevb + (seq![rbv] + rest) =~= raws.deep_view() + rest);
            }
        }
        i = i + 1;
    }
    proof {
        assert(bdv.skip(i as int) =~= Seq::<BookM>::empty());
        assert(raws.deep_view() + Seq::<BookV>::empty() =~= raws.deep_view());
    }
    Ok(raws)
}

/// Encodes the book model into a whole book-table blob: scans each line's
/// markers, re-encodes the text, and rebuilds the pointer table.
pub fn books_to_byte_data(books: &Vec<Book>) -> (r: Result<Vec<u8>, DtError>)
    ensures
        match spec_books_raw(books.deep_view()) {
            Ok(raw) => r matches Ok(o) && o@ == crate::emit::spec_emit_books(raw),
            Err(e) => r == Err::<Vec<u8>, DtError>(e),
        },
{
    match books_to_raw(books) {
        Ok(raw) => Ok(crate::emit::emit_books(&raw)),
        Err(e) => Err(e),
    }
}

/// Re-encoding is deterministic: any two encodings of the same book model are
/// byte-identical.
pub proof fn lemma_encode_idempotent(books: Seq<BookM>, r1: Seq<u8>, r2: Seq<u8>)
    requires
        spec_books_raw(books) is Ok,
        r1 == crate::emit::spec_emit_books(spec_books_raw(books)->Ok_0),
        r2 == crate::emit::spec_emit_books(spec_books_raw(books)->Ok_0),
    ensures
        r1 == r2,
{
}

} // verus!

verus! {

/// Identifiers are dense, zero-based positions: every decoded book, page and
/// line carries exactly its index in its parent sequence.
pub proof fn lemma_model_ids_positional(raw: Seq<BookV>)
    ensures
        forall|i: int| 0 <= i < raw.len() ==> #[trigger] spec_book_model(raw)[i].id == i as u64,
        forall|i: int, j: int|
            0 <= i < raw.len() && 0 <= j < raw[i].pages.len() ==> #[trigger] spec_book_model(
                raw,
            )[i].pages[j].id == j as u64,
        forall|i: int, j: int, l: int|
            0 <= i < raw.len() && 0 <= j < raw[i].pages.len() && 0 <= l
                < raw[i].pages[j].lines.len() ==> #[trigger] spec_book_model(
                raw,
            )[i].pages[j].lines[l].id == l as u64,
{
}

} // verus!
