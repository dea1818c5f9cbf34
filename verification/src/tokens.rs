use vstd::prelude::*;
use crate::digits::spec_parse_u16;
use crate::digits::parse_u16_dec;
use crate::errors::DtError;

verus! {

/// One piece of a line's content, at the binary level: a literal text byte, a
/// color directive value, or a size directive's raw value bytes.
pub enum Seg {
    Lit(u8),
    Color(u8),
    Size(Vec<u8>),
}

/// The mathematical shape of a `Seg`.
pub enum SegV {
    Lit(u8),
    Color(u8),
    Size(Seq<u8>),
}

impl View for Seg {
    type V = SegV;

    open spec fn view(&self) -> SegV {
        match self {
            Seg::Lit(b) => SegV::Lit(*b),
            Seg::Color(n) => SegV::Color(*n),
            Seg::Size(bs) => SegV::Size(bs@),
        }
    }
}

impl DeepView for Seg {
    type V = SegV;

    open spec fn deep_view(&self) -> SegV {
        self.view()
    }
}

/// One token of the content region's control-byte grammar.
#[derive(Debug)]
pub enum Tok {
    Lit(u8),
    Color(u8),
    SizeTok(Vec<u8>),
    ImgX(u16),
    ImgY(u16),
    ImgId(u16),
    Skip,
    EndLine,
    EndPage,
    EndBook,
}

/// The mathematical shape of a `Tok`.
pub enum TokV {
    Lit(u8),
    Color(u8),
    SizeTok(Seq<u8>),
    ImgX(u16),
    ImgY(u16),
    ImgId(u16),
    Skip,
    EndLine,
    EndPage,
    EndBook,
}

impl View for Tok {
    type V = TokV;

    open spec fn view(&self) -> TokV {
        match self {
            Tok::Lit(b) => TokV::Lit(*b),
            Tok::Color(n) => TokV::Color(*n),
            Tok::SizeTok(bs) => TokV::SizeTok(bs@),
            Tok::ImgX(v) => TokV::ImgX(*v),
            Tok::ImgY(v) => TokV::ImgY(*v),
            Tok::ImgId(v) => TokV::ImgId(*v),
            Tok::Skip => TokV::Skip,
            Tok::EndLine => TokV::EndLine,
            Tok::EndPage => TokV::EndPage,
            Tok::EndBook => TokV::EndBook,
        }
    }
}

/// A byte that ends a formatting sub-scan: `F`, `S`, `x` or `y`.
pub open spec fn fmt_terminator(b: u8) -> bool {
    b == 0x46 || b == 0x53 || b == 0x78 || b == 0x79
}

/// The formatting sub-scan: value bytes accumulate until a terminator byte
/// picks the directive's meaning. `vs` is the position where the value began,
/// kept for error reporting.
pub open spec fn spec_fmt_value(blob: Seq<u8>, i: int, acc: Seq<u8>, vs: int) -> Result<
    (TokV, int),
    DtError,
>
    decreases blob.len() - i,
{
    if i < 0 || i >= blob.len() {
        Err(DtError::TruncatedInput)
    } else {
        let b = blob[i];
        if b == 0x46 {
            match spec_parse_u16(acc) {
                Some(v) => Ok((TokV::ImgId(v), i + 1)),
                None => Err(DtError::MalformedDirective { at: vs as usize }),
            }
        } else if b == 0x78 {
            match spec_parse_u16(acc) {
                Some(v) => Ok((TokV::ImgX(v), i + 1)),
                None => Err(DtError::MalformedDirective { at: vs as usize }),
            }
        } else if b == 0x79 {
            match spec_parse_u16(acc) {
                Some(v) => Ok((TokV::ImgY(v), i + 1)),
                None => Err(DtError::MalformedDirective { at: vs as usize }),
            }
        } else if b == 0x53 {
            Ok((TokV::SizeTok(acc), i + 1))
        } else {
            spec_fmt_value(blob, i + 1, acc.push(b), vs)
        }
    }
}

/// The tokenizer's transition function: classifies the byte at `pos` and
/// returns the token together with the position of the next unread byte.
/// Reading at or past the end of the input yields the end-of-book token, as
/// the format treats end of file like the end-of-book byte.
pub open spec fn spec_next_token(blob: Seq<u8>, pos: int) -> Result<(TokV, int), DtError> {
    if pos < 0 {
        Err(DtError::TruncatedInput)
    } else if pos >= blob.len() {
        Ok((TokV::EndBook, pos))
    } else {
        let b = blob[pos];
        if b == 0x00 {
            Ok((TokV::EndBook, pos + 1))
        } else if b == 0x01 {
            Ok((TokV::EndLine, pos + 1))
        } else if b == 0x02 {
            Ok((TokV::EndPage, pos + 1))
        } else if b == 0x03 {
            Ok((TokV::Skip, pos + 1))
        } else if b == 0x07 {
            if blob.len() - pos >= 2 {
                Ok((TokV::Color(blob[pos + 1]), pos + 2))
            } else {
                Err(DtError::TruncatedInput)
            }
        } else if b == 0x23 {
            if blob.len() - pos >= 2 {
                if blob[pos + 1] == 0x46 {
                    Ok((TokV::ImgId(0xFFF), pos + 2))
                } else {
                    spec_fmt_value(blob, pos + 2, seq![blob[pos + 1]], pos + 1)
                }
            } else {
                Err(DtError::TruncatedInput)
            }
        } else {
            Ok((TokV::Lit(b), pos + 1))
        }
    }
}

pub open spec fn tok_res_view(r: Result<(Tok, usize), DtError>) -> Result<(TokV, int), DtError> {
    match r {
        Ok(t) => Ok((t.0@, t.1 as int)),
        Err(e) => Err(e),
    }
}

/// A successful formatting sub-scan stays inside the input and ends exactly on
/// a terminator byte; failures are truncation or a malformed number.
pub proof fn lemma_fmt_value_props(blob: Seq<u8>, i: int, acc: Seq<u8>, vs: int)
    ensures
        match spec_fmt_value(blob, i, acc, vs) {
            Ok(t) => i < t.1 <= blob.len() && fmt_terminator(blob[t.1 - 1]),
            Err(e) => e == DtError::TruncatedInput || e matches DtError::MalformedDirective { .. },
        },
    decreases blob.len() - i,
{
    if 0 <= i < blob.len() {
        let b = blob[i];
        if b != 0x46 && b != 0x78 && b != 0x79 && b != 0x53 {
            lemma_fmt_value_props(blob, i + 1, acc.push(b), vs);
        }
    }
}

/// A token never reaches back before `pos`; within the input it advances by at
/// least one byte and stays inside the input.
pub proof fn lemma_next_token_bounds(blob: Seq<u8>, pos: int)
    requires
        pos >= 0,
    ensures
        match spec_next_token(blob, pos) {
            Ok(t) => pos <= t.1 && (pos < blob.len() ==> pos < t.1 <= blob.len()) && (pos
                >= blob.len() ==> t.1 == pos && t.0 == TokV::EndBook),
            Err(e) => true,
        },
{
    if pos < blob.len() {
        let b = blob[pos];
        if b == 0x23 && pos + 2 <= blob.len() && blob[pos + 1] != 0x46 {
            lemma_fmt_value_props(blob, pos + 2, seq![blob[pos + 1]], pos + 1);
        }
    }
}

/// Directive arity: the color byte consumes exactly one following byte, or
/// reports truncation when none follows; a formatting sub-scan ends only at
/// one of its terminator bytes inside the input, and reports truncation
/// rather than reading past the end.
pub proof fn lemma_directive_arity(blob: Seq<u8>, pos: int)
    requires
        0 <= pos < blob.len(),
    ensures
        blob[pos] == 0x07 && pos + 2 <= blob.len() ==> spec_next_token(blob, pos) == Ok::<
            (TokV, int),
            DtError,
        >((TokV::Color(blob[pos + 1]), pos + 2)),
        blob[pos] == 0x07 && pos + 2 > blob.len() ==> spec_next_token(blob, pos) == Err::<
            (TokV, int),
            DtError,
        >(DtError::TruncatedInput),
        blob[pos] == 0x23 ==> match spec_next_token(blob, pos) {
            Ok(t) => pos + 2 <= t.1 <= blob.len() && fmt_terminator(blob[t.1 - 1]),
            Err(e) => e == DtError::TruncatedInput || e matches DtError::MalformedDirective {
                ..
            },
        },
{
    if blob[pos] == 0x23 && pos + 2 <= blob.len() && blob[pos + 1] != 0x46 {
        lemma_fmt_value_props(blob, pos + 2, seq![blob[pos + 1]], pos + 1);
    }
}

/// Reads one token at `pos`.
#[verifier::loop_isolation(false)]
pub fn next_token(blob: &Vec<u8>, pos: usize) -> (r: Result<(Tok, usize), DtError>)
    ensures
        tok_res_view(r) == spec_next_token(blob@, pos as int),
{
    if pos >= blob.len() {
        return Ok((Tok::EndBook, pos));
    }
    let b = blob[pos];
    if b == 0x00 {
        Ok((Tok::EndBook, pos + 1))
    } else if b == 0x01 {
        Ok((Tok::EndLine, pos + 1))
    } else if b == 0x02 {
        Ok((Tok::EndPage, pos + 1))
    } else if b == 0x03 {
        Ok((Tok::Skip, pos + 1))
    } else if b == 0x07 {
        if blob.len() - pos >= 2 {
            Ok((Tok::Color(blob[pos + 1]), pos + 2))
        } else {
            Err(DtError::TruncatedInput)
        }
    } else if b == 0x23 {
        if blob.len() - pos >= 2 {
            let b1 = blob[pos + 1];
            if b1 == 0x46 {
                Ok((Tok::ImgId(0xFFF), pos + 2))
            } else {
                fmt_value(blob, pos + 2, b1, pos + 1)
            }
        } else {
            Err(DtError::TruncatedInput)
        }
    } else {
        Ok((Tok::Lit(b), pos + 1))
    }
}

/// Runs the formatting sub-scan that begins with first value byte `b0` at
/// position `i0 - 1`.
#[verifier::loop_isolation(false)]
fn fmt_value(blob: &Vec<u8>, i0: usize, b0: u8, vs: usize) -> (r: Result<(Tok, usize), DtError>)
    ensures
        tok_res_view(r) == spec_fmt_value(blob@, i0 as int, seq![b0], vs as int),
{
    let mut acc: Vec<u8> = Vec::new();
    acc.push(b0);
    let mut i: usize = i0;
    proof {
        assert(acc@ =~= seq![b0]);
    }
    loop
        invariant
            i0 <= i,
            spec_fmt_value(blob@, i0 as int, seq![b0], vs as int) == spec_fmt_value(
                blob@,
                i as int,
                acc@,
                vs as int,
            ),
        decreases blob@.len() + 1 - i,
    {
        if i >= blob.len() {
            return Err(DtError::TruncatedInput);
        }
        let b = blob[i];
        if b == 0x46 {
            match parse_u16_dec(&acc) {
                Some(v) => {
                    return Ok((Tok::ImgId(v), i + 1));
                },
                None => {
                    return Err(DtError::MalformedDirective { at: vs });
                },
            }
        } else if b == 0x78 {
            match parse_u16_dec(&acc) {
                Some(v) => {
                    return Ok((Tok::ImgX(v), i + 1));
                },
                None => {
                    return Err(DtError::MalformedDirective { at: vs });
                },
            }
        } else if b == 0x79 {
            match parse_u16_dec(&acc) {
                Some(v) => {
                    return Ok((Tok::ImgY(v), i + 1));
                },
                None => {
                    return Err(DtError::MalformedDirective { at: vs });
                },
            }
        } else if b == 0x53 {
            return Ok((Tok::SizeTok(acc), i + 1));
        } else {
            acc.push(b);
            i = i + 1;
        }
    }
}

} // verus!
