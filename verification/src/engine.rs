//! The engine: interprets a `Shape` over a byte buffer. The mathematical
//! interpreter (`parse_spec` and its helpers) fixes, for every input, the
//! exact outcome: the position and value of a success, or the committed
//! flag and the full diagnostic accumulator of a failure. The executable
//! interpreter is proved to return exactly that outcome.

use vstd::prelude::*;
use vstd::string::StringSliceAdditionalSpecFns;
use crate::error::{DiagKind, LowKind, ParseErr, SexpyError};
use crate::grammar::{SexpValue, Shape, Val};
use crate::parsers::{
    digit_end, digits_val, is_alpha, is_digit, lemma_digit_end, lemma_token_end, lemma_wb_end,
    token_end, wb_end,
};

verus! {

/// The outcome of a parse, in the mathematical model: the position after
/// the consumed input and the value, or the committed flag and the
/// diagnostics, deepest first.
pub enum PRes {
    Done { pos: int, val: Val },
    Fail { committed: bool, errs: Seq<(int, DiagKind)> },
}

impl PRes {
    /// Escalates a recoverable failure into a committed one: the commit
    /// point of `head` and of an opening delimiter.
    pub open spec fn cut(self) -> PRes {
        match self {
            PRes::Fail { committed: false, errs } => PRes::Fail { committed: true, errs },
            _ => self,
        }
    }

    /// Attaches a context label behind the diagnostics of a failure;
    /// successes and the committed flag pass through unchanged.
    pub open spec fn with_context(self, pos: int, label: Seq<u8>) -> PRes {
        match self {
            PRes::Fail { committed, errs } => PRes::Fail {
                committed,
                errs: errs.push((pos, DiagKind::Context(label))),
            },
            _ => self,
        }
    }
}

/// The context label a `head` attaches when the keyword does not match.
pub open spec fn incorrect_head_label() -> Seq<u8> {
    "incorrect head".spec_bytes()
}

/// The context label of a missing `)`.
pub open spec fn closing_paren_label() -> Seq<u8> {
    "closing paren".spec_bytes()
}

/// The context label of a missing `]`.
pub open spec fn closing_bracket_label() -> Seq<u8> {
    "closing bracket".spec_bytes()
}

/// The context label of a missing `}`.
pub open spec fn closing_brace_label() -> Seq<u8> {
    "closing brace".spec_bytes()
}

/// A text token: one or more ASCII letters, then every character up to the
/// next boundary.
pub open spec fn text_res(s: Seq<u8>, pos: int) -> PRes {
    if 0 <= pos < s.len() && is_alpha(s[pos]) {
        PRes::Done { pos: token_end(s, pos), val: Val::Text(s.subrange(pos, token_end(s, pos))) }
    } else {
        PRes::Fail { committed: false, errs: seq![(pos, DiagKind::Low(LowKind::Alpha))] }
    }
}

/// An unsigned decimal number at `pos`, bounded by `bound`: the position
/// after the digits and the value, or the diagnostics of the failure.
pub open spec fn uint_scan(s: Seq<u8>, pos: int, bound: int) -> Result<
    (int, int),
    Seq<(int, DiagKind)>,
> {
    if 0 <= pos < s.len() && is_digit(s[pos]) {
        let e = digit_end(s, pos);
        let v = digits_val(s, pos, e);
        if v <= bound {
            Ok((e, v))
        } else {
            Err(seq![(pos, DiagKind::Number)])
        }
    } else {
        Err(seq![(pos, DiagKind::Low(LowKind::Digit))])
    }
}

/// A signed decimal number at `pos`: an optional `-`, then digits whose
/// value is bounded by `bound`. The number diagnostic sits at the sign; a
/// missing digit run is reported after the sign.
pub open spec fn int_scan(s: Seq<u8>, pos: int, bound: int) -> Result<
    (int, int),
    Seq<(int, DiagKind)>,
> {
    let neg = 0 <= pos < s.len() && s[pos] == 45;
    let p = if neg {
        pos + 1
    } else {
        pos
    };
    if p < s.len() && is_digit(s[p]) {
        let e = digit_end(s, p);
        let v = digits_val(s, p, e);
        if v <= bound {
            Ok((e, if neg { -v } else { v }))
        } else {
            Err(seq![(pos, DiagKind::Number)])
        }
    } else {
        Err(seq![(p, DiagKind::Low(LowKind::Digit))])
    }
}

/// An unsigned 64-bit decimal number.
pub open spec fn u64_res(s: Seq<u8>, pos: int) -> PRes {
    match uint_scan(s, pos, u64::MAX as int) {
        Ok((p, v)) => PRes::Done { pos: p, val: Val::U64(v as u64) },
        Err(errs) => PRes::Fail { committed: false, errs },
    }
}

/// An unsigned 32-bit decimal number.
pub open spec fn u32_res(s: Seq<u8>, pos: int) -> PRes {
    match uint_scan(s, pos, u32::MAX as int) {
        Ok((p, v)) => PRes::Done { pos: p, val: Val::U32(v as u32) },
        Err(errs) => PRes::Fail { committed: false, errs },
    }
}

/// A signed 64-bit decimal number.
pub open spec fn i64_res(s: Seq<u8>, pos: int) -> PRes {
    match int_scan(s, pos, i64::MAX as int) {
        Ok((p, v)) => PRes::Done { pos: p, val: Val::I64(v as i64) },
        Err(errs) => PRes::Fail { committed: false, errs },
    }
}

/// A signed 32-bit decimal number.
pub open spec fn i32_res(s: Seq<u8>, pos: int) -> PRes {
    match int_scan(s, pos, i32::MAX as int) {
        Ok((p, v)) => PRes::Done { pos: p, val: Val::I32(v as i32) },
        Err(errs) => PRes::Fail { committed: false, errs },
    }
}

/// What parsing the shape `g` at `pos` yields.
pub open spec fn parse_spec(s: Seq<u8>, pos: int, g: Shape) -> PRes
    decreases g, s.len() - pos, 0int,
    when 0 <= pos <= s.len()
{
    match g {
        Shape::Text => text_res(s, pos),
        Shape::U64 => u64_res(s, pos),
        Shape::U32 => u32_res(s, pos),
        Shape::I64 => i64_res(s, pos),
        Shape::I32 => i32_res(s, pos),
        Shape::Maybe(b) => {
            proof {
                assert(decreases_to!(g => b));
            }
            match parse_spec(s, pos, *b) {
                PRes::Done { pos: p, val } => PRes::Done {
                    pos: p,
                    val: Val::Maybe(Some(Box::new(val))),
                },
                PRes::Fail { committed: true, errs } => PRes::Fail { committed: true, errs },
                PRes::Fail { committed: false, .. } => PRes::Done {
                    pos,
                    val: Val::Maybe(None),
                },
            }
        },
        Shape::Many(b) => {
            proof {
                assert(decreases_to!(g => b));
            }
            many_spec(s, pos, *b)
        },
        Shape::Tuple(shapes) => {
            proof {
                assert(decreases_to!(g => shapes));
                assert(decreases_to!(shapes => shapes@));
            }
            tuple_spec(s, pos, shapes@)
        },
        Shape::Alt(shapes) => {
            proof {
                assert(decreases_to!(g => shapes));
                assert(decreases_to!(shapes => shapes@));
            }
            alt_spec(s, pos, shapes@)
        },
        Shape::Head(tag, b) => {
            let te = token_end(s, pos);
            let tok = s.subrange(pos, te);
            if tok == tag@ {
                proof {
                    assert(decreases_to!(g => b));
                    lemma_token_end(s, pos);
                }
                parse_spec(s, te, *b).cut()
            } else {
                PRes::Fail {
                    committed: false,
                    errs: seq![
                        (pos, DiagKind::Word(tok)),
                        (pos, DiagKind::Context(incorrect_head_label())),
                    ],
                }
            }
        },
        Shape::Surround(b) => {
            proof {
                assert(decreases_to!(g => b));
            }
            if pos < s.len() && s[pos] == 40 {
                surround_close_spec(s, pos + 1, *b, 41, closing_paren_label())
            } else if pos < s.len() && s[pos] == 91 {
                surround_close_spec(s, pos + 1, *b, 93, closing_bracket_label())
            } else if pos < s.len() && s[pos] == 123 {
                surround_close_spec(s, pos + 1, *b, 125, closing_brace_label())
            } else {
                PRes::Fail { committed: false, errs: seq![(pos, DiagKind::Char(40u8))] }
            }
        },
        Shape::Context(label, b) => {
            proof {
                assert(decreases_to!(g => b));
            }
            parse_spec(s, pos, *b).with_context(pos, label@)
        },
        Shape::Padded(b) => {
            proof {
                assert(decreases_to!(g => b));
                lemma_wb_end(s, pos);
            }
            parse_spec(s, wb_end(s, pos), *b)
        },
        Shape::Wordbreak => PRes::Done { pos: wb_end(s, pos), val: Val::Unit },
    }
}

/// The rest of a surrounded form, after the opening delimiter was
/// consumed: a word break, the inner parse (committed from here on), a
/// word break, and the closing delimiter. A missing closer is a committed
/// failure tagged with `label`, positioned after the inner content.
pub open spec fn surround_close_spec(
    s: Seq<u8>,
    pos: int,
    inner: Shape,
    closer: u8,
    label: Seq<u8>,
) -> PRes
    decreases inner, s.len() - pos, 1int,
    when 0 <= pos <= s.len()
{
    let p2 = wb_end(s, pos);
    proof {
        lemma_wb_end(s, pos);
    }
    match parse_spec(s, p2, inner).cut() {
        PRes::Done { pos: p3, val } => {
            let p4 = wb_end(s, p3);
            if 0 <= p4 < s.len() && s[p4] == closer {
                PRes::Done { pos: p4 + 1, val }
            } else {
                PRes::Fail {
                    committed: true,
                    errs: seq![(p4, DiagKind::Char(closer)), (p4, DiagKind::Context(label))],
                }
            }
        },
        err => err,
    }
}

/// Zero or more repetitions of `inner`, each preceded by a word break.
/// The repetition ends before the first failing iteration, word break
/// included; an iteration that consumes nothing is a failure of the whole
/// repetition; a committed failure inside an iteration propagates.
pub open spec fn many_spec(s: Seq<u8>, pos: int, inner: Shape) -> PRes
    decreases inner, s.len() - pos, 1int,
    when 0 <= pos <= s.len()
{
    let p2 = wb_end(s, pos);
    proof {
        lemma_wb_end(s, pos);
    }
    match parse_spec(s, p2, inner) {
        PRes::Done { pos: p3, val } => {
            if pos < p3 <= s.len() {
                match many_spec(s, p3, inner) {
                    PRes::Done { pos: pr, val: rest } => PRes::Done {
                        pos: pr,
                        val: Val::List(seq![val] + rest->List_0),
                    },
                    err => err,
                }
            } else {
                PRes::Fail { committed: false, errs: seq![(pos, DiagKind::Low(LowKind::Many0))] }
            }
        },
        PRes::Fail { committed: true, errs } => PRes::Fail { committed: true, errs },
        PRes::Fail { committed: false, .. } => PRes::Done { pos, val: Val::List(Seq::empty()) },
    }
}

/// The shapes in order, each starting where the previous one stopped; the
/// first failure propagates unchanged.
pub open spec fn tuple_spec(s: Seq<u8>, pos: int, shapes: Seq<Shape>) -> PRes
    decreases shapes, s.len() - pos, 1int,
    when 0 <= pos <= s.len()
{
    if shapes.len() == 0 {
        PRes::Done { pos, val: Val::Tuple(Seq::empty()) }
    } else {
        proof {
            assert(decreases_to!(shapes => shapes[0]));
            assert(decreases_to!(shapes => shapes.subrange(1, shapes.len() as int)));
        }
        match parse_spec(s, pos, shapes[0]) {
            PRes::Done { pos: p1, val: v1 } => {
                if 0 <= p1 <= s.len() {
                    match tuple_spec(s, p1, shapes.subrange(1, shapes.len() as int)) {
                        PRes::Done { pos: p2, val: rest } => PRes::Done {
                            pos: p2,
                            val: Val::Tuple(seq![v1] + rest->Tuple_0),
                        },
                        err => err,
                    }
                } else {
                    PRes::Fail { committed: false, errs: seq![(pos, DiagKind::Low(LowKind::Alt))] }
                }
            },
            err => err,
        }
    }
}

/// The candidates in order against the same input. The first success wins;
/// a committed failure stops the alternation at once; when every candidate
/// fails recoverably, the last candidate's failure is the result.
pub open spec fn alt_spec(s: Seq<u8>, pos: int, shapes: Seq<Shape>) -> PRes
    decreases shapes, s.len() - pos, 1int,
    when 0 <= pos <= s.len()
{
    if shapes.len() == 0 {
        PRes::Fail { committed: false, errs: seq![(pos, DiagKind::Low(LowKind::Alt))] }
    } else {
        proof {
            assert(decreases_to!(shapes => shapes[0]));
            assert(decreases_to!(shapes => shapes.subrange(1, shapes.len() as int)));
        }
        let r = parse_spec(s, pos, shapes[0]);
        match r {
            PRes::Done { .. } => r,
            PRes::Fail { committed: true, .. } => r,
            PRes::Fail { committed: false, .. } => {
                if shapes.len() == 1 {
                    r
                } else {
                    alt_spec(s, pos, shapes.subrange(1, shapes.len() as int))
                }
            },
        }
    }
}

} // verus!

verus! {

/// The mathematical outcome an executable parse result stands for.
pub open spec fn res_model(r: Result<(usize, SexpValue), ParseErr>) -> PRes {
    match r {
        Ok(pv) => PRes::Done { pos: pv.0 as int, val: pv.1.model() },
        Err(e) => PRes::Fail { committed: e.committed(), errs: e.errs() },
    }
}

/// A label as a fresh byte vector.
pub fn mk_label(s: &str) -> (v: Vec<u8>)
    ensures
        v@ == s.spec_bytes(),
{
    vstd::slice::slice_to_vec(s.as_bytes())
}

/// Escalates a recoverable failure into a committed one; a committed
/// failure passes through.
pub fn commit(e: ParseErr) -> (r: ParseErr)
    ensures
        r.committed(),
        r.errs() == e.errs(),
{
    match e {
        ParseErr::Error(se) => ParseErr::Failure(se),
        ParseErr::Failure(se) => ParseErr::Failure(se),
    }
}

/// Attaches the context label `label`, recorded at `pos`, behind the
/// diagnostics of `e`; whether the failure is committed is unchanged.
pub fn context(pos: usize, label: Vec<u8>, e: ParseErr) -> (r: ParseErr)
    ensures
        r.committed() == e.committed(),
        r.errs() == e.errs().push((pos as int, DiagKind::Context(label@))),
{
    match e {
        ParseErr::Error(se) => ParseErr::Error(SexpyError::add_context(pos, label, se)),
        ParseErr::Failure(se) => ParseErr::Failure(SexpyError::add_context(pos, label, se)),
    }
}

/// Discards the value of a parse outcome, keeping the rest position;
/// failures pass through unchanged.
pub fn ignore(r: Result<(usize, SexpValue), ParseErr>) -> (u: Result<usize, ParseErr>)
    ensures
        match r {
            Ok(pv) => u matches Ok(p) && p == pv.0,
            Err(e) => u matches Err(e2) && e2.committed() == e.committed() && e2.errs()
                == e.errs(),
        },
{
    match r {
        Ok((p, _)) => Ok(p),
        Err(e) => Err(e),
    }
}

/// Parses a text token: one or more ASCII letters followed by any run of
/// non-boundary characters.
pub fn parse_text(input: &[u8], pos: usize) -> (r: Result<(usize, SexpValue), ParseErr>)
    requires
        pos <= input@.len(),
    ensures
        res_model(r) == text_res(input@, pos as int),
        r matches Ok(pv) ==> pos <= pv.0 <= input@.len(),
{
    let ghost s = input@;
    if pos < input.len() {
        let c = input[pos];
        if (65 <= c && c <= 90) || (97 <= c && c <= 122) {
            proof {
                lemma_token_end(s, pos as int);
            }
            let (te, tok) = crate::parsers::take_token(input, pos);
            return Ok((te, SexpValue::Text(tok)));
        }
    }
    Err(ParseErr::Error(SexpyError::from_error_kind(pos, LowKind::Alpha)))
}

/// Parses an unsigned 64-bit decimal number.
pub fn parse_u64(input: &[u8], pos: usize) -> (r: Result<(usize, SexpValue), ParseErr>)
    requires
        pos <= input@.len(),
    ensures
        res_model(r) == u64_res(input@, pos as int),
        r matches Ok(pv) ==> pos <= pv.0 <= input@.len(),
{
    let ghost s = input@;
    if pos < input.len() && 48 <= input[pos] && input[pos] <= 57 {
        proof {
            lemma_digit_end(s, pos as int);
        }
        match crate::parsers::digits_to_u64(input, pos, u64::MAX) {
            Some((p, v)) => Ok((p, SexpValue::U64(v))),
            None => Err(ParseErr::Error(SexpyError::number(pos))),
        }
    } else {
        Err(ParseErr::Error(SexpyError::from_error_kind(pos, LowKind::Digit)))
    }
}

/// Parses an unsigned 32-bit decimal number.
pub fn parse_u32(input: &[u8], pos: usize) -> (r: Result<(usize, SexpValue), ParseErr>)
    requires
        pos <= input@.len(),
    ensures
        res_model(r) == u32_res(input@, pos as int),
        r matches Ok(pv) ==> pos <= pv.0 <= input@.len(),
{
    let ghost s = input@;
    if pos < input.len() && 48 <= input[pos] && input[pos] <= 57 {
        proof {
            lemma_digit_end(s, pos as int);
        }
        match crate::parsers::digits_to_u64(input, pos, u32::MAX as u64) {
            Some((p, v)) => Ok((p, SexpValue::U32(v as u32))),
            None => Err(ParseErr::Error(SexpyError::number(pos))),
        }
    } else {
        Err(ParseErr::Error(SexpyError::from_error_kind(pos, LowKind::Digit)))
    }
}

/// Parses a signed 64-bit decimal number: an optional `-`, then digits.
pub fn parse_i64(input: &[u8], pos: usize) -> (r: Result<(usize, SexpValue), ParseErr>)
    requires
        pos <= input@.len(),
    ensures
        res_model(r) == i64_res(input@, pos as int),
        r matches Ok(pv) ==> pos <= pv.0 <= input@.len(),
{
    let ghost s = input@;
    let neg = pos < input.len() && input[pos] == 45;
    let p: usize = if neg {
        pos + 1
    } else {
        pos
    };
    if p < input.len() && 48 <= input[p] && input[p] <= 57 {
        proof {
            lemma_digit_end(s, p as int);
        }
        match crate::parsers::digits_to_u64(input, p, i64::MAX as u64) {
            Some((e, v)) => {
                let n: i64 = if neg {
                    -(v as i64)
                } else {
                    v as i64
                };
                Ok((e, SexpValue::I64(n)))
            },
            None => Err(ParseErr::Error(SexpyError::number(pos))),
        }
    } else {
        Err(ParseErr::Error(SexpyError::from_error_kind(p, LowKind::Digit)))
    }
}

/// Parses a signed 32-bit decimal number: an optional `-`, then digits.
pub fn parse_i32(input: &[u8], pos: usize) -> (r: Result<(usize, SexpValue), ParseErr>)
    requires
        pos <= input@.len(),
    ensures
        res_model(r) == i32_res(input@, pos as int),
        r matches Ok(pv) ==> pos <= pv.0 <= input@.len(),
{
    let ghost s = input@;
    let neg = pos < input.len() && input[pos] == 45;
    let p: usize = if neg {
        pos + 1
    } else {
        pos
    };
    if p < input.len() && 48 <= input[p] && input[p] <= 57 {
        proof {
            lemma_digit_end(s, p as int);
        }
        match crate::parsers::digits_to_u64(input, p, i32::MAX as u64) {
            Some((e, v)) => {
                let n: i32 = if neg {
                    -(v as i32)
                } else {
                    v as i32
                };
                Ok((e, SexpValue::I32(n)))
            },
            None => Err(ParseErr::Error(SexpyError::number(pos))),
        }
    } else {
        Err(ParseErr::Error(SexpyError::from_error_kind(p, LowKind::Digit)))
    }
}

/// Parses a head pattern: the keyword `tag`, then `inner`, committed.
/// When the token at `pos` is not `tag`, fails recoverably, reporting the
/// token found under an `incorrect head` context.
pub fn head(input: &[u8], pos: usize, tag: &[u8], inner: &Shape) -> (r: Result<
    (usize, SexpValue),
    ParseErr,
>)
    requires
        pos <= input@.len(),
    ensures
        ({
            let te = token_end(input@, pos as int);
            let tok = input@.subrange(pos as int, te);
            if tok == tag@ {
                res_model(r) == parse_spec(input@, te, *inner).cut()
            } else {
                res_model(r) == (PRes::Fail {
                    committed: false,
                    errs: seq![
                        (pos as int, DiagKind::Word(tok)),
                        (pos as int, DiagKind::Context(incorrect_head_label())),
                    ],
                })
            }
        }),
        r matches Ok(pv) ==> pos <= pv.0 <= input@.len(),
    decreases *inner, input@.len() - pos, 1int,
{
    proof {
        lemma_token_end(input@, pos as int);
    }
    match crate::parsers::word(input, pos, tag) {
        Ok(te) => {
            match sexp_parse(input, te, inner) {
                Ok(pv) => Ok(pv),
                Err(e) => Err(commit(e)),
            }
        },
        Err(e) => {
            let r = Err(context(pos, mk_label("incorrect head"), e));
            proof {
                let te = token_end(input@, pos as int);
                let tok = input@.subrange(pos as int, te);
                assert(seq![(pos as int, DiagKind::Word(tok))].push(
                    (pos as int, DiagKind::Context(incorrect_head_label())),
                ) =~= seq![
                    (pos as int, DiagKind::Word(tok)),
                    (pos as int, DiagKind::Context(incorrect_head_label())),
                ]);
            }
            r
        },
    }
}

/// Parses `inner` surrounded by `(..)`, `[..]` or `{..}`, whichever
/// delimiter is found; fails recoverably with an `expected '('` diagnostic
/// when none is. Once a delimiter was consumed the parse is committed, the
/// missing closer included.
pub fn surround(input: &[u8], pos: usize, inner: &Shape) -> (r: Result<
    (usize, SexpValue),
    ParseErr,
>)
    requires
        pos <= input@.len(),
    ensures
        ({
            let s = input@;
            if pos < s.len() && s[pos as int] == 40 {
                res_model(r) == surround_close_spec(s, pos + 1, *inner, 41, closing_paren_label())
            } else if pos < s.len() && s[pos as int] == 91 {
                res_model(r) == surround_close_spec(s, pos + 1, *inner, 93, closing_bracket_label())
            } else if pos < s.len() && s[pos as int] == 123 {
                res_model(r) == surround_close_spec(s, pos + 1, *inner, 125, closing_brace_label())
            } else {
                res_model(r) == (PRes::Fail {
                    committed: false,
                    errs: seq![(pos as int, DiagKind::Char(40u8))],
                })
            }
        }),
        r matches Ok(pv) ==> pos <= pv.0 <= input@.len(),
    decreases *inner, input@.len() - pos, 2int,
{
    if pos < input.len() && input[pos] == 40 {
        surround_close(input, pos + 1, inner, 41, mk_label("closing paren"))
    } else if pos < input.len() && input[pos] == 91 {
        surround_close(input, pos + 1, inner, 93, mk_label("closing bracket"))
    } else if pos < input.len() && input[pos] == 123 {
        surround_close(input, pos + 1, inner, 125, mk_label("closing brace"))
    } else {
        Err(ParseErr::Error(SexpyError::from_char(pos, 40)))
    }
}

/// The rest of a surrounded form after its opening delimiter: a word
/// break, the committed inner parse, a word break, and `closer`.
fn surround_close(input: &[u8], pos: usize, inner: &Shape, closer: u8, label: Vec<u8>) -> (r:
    Result<(usize, SexpValue), ParseErr>)
    requires
        pos <= input@.len(),
    ensures
        res_model(r) == surround_close_spec(input@, pos as int, *inner, closer, label@),
        r matches Ok(pv) ==> pos <= pv.0 <= input@.len(),
    decreases *inner, input@.len() - pos, 1int,
{
    let p2 = crate::parsers::wordbreak0(input, pos);
    match sexp_parse(input, p2, inner) {
        Ok((p3, v)) => {
            let p4 = crate::parsers::wordbreak0(input, p3);
            if p4 < input.len() && input[p4] == closer {
                Ok((p4 + 1, v))
            } else {
                let e = SexpyError::from_char(p4, closer);
                let ghost e0 = e@;
                let e2 = SexpyError::add_context(p4, label, e);
                proof {
                    assert(e2@ =~= seq![
                        (p4 as int, DiagKind::Char(closer)),
                        (p4 as int, DiagKind::Context(label@)),
                    ]);
                }
                Err(ParseErr::Failure(e2))
            }
        },
        Err(e) => Err(commit(e)),
    }
}

/// Parses the shape `g` at `pos`: the typed parse entry point. Returns the
/// rest position and the decoded value, or the failure with its
/// diagnostics, exactly as the mathematical interpreter says.
pub fn sexp_parse(input: &[u8], pos: usize, g: &Shape) -> (r: Result<(usize, SexpValue), ParseErr>)
    requires
        pos <= input@.len(),
    ensures
        res_model(r) == parse_spec(input@, pos as int, *g),
        r matches Ok(pv) ==> pos <= pv.0 <= input@.len(),
    decreases *g, input@.len() - pos, 0int,
{
    let ghost s = input@;
    match g {
        Shape::Text => parse_text(input, pos),
        Shape::U64 => parse_u64(input, pos),
        Shape::U32 => parse_u32(input, pos),
        Shape::I64 => parse_i64(input, pos),
        Shape::I32 => parse_i32(input, pos),
        Shape::Maybe(b) => {
            proof {
                assert(decreases_to!(*g => *b));
                assert(decreases_to!(*g => **b));
            }
            match sexp_parse(input, pos, b) {
                Ok((p, v)) => Ok((p, SexpValue::Maybe(Some(Box::new(v))))),
                Err(ParseErr::Failure(se)) => Err(ParseErr::Failure(se)),
                Err(ParseErr::Error(_)) => Ok((pos, SexpValue::Maybe(None))),
            }
        },
        Shape::Many(b) => {
            proof {
                assert(decreases_to!(*g => *b));
                assert(decreases_to!(*g => **b));
            }
            match many_run(input, pos, b) {
                Ok((p, vs)) => Ok((p, SexpValue::List(vs))),
                Err(e) => Err(e),
            }
        },
        Shape::Tuple(shapes) => {
            proof {
                assert(decreases_to!(*g => *shapes));
                assert(decreases_to!(*shapes => shapes@));
                assert(shapes@.skip(0) =~= shapes@);
            }
            match tuple_run(input, pos, shapes, 0) {
                Ok((p, vs)) => Ok((p, SexpValue::Tuple(vs))),
                Err(e) => Err(e),
            }
        },
        Shape::Alt(shapes) => {
            proof {
                assert(decreases_to!(*g => *shapes));
                assert(decreases_to!(*shapes => shapes@));
                assert(shapes@.skip(0) =~= shapes@);
            }
            alt_run(input, pos, shapes, 0)
        },
        Shape::Head(tag, b) => {
            proof {
                assert(decreases_to!(*g => *b));
                assert(decreases_to!(*g => **b));
                lemma_token_end(s, pos as int);
            }
            head(input, pos, tag.as_slice(), b)
        },
        Shape::Surround(b) => {
            proof {
                assert(decreases_to!(*g => *b));
                assert(decreases_to!(*g => **b));
            }
            surround(input, pos, b)
        },
        Shape::Context(label, b) => {
            proof {
                assert(decreases_to!(*g => *b));
                assert(decreases_to!(*g => **b));
            }
            match sexp_parse(input, pos, b) {
                Ok(pv) => Ok(pv),
                Err(e) => Err(context(pos, crate::grammar::clone_bytes(label), e)),
            }
        },
        Shape::Padded(b) => {
            proof {
                assert(decreases_to!(*g => *b));
                assert(decreases_to!(*g => **b));
            }
            let p = crate::parsers::wordbreak0(input, pos);
            sexp_parse(input, p, b)
        },
        Shape::Wordbreak => {
            let p = crate::parsers::wordbreak0(input, pos);
            Ok((p, SexpValue::Unit))
        },
    }
}

/// Zero or more repetitions of `inner`, each preceded by a word break,
/// collected in order.
fn many_run(input: &[u8], pos: usize, inner: &Shape) -> (r: Result<
    (usize, Vec<SexpValue>),
    ParseErr,
>)
    requires
        pos <= input@.len(),
    ensures
        match many_spec(input@, pos as int, *inner) {
            PRes::Done { pos: p, val } => r matches Ok(pv) && pv.0 == p && val == Val::List(
                crate::grammar::model_seq(pv.1@),
            ) && pos <= pv.0 <= input@.len(),
            PRes::Fail { committed, errs } => r matches Err(e) && e.committed() == committed
                && e.errs() == errs,
        },
    decreases *inner, input@.len() - pos, 1int,
{
    let ghost s = input@;
    let p2 = crate::parsers::wordbreak0(input, pos);
    match sexp_parse(input, p2, inner) {
        Ok((p3, v)) => {
            if p3 > pos {
                match many_run(input, p3, inner) {
                    Ok((pr, vs)) => {
                        let ghost tail = vs@;
                        let mut vs = vs;
                        vs.insert(0, v);
                        proof {
                            assert(vs@ =~= seq![v] + tail);
                            assert(vs@[0] == v);
                            assert(vs@.subrange(1, vs@.len() as int) =~= tail);
                            assert(crate::grammar::model_seq(vs@) =~= seq![v.model()]
                                + crate::grammar::model_seq(tail));
                        }
                        Ok((pr, vs))
                    },
                    Err(e) => Err(e),
                }
            } else {
                Err(ParseErr::Error(SexpyError::from_error_kind(pos, LowKind::Many0)))
            }
        },
        Err(ParseErr::Failure(se)) => Err(ParseErr::Failure(se)),
        Err(ParseErr::Error(_)) => {
            let vs: Vec<SexpValue> = Vec::new();
            proof {
                assert(crate::grammar::model_seq(vs@) =~= Seq::<Val>::empty());
            }
            Ok((pos, vs))
        },
    }
}

/// The shapes from index `i` on, in order, each starting where the
/// previous one stopped.
fn tuple_run(input: &[u8], pos: usize, shapes: &Vec<Shape>, i: usize) -> (r: Result<
    (usize, Vec<SexpValue>),
    ParseErr,
>)
    requires
        pos <= input@.len(),
        i <= shapes@.len(),
    ensures
        match tuple_spec(input@, pos as int, shapes@.skip(i as int)) {
            PRes::Done { pos: p, val } => r matches Ok(pv) && pv.0 == p && val == Val::Tuple(
                crate::grammar::model_seq(pv.1@),
            ) && pos <= pv.0 <= input@.len(),
            PRes::Fail { committed, errs } => r matches Err(e) && e.committed() == committed
                && e.errs() == errs,
        },
    decreases shapes@.skip(i as int), input@.len() - pos, 1int,
{
    let ghost s = input@;
    let ghost sk = shapes@.skip(i as int);
    if i == shapes.len() {
        proof {
            assert(sk =~= Seq::<Shape>::empty());
        }
        let vs: Vec<SexpValue> = Vec::new();
        proof {
            assert(crate::grammar::model_seq(vs@) =~= Seq::<Val>::empty());
        }
        Ok((pos, vs))
    } else {
        proof {
            assert(sk[0] == shapes@[i as int]);
            assert(decreases_to!(sk => sk[0]));
            assert(decreases_to!(sk => sk.subrange(1, sk.len() as int)));
            assert(sk.subrange(1, sk.len() as int) =~= shapes@.skip(i + 1));
        }
        match sexp_parse(input, pos, &shapes[i]) {
            Ok((p1, v1)) => {
                match tuple_run(input, p1, shapes, i + 1) {
                    Ok((p2, vs)) => {
                        let ghost tail = vs@;
                        let mut vs = vs;
                        vs.insert(0, v1);
                        proof {
                            assert(vs@ =~= seq![v1] + tail);
                            assert(vs@[0] == v1);
                            assert(vs@.subrange(1, vs@.len() as int) =~= tail);
                            assert(crate::grammar::model_seq(vs@) =~= seq![v1.model()]
                                + crate::grammar::model_seq(tail));
                        }
                        Ok((p2, vs))
                    },
                    Err(e) => Err(e),
                }
            },
            Err(e) => Err(e),
        }
    }
}

/// The candidates from index `i` on, each against the same input.
fn alt_run(input: &[u8], pos: usize, shapes: &Vec<Shape>, i: usize) -> (r: Result<
    (usize, SexpValue),
    ParseErr,
>)
    requires
        pos <= input@.len(),
        i <= shapes@.len(),
    ensures
        res_model(r) == alt_spec(input@, pos as int, shapes@.skip(i as int)),
        r matches Ok(pv) ==> pos <= pv.0 <= input@.len(),
    decreases shapes@.skip(i as int), input@.len() - pos, 1int,
{
    let ghost s = input@;
    let ghost sk = shapes@.skip(i as int);
    if i == shapes.len() {
        proof {
            assert(sk =~= Seq::<Shape>::empty());
        }
        Err(ParseErr::Error(SexpyError::from_error_kind(pos, LowKind::Alt)))
    } else {
        proof {
            assert(sk[0] == shapes@[i as int]);
            assert(decreases_to!(sk => sk[0]));
            assert(decreases_to!(sk => sk.subrange(1, sk.len() as int)));
            assert(sk.subrange(1, sk.len() as int) =~= shapes@.skip(i + 1));
        }
        match sexp_parse(input, pos, &shapes[i]) {
            Ok(pv) => Ok(pv),
            Err(ParseErr::Failure(se)) => Err(ParseErr::Failure(se)),
            Err(ParseErr::Error(se)) => {
                if i + 1 == shapes.len() {
                    Err(ParseErr::Error(se))
                } else {
                    alt_run(input, pos, shapes, i + 1)
                }
            },
        }
    }
}

} // verus!

verus! {

/// What every outcome of the interpreter satisfies: a success stops
/// between its start and the end of the buffer; a failure carries at least
/// one diagnostic, each at a position inside the buffer. There is no
/// silent failure path.
pub open spec fn res_wf(s: Seq<u8>, pos: int, r: PRes) -> bool {
    match r {
        PRes::Done { pos: p, .. } => pos <= p <= s.len(),
        PRes::Fail { errs, .. } => errs.len() >= 1 && forall|i: int|
            0 <= i < errs.len() ==> 0 <= (#[trigger] errs[i]).0 <= s.len(),
    }
}

/// Every outcome of the interpreter is well formed.
pub proof fn lemma_parse_wf(s: Seq<u8>, pos: int, g: Shape)
    requires
        0 <= pos <= s.len(),
    ensures
        res_wf(s, pos, parse_spec(s, pos, g)),
    decreases g, s.len() - pos, 0int,
{
    match g {
        Shape::Text => {
            lemma_token_end(s, pos);
        },
        Shape::U64 => {
            lemma_digit_end(s, pos);
        },
        Shape::U32 => {
            lemma_digit_end(s, pos);
        },
        Shape::I64 => {
            if pos < s.len() && s[pos] == 45 {
                lemma_digit_end(s, pos + 1);
            } else {
                lemma_digit_end(s, pos);
            }
        },
        Shape::I32 => {
            if pos < s.len() && s[pos] == 45 {
                lemma_digit_end(s, pos + 1);
            } else {
                lemma_digit_end(s, pos);
            }
        },
        Shape::Maybe(b) => {
            assert(decreases_to!(g => *b));
            lemma_parse_wf(s, pos, *b);
        },
        Shape::Many(b) => {
            assert(decreases_to!(g => *b));
            lemma_many_wf(s, pos, *b);
        },
        Shape::Tuple(shapes) => {
            assert(decreases_to!(g => shapes));
            assert(decreases_to!(shapes => shapes@));
            lemma_tuple_wf(s, pos, shapes@);
        },
        Shape::Alt(shapes) => {
            assert(decreases_to!(g => shapes));
            assert(decreases_to!(shapes => shapes@));
            lemma_alt_wf(s, pos, shapes@);
        },
        Shape::Head(tag, b) => {
            lemma_token_end(s, pos);
            let te = token_end(s, pos);
            if s.subrange(pos, te) == tag@ {
                assert(decreases_to!(g => *b));
                lemma_parse_wf(s, te, *b);
            }
        },
        Shape::Surround(b) => {
            assert(decreases_to!(g => *b));
            if pos < s.len() && s[pos] == 40 {
                lemma_surround_close_wf(s, pos + 1, *b, 41, closing_paren_label());
            } else if pos < s.len() && s[pos] == 91 {
                lemma_surround_close_wf(s, pos + 1, *b, 93, closing_bracket_label());
            } else if pos < s.len() && s[pos] == 123 {
                lemma_surround_close_wf(s, pos + 1, *b, 125, closing_brace_label());
            }
        },
        Shape::Context(label, b) => {
            assert(decreases_to!(g => *b));
            lemma_parse_wf(s, pos, *b);
        },
        Shape::Padded(b) => {
            lemma_wb_end(s, pos);
            assert(decreases_to!(g => *b));
            lemma_parse_wf(s, wb_end(s, pos), *b);
        },
        Shape::Wordbreak => {
            lemma_wb_end(s, pos);
        },
    }
}

/// Every outcome of the rest of a surrounded form is well formed.
proof fn lemma_surround_close_wf(s: Seq<u8>, pos: int, inner: Shape, closer: u8, label: Seq<u8>)
    requires
        0 <= pos <= s.len(),
    ensures
        res_wf(s, pos, surround_close_spec(s, pos, inner, closer, label)),
    decreases inner, s.len() - pos, 1int,
{
    lemma_wb_end(s, pos);
    let p2 = wb_end(s, pos);
    lemma_parse_wf(s, p2, inner);
    match parse_spec(s, p2, inner) {
        PRes::Done { pos: p3, .. } => {
            lemma_wb_end(s, p3);
        },
        PRes::Fail { .. } => {},
    }
}

/// Every outcome of a repetition is well formed.
proof fn lemma_many_wf(s: Seq<u8>, pos: int, inner: Shape)
    requires
        0 <= pos <= s.len(),
    ensures
        res_wf(s, pos, many_spec(s, pos, inner)),
    decreases inner, s.len() - pos, 1int,
{
    lemma_wb_end(s, pos);
    let p2 = wb_end(s, pos);
    lemma_parse_wf(s, p2, inner);
    match parse_spec(s, p2, inner) {
        PRes::Done { pos: p3, .. } => {
            if pos < p3 <= s.len() {
                lemma_many_wf(s, p3, inner);
            }
        },
        PRes::Fail { .. } => {},
    }
}

/// Every outcome of a sequence of shapes is well formed.
proof fn lemma_tuple_wf(s: Seq<u8>, pos: int, shapes: Seq<Shape>)
    requires
        0 <= pos <= s.len(),
    ensures
        res_wf(s, pos, tuple_spec(s, pos, shapes)),
    decreases shapes, s.len() - pos, 1int,
{
    if shapes.len() > 0 {
        assert(decreases_to!(shapes => shapes[0]));
        assert(decreases_to!(shapes => shapes.subrange(1, shapes.len() as int)));
        lemma_parse_wf(s, pos, shapes[0]);
        match parse_spec(s, pos, shapes[0]) {
            PRes::Done { pos: p1, .. } => {
                lemma_tuple_wf(s, p1, shapes.subrange(1, shapes.len() as int));
            },
            PRes::Fail { .. } => {},
        }
    }
}

/// Every outcome of an alternation is well formed.
proof fn lemma_alt_wf(s: Seq<u8>, pos: int, shapes: Seq<Shape>)
    requires
        0 <= pos <= s.len(),
    ensures
        res_wf(s, pos, alt_spec(s, pos, shapes)),
    decreases shapes, s.len() - pos, 1int,
{
    if shapes.len() > 0 {
        assert(decreases_to!(shapes => shapes[0]));
        assert(decreases_to!(shapes => shapes.subrange(1, shapes.len() as int)));
        lemma_parse_wf(s, pos, shapes[0]);
        match parse_spec(s, pos, shapes[0]) {
            PRes::Fail { committed: false, .. } => {
                if shapes.len() > 1 {
                    lemma_alt_wf(s, pos, shapes.subrange(1, shapes.len() as int));
                }
            },
            _ => {},
        }
    }
}

} // verus!
