//! Primitive combinators: whitespace-and-comment skipping, token scanning,
//! keyword matching, and the leaf value parsers, each proved against a
//! mathematical scanner over the byte sequence.

use vstd::prelude::*;
use crate::error::{DiagKind, LowKind, ParseErr, SexpyError};

verus! {

/// Whitespace: space, tab, carriage return, line feed.
pub open spec fn is_space(c: u8) -> bool {
    c == 32 || c == 9 || c == 13 || c == 10
}

/// The boundary set that ends a token: whitespace, the six delimiters and
/// the comment character.
pub open spec fn is_boundary(c: u8) -> bool {
    is_space(c) || c == 40 || c == 41 || c == 91 || c == 93 || c == 123 || c == 125 || c == 59
}

/// An ASCII letter.
pub open spec fn is_alpha(c: u8) -> bool {
    (65 <= c && c <= 90) || (97 <= c && c <= 122)
}

/// An ASCII decimal digit.
pub open spec fn is_digit(c: u8) -> bool {
    48 <= c && c <= 57
}

/// The position of the first line feed at or after `pos`, or the end of the
/// buffer if there is none.
pub open spec fn line_end(s: Seq<u8>, pos: int) -> int
    decreases s.len() - pos,
{
    if pos < 0 || pos >= s.len() {
        s.len() as int
    } else if s[pos] == 10 {
        pos
    } else {
        line_end(s, pos + 1)
    }
}

/// `line_end` stays between `pos` and the end of the buffer, points at a
/// line feed unless it is the end, and skips no line feed.
pub proof fn lemma_line_end(s: Seq<u8>, pos: int)
    requires
        0 <= pos <= s.len(),
    ensures
        pos <= line_end(s, pos) <= s.len(),
        line_end(s, pos) < s.len() ==> s[line_end(s, pos)] == 10,
        forall|i: int| pos <= i < line_end(s, pos) ==> s[i] != 10,
    decreases s.len() - pos,
{
    if pos < s.len() && s[pos] != 10 {
        lemma_line_end(s, pos + 1);
    }
}

/// The position right after the maximal run of non-boundary characters
/// starting at `pos`.
pub open spec fn token_end(s: Seq<u8>, pos: int) -> int
    decreases s.len() - pos,
{
    if pos < 0 || pos >= s.len() {
        s.len() as int
    } else if is_boundary(s[pos]) {
        pos
    } else {
        token_end(s, pos + 1)
    }
}

/// `token_end` stays between `pos` and the end of the buffer, points at a
/// boundary unless it is the end, and everything before it is no boundary.
pub proof fn lemma_token_end(s: Seq<u8>, pos: int)
    requires
        0 <= pos <= s.len(),
    ensures
        pos <= token_end(s, pos) <= s.len(),
        token_end(s, pos) < s.len() ==> is_boundary(s[token_end(s, pos)]),
        forall|i: int| pos <= i < token_end(s, pos) ==> !is_boundary(s[i]),
    decreases s.len() - pos,
{
    if pos < s.len() && !is_boundary(s[pos]) {
        lemma_token_end(s, pos + 1);
    }
}

/// The position right after the maximal run of decimal digits starting at
/// `pos`.
pub open spec fn digit_end(s: Seq<u8>, pos: int) -> int
    decreases s.len() - pos,
{
    if pos < 0 || pos >= s.len() {
        s.len() as int
    } else if !is_digit(s[pos]) {
        pos
    } else {
        digit_end(s, pos + 1)
    }
}

/// `digit_end` stays between `pos` and the end of the buffer, points at a
/// non-digit unless it is the end, and everything before it is a digit.
pub proof fn lemma_digit_end(s: Seq<u8>, pos: int)
    requires
        0 <= pos <= s.len(),
    ensures
        pos <= digit_end(s, pos) <= s.len(),
        digit_end(s, pos) < s.len() ==> !is_digit(s[digit_end(s, pos)]),
        forall|i: int| pos <= i < digit_end(s, pos) ==> is_digit(s[i]),
    decreases s.len() - pos,
{
    if pos < s.len() && is_digit(s[pos]) {
        lemma_digit_end(s, pos + 1);
    }
}

/// The position after the maximal run of whitespace characters and
/// comments starting at `pos`: what a word break consumes.
pub open spec fn wb_end(s: Seq<u8>, pos: int) -> int
    decreases s.len() - pos,
{
    if pos < 0 || pos >= s.len() {
        if pos < 0 {
            0
        } else {
            pos
        }
    } else if is_space(s[pos]) {
        wb_end(s, pos + 1)
    } else if s[pos] == 59 {
        proof {
            lemma_line_end(s, pos + 1);
        }
        wb_end(s, line_end(s, pos + 1))
    } else {
        pos
    }
}

/// `wb_end` stays between `pos` and the end of the buffer and stops at a
/// character that starts neither whitespace nor a comment.
pub proof fn lemma_wb_end(s: Seq<u8>, pos: int)
    requires
        0 <= pos <= s.len(),
    ensures
        pos <= wb_end(s, pos) <= s.len(),
        wb_end(s, pos) < s.len() ==> !is_space(s[wb_end(s, pos)]) && s[wb_end(s, pos)] != 59,
    decreases s.len() - pos,
{
    if pos < s.len() {
        if is_space(s[pos]) {
            lemma_wb_end(s, pos + 1);
        } else if s[pos] == 59 {
            lemma_line_end(s, pos + 1);
            lemma_wb_end(s, line_end(s, pos + 1));
        }
    }
}

/// A word break consumes nothing when it starts on a character that is
/// neither whitespace nor a comment; so skipping twice is skipping once.
pub proof fn lemma_wb_end_idempotent(s: Seq<u8>, pos: int)
    requires
        0 <= pos <= s.len(),
    ensures
        (pos < s.len() && !is_space(s[pos]) && s[pos] != 59) || pos == s.len() ==> wb_end(s, pos)
            == pos,
        wb_end(s, wb_end(s, pos)) == wb_end(s, pos),
{
    lemma_wb_end(s, pos);
}

/// The position of the first line feed at or after `pos`, or the end of
/// the input if there is none.
pub fn find_line_end(input: &[u8], pos: usize) -> (r: usize)
    requires
        pos <= input@.len(),
    ensures
        r == line_end(input@, pos as int),
{
    let ghost s = input@;
    let mut i: usize = pos;
    while i < input.len() && input[i] != 10
        invariant
            pos <= i <= s.len(),
            s == input@,
            line_end(s, pos as int) == line_end(s, i as int),
        decreases s.len() - i,
    {
        i = i + 1;
    }
    i
}

/// Matches a comment: a `;` followed by every character up to, but not
/// including, the next line feed. Fails recoverably when no `;` is there.
pub fn comment(input: &[u8], pos: usize) -> (r: Result<usize, ParseErr>)
    requires
        pos <= input@.len(),
    ensures
        pos < input@.len() && input@[pos as int] == 59 ==> (r matches Ok(p) && p == line_end(
            input@,
            pos + 1,
        )),
        !(pos < input@.len() && input@[pos as int] == 59) ==> (r matches Err(e) && !e.committed()
            && e.errs() == seq![(pos as int, DiagKind::Char(59u8))]),
{
    if pos < input.len() && input[pos] == 59 {
        Ok(find_line_end(input, pos + 1))
    } else {
        Err(ParseErr::Error(SexpyError::from_char(pos, 59)))
    }
}

/// Consumes zero or more whitespace characters or comments. Always
/// succeeds; consumes nothing when the input starts with neither.
pub fn wordbreak0(input: &[u8], pos: usize) -> (r: usize)
    requires
        pos <= input@.len(),
    ensures
        r == wb_end(input@, pos as int),
        pos <= r <= input@.len(),
{
    let ghost s = input@;
    let mut i: usize = pos;
    proof {
        lemma_wb_end(s, pos as int);
    }
    loop
        invariant
            pos <= i <= s.len(),
            s == input@,
            wb_end(s, pos as int) == wb_end(s, i as int),
            wb_end(s, pos as int) <= s.len(),
        ensures
            i == wb_end(s, pos as int),
        decreases s.len() - i,
    {
        if i < input.len() && (input[i] == 32 || input[i] == 9 || input[i] == 13 || input[i]
            == 10) {
            i = i + 1;
        } else if i < input.len() && input[i] == 59 {
            proof {
                lemma_line_end(s, i + 1);
            }
            i = find_line_end(input, i + 1);
        } else {
            proof {
                lemma_wb_end(s, i as int);
            }
            break;
        }
    }
    i
}

/// Consumes one or more whitespace characters or comments; fails
/// recoverably when there is not at least one.
pub fn wordbreak1(input: &[u8], pos: usize) -> (r: Result<usize, ParseErr>)
    requires
        pos <= input@.len(),
    ensures
        pos < input@.len() && (is_space(input@[pos as int]) || input@[pos as int] == 59) ==> (r
            matches Ok(p) && p == wb_end(input@, pos as int)),
        !(pos < input@.len() && (is_space(input@[pos as int]) || input@[pos as int] == 59)) ==> (r
            matches Err(e) && !e.committed() && e.errs() == seq![
            (pos as int, DiagKind::Low(LowKind::Many1)),
        ]),
{
    if pos < input.len() && (input[pos] == 32 || input[pos] == 9 || input[pos] == 13 || input[pos]
        == 10 || input[pos] == 59) {
        Ok(wordbreak0(input, pos))
    } else {
        Err(ParseErr::Error(SexpyError::from_error_kind(pos, LowKind::Many1)))
    }
}

/// The token starting at `pos`: the maximal run of non-boundary
/// characters, as a fresh byte vector.
pub fn take_token(input: &[u8], pos: usize) -> (r: (usize, Vec<u8>))
    requires
        pos <= input@.len(),
    ensures
        r.0 == token_end(input@, pos as int),
        r.1@ == input@.subrange(pos as int, token_end(input@, pos as int)),
{
    let ghost s = input@;
    proof {
        lemma_token_end(s, pos as int);
    }
    let mut i: usize = pos;
    let mut tok: Vec<u8> = Vec::new();
    loop
        invariant
            pos <= i <= s.len(),
            s == input@,
            i <= token_end(s, pos as int),
            token_end(s, pos as int) == token_end(s, i as int),
            token_end(s, pos as int) <= s.len(),
            tok@ == s.subrange(pos as int, i as int),
        ensures
            i == token_end(s, pos as int),
            tok@ == s.subrange(pos as int, i as int),
        decreases s.len() - i,
    {
        if i < input.len() {
            let c = input[i];
            if !(c == 32 || c == 9 || c == 13 || c == 10 || c == 40 || c == 41 || c == 91 || c
                == 93 || c == 123 || c == 125 || c == 59) {
                tok.push(c);
                proof {
                    assert(tok@ =~= s.subrange(pos as int, i + 1));
                    lemma_token_end(s, i as int);
                }
                i = i + 1;
            } else {
                break;
            }
        } else {
            break;
        }
    }
    (i, tok)
}

/// Matches the keyword `tag`: consumes the maximal run of non-boundary
/// characters and succeeds exactly when that token equals `tag`. On a
/// mismatch the diagnostic carries the token actually found, not `tag`.
pub fn word(input: &[u8], pos: usize, tag: &[u8]) -> (r: Result<usize, ParseErr>)
    requires
        pos <= input@.len(),
    ensures
        ({
            let te = token_end(input@, pos as int);
            let tok = input@.subrange(pos as int, te);
            if tok == tag@ {
                r matches Ok(p) && p == te
            } else {
                r matches Err(e) && !e.committed() && e.errs() == seq![
                    (pos as int, DiagKind::Word(tok)),
                ]
            }
        }),
{
    let (te, tok) = take_token(input, pos);
    if eq_bytes(tok.as_slice(), tag) {
        Ok(te)
    } else {
        Err(ParseErr::Error(SexpyError::from_word(pos, tok)))
    }
}

/// Whether two byte strings hold the same bytes.
pub fn eq_bytes(a: &[u8], b: &[u8]) -> (r: bool)
    ensures
        r <==> a@ == b@,
{
    if a.len() != b.len() {
        proof {
            assert(a@.len() != b@.len());
        }
        return false;
    }
    let mut i: usize = 0;
    while i < a.len()
        invariant
            a@.len() == b@.len(),
            i <= a@.len(),
            forall|j: int| 0 <= j < i ==> a@[j] == b@[j],
        decreases a@.len() - i,
    {
        if a[i] != b[i] {
            return false;
        }
        i = i + 1;
    }
    proof {
        assert(a@ =~= b@);
    }
    true
}

} // verus!

verus! {

/// The value of the decimal digit run `s[pos..end)`.
pub open spec fn digits_val(s: Seq<u8>, pos: int, end: int) -> int
    decreases end - pos,
{
    if pos >= end {
        0
    } else {
        digits_val(s, pos, end - 1) * 10 + (s[end - 1] - 48)
    }
}

/// A digit run's value is at least zero.
pub proof fn lemma_digits_val_nonneg(s: Seq<u8>, pos: int, end: int)
    requires
        0 <= pos,
        end <= s.len(),
        forall|i: int| pos <= i < end ==> is_digit(s[i]),
    ensures
        digits_val(s, pos, end) >= 0,
    decreases end - pos,
{
    if pos < end {
        lemma_digits_val_nonneg(s, pos, end - 1);
    }
}

/// Reading more digits never makes the value smaller.
pub proof fn lemma_digits_val_monotone(s: Seq<u8>, pos: int, mid: int, end: int)
    requires
        0 <= pos <= mid <= end <= s.len(),
        forall|i: int| pos <= i < end ==> is_digit(s[i]),
    ensures
        digits_val(s, pos, mid) <= digits_val(s, pos, end),
    decreases end - mid,
{
    if mid < end {
        lemma_digits_val_monotone(s, pos, mid, end - 1);
        lemma_digits_val_nonneg(s, pos, end - 1);
    }
}

/// Reads the digit run starting at `pos` as a decimal number, as long as
/// its value stays within `bound`; `None` means the run's value exceeds
/// `bound`.
pub fn digits_to_u64(input: &[u8], pos: usize, bound: u64) -> (r: Option<(usize, u64)>)
    requires
        pos < input@.len(),
        is_digit(input@[pos as int]),
    ensures
        ({
            let e = digit_end(input@, pos as int);
            let v = digits_val(input@, pos as int, e);
            if v <= bound {
                r matches Some((p, n)) && p == e && n == v
            } else {
                r is None
            }
        }),
{
    let ghost s = input@;
    proof {
        lemma_digit_end(s, pos as int);
    }
    let ghost e = digit_end(s, pos as int);
    let mut i: usize = pos;
    let mut acc: u64 = 0;
    loop
        invariant
            pos <= i <= e <= s.len(),
            s == input@,
            digit_end(s, pos as int) == e,
            digit_end(s, i as int) == e,
            forall|j: int| pos <= j < e ==> is_digit(s[j]),
            acc == digits_val(s, pos as int, i as int),
            acc <= bound,
        ensures
            i == e && acc == digits_val(s, pos as int, e) && acc <= bound,
        decreases s.len() - i,
    {
        if i < input.len() {
            let c = input[i];
            if 48 <= c && c <= 57 {
                let d: u64 = (c - 48) as u64;
                proof {
                    lemma_digit_end(s, i as int);
                    assert(digits_val(s, pos as int, i + 1) == digits_val(s, pos as int, i as int)
                        * 10 + d);
                }
                if d > bound || acc > (bound - d) / 10 {
                    proof {
                        lemma_digits_val_monotone(s, pos as int, i + 1, e);
                        if d > bound {
                            assert(acc * 10 + d > bound) by (nonlinear_arith)
                                requires
                                    d > bound,
                                    acc >= 0,
                            ;
                        } else {
                            assert(acc * 10 + d > bound) by (nonlinear_arith)
                                requires
                                    acc > (bound - d) / 10,
                                    0 <= d <= 9,
                                    acc >= 0,
                                    bound >= d,
                            ;
                        }
                    }
                    return None;
                }
                proof {
                    assert(acc * 10 + d <= bound) by (nonlinear_arith)
                        requires
                            acc <= (bound - d) / 10,
                            0 <= d <= 9,
                            acc >= 0,
                            bound >= d,
                    ;
                }
                acc = acc * 10 + d;
                i = i + 1;
            } else {
                proof {
                    assert(i == e);
                }
                break;
            }
        } else {
            proof {
                assert(i == e);
            }
            break;
        }
    }
    Some((i, acc))
}

} // verus!
