//! The error model: an ordered accumulator of `(position, diagnostic)`
//! pairs, grown as a failed parse unwinds outward, plus the rendering that
//! turns an accumulator into readable text.
//!
//! Index 0 of the accumulator is always the deepest (most specific)
//! diagnostic; later indices are progressively higher-level context.

use vstd::prelude::*;
use vstd::string::StringSliceAdditionalSpecFns;

verus! {

/// The low-level primitive whose failure a diagnostic records, for
/// failures arising from generic primitives not specific to this grammar.
#[derive(Clone, Copy, PartialEq, Eq, Structural, Debug)]
pub enum LowKind {
    /// An alphabetic character was expected.
    Alpha,
    /// A decimal digit was expected.
    Digit,
    /// A repetition made no progress.
    Many0,
    /// A repetition found no first element.
    Many1,
    /// An alternation had no candidates at all.
    Alt,
}

/// Ghost mirror of `SexpyErrorKind`: the payload texts as byte sequences.
pub enum DiagKind {
    Context(Seq<u8>),
    Char(u8),
    Word(Seq<u8>),
    Number,
    Low(LowKind),
}

/// One diagnostic: what was expected at the recorded position.
#[derive(Clone, PartialEq, Debug)]
pub enum SexpyErrorKind {
    /// A caller-supplied context label.
    Context(Vec<u8>),
    /// A specific character was expected.
    Char(u8),
    /// A keyword was expected; carries the token actually found.
    Word(Vec<u8>),
    /// A well-formed number was expected.
    Number,
    /// A generic primitive failed.
    Low(LowKind),
}

impl SexpyErrorKind {
    pub open spec fn model(self) -> DiagKind {
        match self {
            SexpyErrorKind::Context(l) => DiagKind::Context(l@),
            SexpyErrorKind::Char(c) => DiagKind::Char(c),
            SexpyErrorKind::Word(w) => DiagKind::Word(w@),
            SexpyErrorKind::Number => DiagKind::Number,
            SexpyErrorKind::Low(k) => DiagKind::Low(k),
        }
    }
}

/// The error accumulator. Positions are byte offsets into the buffer the
/// failed parse ran over; entry 0 is the deepest diagnostic.
#[derive(Debug)]
pub struct SexpyError {
    pub errors: Vec<(usize, SexpyErrorKind)>,
}

impl View for SexpyError {
    type V = Seq<(int, DiagKind)>;

    open spec fn view(&self) -> Seq<(int, DiagKind)> {
        Seq::new(self.errors@.len(), |i: int| (self.errors@[i].0 as int, self.errors@[i].1.model()))
    }
}

impl SexpyError {
    /// An accumulator with the one entry: a generic primitive `kind` failed
    /// at `pos`.
    pub fn from_error_kind(pos: usize, kind: LowKind) -> (e: Self)
        ensures
            e@ == seq![(pos as int, DiagKind::Low(kind))],
    {
        let e = SexpyError { errors: vec![(pos, SexpyErrorKind::Low(kind))] };
        proof {
            assert(e@ =~= seq![(pos as int, DiagKind::Low(kind))]);
        }
        e
    }

    /// Extends `other` with one more generic-primitive entry at `pos`.
    pub fn append(pos: usize, kind: LowKind, other: Self) -> (e: Self)
        ensures
            e@ == other@.push((pos as int, DiagKind::Low(kind))),
    {
        let ghost o = other@;
        let mut e = other;
        e.errors.push((pos, SexpyErrorKind::Low(kind)));
        proof {
            assert(e@ =~= o.push((pos as int, DiagKind::Low(kind))));
        }
        e
    }

    /// An accumulator with the one entry: character `c` was expected at
    /// `pos`.
    pub fn from_char(pos: usize, c: u8) -> (e: Self)
        ensures
            e@ == seq![(pos as int, DiagKind::Char(c))],
    {
        let e = SexpyError { errors: vec![(pos, SexpyErrorKind::Char(c))] };
        proof {
            assert(e@ =~= seq![(pos as int, DiagKind::Char(c))]);
        }
        e
    }

    /// Attaches the context label `ctx` behind `other`'s existing entries,
    /// associated with `pos` (the position where the context was added, not
    /// the original failure point). The deepest entry stays at index 0.
    pub fn add_context(pos: usize, ctx: Vec<u8>, other: Self) -> (e: Self)
        ensures
            e@ == other@.push((pos as int, DiagKind::Context(ctx@))),
    {
        let ghost o = other@;
        let ghost c = ctx@;
        let mut e = other;
        e.errors.push((pos, SexpyErrorKind::Context(ctx)));
        proof {
            assert(e@ =~= o.push((pos as int, DiagKind::Context(c))));
        }
        e
    }

    /// An accumulator with the one entry: a keyword was expected at `pos`,
    /// and the token `w` was found instead.
    pub fn from_word(pos: usize, w: Vec<u8>) -> (e: Self)
        ensures
            e@ == seq![(pos as int, DiagKind::Word(w@))],
    {
        let e = SexpyError { errors: vec![(pos, SexpyErrorKind::Word(w))] };
        proof {
            assert(e@ =~= seq![(pos as int, DiagKind::Word(w@))]);
        }
        e
    }

    /// An accumulator with the one entry: a well-formed number was expected
    /// at `pos`.
    pub fn number(pos: usize) -> (e: Self)
        ensures
            e@ == seq![(pos as int, DiagKind::Number)],
    {
        let e = SexpyError { errors: vec![(pos, SexpyErrorKind::Number)] };
        proof {
            assert(e@ =~= seq![(pos as int, DiagKind::Number)]);
        }
        e
    }
}

/// A failed parse, tagged by how alternation may treat it: a recoverable
/// failure lets alternation try the next candidate; a committed failure is
/// the final word for its branch.
#[derive(Debug)]
pub enum ParseErr {
    /// Recoverable: a sibling grammar rule may still be tried.
    Error(SexpyError),
    /// Committed: a commit point was passed; no sibling retry.
    Failure(SexpyError),
}

impl ParseErr {
    /// Whether the failure is committed.
    pub open spec fn committed(self) -> bool {
        self is Failure
    }

    /// The recorded diagnostics, deepest first.
    pub open spec fn errs(self) -> Seq<(int, DiagKind)> {
        match self {
            ParseErr::Error(e) => e@,
            ParseErr::Failure(e) => e@,
        }
    }
}

/// Position of the suffix `second` within the buffer `first` it is a suffix
/// of: the count of bytes of `first` that lie before `second`.
pub fn offset(first: &[u8], second: &[u8]) -> (n: usize)
    requires
        second@.len() <= first@.len(),
        second@ == first@.skip(first@.len() - second@.len()),
    ensures
        n == first@.len() - second@.len(),
        first@.skip(n as int) == second@,
{
    first.len() - second.len()
}

} // verus!

verus! {

/// The decimal digits of `n`, most significant first.
pub open spec fn dec_rep(n: int) -> Seq<u8>
    decreases n,
    when n >= 0
{
    if n < 10 {
        seq![(48 + n) as u8]
    } else {
        dec_rep(n / 10) + seq![(48 + (n % 10)) as u8]
    }
}

/// `n` spaces.
pub open spec fn spaces(n: int) -> Seq<u8>
    decreases n,
{
    if n <= 0 {
        Seq::empty()
    } else {
        spaces(n - 1).push(32u8)
    }
}

/// The name of a low-level diagnostic kind, as rendered.
pub open spec fn low_name(k: LowKind) -> Seq<u8> {
    match k {
        LowKind::Alpha => "Alpha".spec_bytes(),
        LowKind::Digit => "Digit".spec_bytes(),
        LowKind::Many0 => "Many0".spec_bytes(),
        LowKind::Many1 => "Many1".spec_bytes(),
        LowKind::Alt => "Alt".spec_bytes(),
    }
}

/// How many bytes the UTF-8 encoding of the character whose first byte is
/// `b` spans; a byte that can open no sequence counts as one.
pub open spec fn utf8_len(b: u8) -> int {
    if b < 128 {
        1
    } else if 192 <= b && b < 224 {
        2
    } else if 224 <= b && b < 240 {
        3
    } else if 240 <= b && b < 248 {
        4
    } else {
        1
    }
}

/// What was actually found at `off`: the quoted character starting there,
/// all of its bytes, cut short only by the end of the buffer; or an
/// end-of-input marker when `off` is at the end.
pub open spec fn found_text(s: Seq<u8>, off: int) -> Seq<u8> {
    if 0 <= off < s.len() {
        let end = if off + utf8_len(s[off]) <= s.len() {
            off + utf8_len(s[off])
        } else {
            s.len() as int
        };
        seq![39u8] + s.subrange(off, end) + seq![39u8]
    } else {
        "<eof>".spec_bytes()
    }
}

/// The displayed length of the line starting at `start`: up to the next
/// line feed, not counting a carriage return that sits right before that
/// line feed.
pub open spec fn clen(s: Seq<u8>, start: int) -> int {
    let e = crate::parsers::line_end(s, start);
    if e < s.len() && e - 1 >= start && s[e - 1] == 13 {
        e - 1 - start
    } else {
        e - start
    }
}

/// Scans the buffer line by line from `start` until `off` falls within a
/// line, at or before that line's line feed; every earlier line thus
/// costs its full length plus its terminator, a two-byte one included.
/// Yields that line's index relative to `start`, the column
/// `off - start`, and the line's start. `None` when `off` falls in no
/// line (it points past a final line terminator).
pub open spec fn walk_line(s: Seq<u8>, start: int, off: int) -> Option<(int, int, int)>
    decreases s.len() - start,
    when 0 <= start <= s.len() && start <= off
{
    if start >= s.len() {
        None
    } else {
        let e = crate::parsers::line_end(s, start);
        if off <= e {
            Some((0, off - start, start))
        } else if e >= s.len() {
            None
        } else {
            proof {
                crate::parsers::lemma_line_end(s, start);
            }
            match walk_line(s, e + 1, off) {
                Some(t) => Some((t.0 + 1, t.1, t.2)),
                None => None,
            }
        }
    }
}

/// The line index, column and line start for the diagnostic position
/// `off`; the first line when `off` falls in no line.
pub open spec fn err_loc(s: Seq<u8>, off: int) -> (int, int, int) {
    match walk_line(s, 0, off) {
        Some(t) => t,
        None => (0, 0, 0),
    }
}

/// The full source line the diagnostic points at, verbatim (without its
/// terminator).
pub open spec fn err_text(s: Seq<u8>, off: int) -> Seq<u8> {
    let st = err_loc(s, off).2;
    s.subrange(st, st + clen(s, st))
}

/// The rendered form of one diagnostic: a header naming the failure kind
/// and the line, the offending source line, a caret under the column, and
/// a one-line description of expected versus found. An empty buffer gets a
/// one-line message instead.
pub open spec fn format_error_model(s: Seq<u8>, num: int, off: int, kind: DiagKind) -> Seq<u8> {
    if s.len() == 0 {
        match kind {
            DiagKind::Char(c) => dec_rep(num) + ": expected '".spec_bytes() + seq![c]
                + "', got empty input\n\n".spec_bytes(),
            DiagKind::Word(_) => dec_rep(num) + ": expected a keyword, got empty input\n\n".spec_bytes(),
            DiagKind::Number => dec_rep(num) + ": expected a number, got empty input\n\n".spec_bytes(),
            DiagKind::Context(l) => dec_rep(num) + ": in ".spec_bytes() + l
                + ", got empty input\n\n".spec_bytes(),
            DiagKind::Low(k) => dec_rep(num) + ": in ".spec_bytes() + low_name(k)
                + ", got empty input\n\n".spec_bytes(),
        }
    } else {
        let line = err_loc(s, off).0;
        let col = err_loc(s, off).1;
        let caret = err_text(s, off) + "\n".spec_bytes() + spaces(col) + "^\n".spec_bytes();
        match kind {
            DiagKind::Char(c) => dec_rep(num) + ": at line ".spec_bytes() + dec_rep(line)
                + ":\n".spec_bytes() + caret + "expected '".spec_bytes() + seq![c]
                + "', found ".spec_bytes() + found_text(s, off) + "\n\n".spec_bytes(),
            DiagKind::Word(w) => dec_rep(num) + ": at line ".spec_bytes() + dec_rep(line)
                + ":\n".spec_bytes() + caret + "expected a keyword, found \"".spec_bytes() + w
                + "\"\n\n".spec_bytes(),
            DiagKind::Number => dec_rep(num) + ": at line ".spec_bytes() + dec_rep(line)
                + ":\n".spec_bytes() + caret + "unable to parse number\n\n".spec_bytes(),
            DiagKind::Context(l) => dec_rep(num) + ": at line ".spec_bytes() + dec_rep(line)
                + ", in ".spec_bytes() + l + ":\n".spec_bytes() + caret + "\n".spec_bytes(),
            DiagKind::Low(k) => dec_rep(num) + ": at line ".spec_bytes() + dec_rep(line)
                + ", in ".spec_bytes() + low_name(k) + ":\n".spec_bytes() + caret
                + "\n".spec_bytes(),
        }
    }
}

/// The first `i` diagnostics rendered and concatenated, each numbered by
/// its index.
pub open spec fn render_upto(s: Seq<u8>, errs: Seq<(int, DiagKind)>, i: int) -> Seq<u8>
    decreases i,
{
    if i <= 0 {
        Seq::empty()
    } else {
        render_upto(s, errs, i - 1) + format_error_model(s, i - 1, errs[i - 1].0, errs[i - 1].1)
    }
}

} // verus!

verus! {

/// `clen` is the length of a piece of the line starting at `start`.
pub proof fn lemma_clen(s: Seq<u8>, start: int)
    requires
        0 <= start <= s.len(),
    ensures
        0 <= clen(s, start),
        start + clen(s, start) <= s.len(),
{
    crate::parsers::lemma_line_end(s, start);
}

/// Where the walk stops is a line of the buffer holding the offset: the
/// line's start is in bounds, the offset sits between that start and the
/// line's line feed, and the column is exactly the offset minus the
/// line's start.
pub proof fn lemma_walk_line_wf(s: Seq<u8>, start: int, off: int)
    requires
        0 <= start <= s.len(),
        start <= off,
    ensures
        match walk_line(s, start, off) {
            Some(t) => 0 <= t.0 && t.1 == off - t.2 && start <= t.2 <= off && t.2 <= s.len()
                && off <= crate::parsers::line_end(s, t.2),
            None => true,
        },
    decreases s.len() - start,
{
    if start < s.len() {
        let e = crate::parsers::line_end(s, start);
        crate::parsers::lemma_line_end(s, start);
        if off <= e {
        } else if e < s.len() {
            lemma_walk_line_wf(s, e + 1, off);
        }
    }
}

/// Whenever the diagnostic offset falls within a line, the reported
/// column is exactly the offset minus the reported line's start.
pub proof fn lemma_err_loc_column(s: Seq<u8>, off: int)
    requires
        0 <= off <= s.len(),
    ensures
        walk_line(s, 0, off) is Some ==> err_loc(s, off).1 == off - err_loc(s, off).2,
{
    lemma_walk_line_wf(s, 0, off);
}

/// The decimal digits of `n`, most significant first.
pub fn to_decimal(n: usize) -> (v: Vec<u8>)
    ensures
        v@ == dec_rep(n as int),
    decreases n,
{
    if n < 10 {
        let v = vec![(48 + n) as u8];
        proof {
            assert(v@ =~= dec_rep(n as int));
        }
        v
    } else {
        let mut v = to_decimal(n / 10);
        v.push((48 + (n % 10)) as u8);
        proof {
            assert(v@ =~= dec_rep((n / 10) as int) + seq![(48 + (n as int % 10)) as u8]);
        }
        v
    }
}

/// Appends a byte string to `out`.
pub fn push_slice(out: &mut Vec<u8>, b: &[u8])
    ensures
        final(out)@ == old(out)@ + b@,
{
    let ghost o = old(out)@;
    let mut i: usize = 0;
    while i < b.len()
        invariant
            i <= b@.len(),
            out@ == o + b@.subrange(0, i as int),
        decreases b@.len() - i,
    {
        out.push(b[i]);
        proof {
            assert(o + b@.subrange(0, i as int) + seq![b@[i as int]] =~= o + b@.subrange(
                0,
                i + 1,
            ));
        }
        i = i + 1;
    }
    proof {
        assert(o + b@.subrange(0, b@.len() as int) =~= o + b@);
    }
}

/// Appends a string's bytes to `out`.
pub fn push_str(out: &mut Vec<u8>, t: &str)
    ensures
        final(out)@ == old(out)@ + t.spec_bytes(),
{
    push_slice(out, t.as_bytes());
}

/// Appends the decimal digits of `n` to `out`.
pub fn push_dec(out: &mut Vec<u8>, n: usize)
    ensures
        final(out)@ == old(out)@ + dec_rep(n as int),
{
    let d = to_decimal(n);
    push_slice(out, d.as_slice());
}

/// Appends `n` spaces to `out`.
pub fn push_spaces(out: &mut Vec<u8>, n: usize)
    ensures
        final(out)@ == old(out)@ + spaces(n as int),
{
    let ghost o = old(out)@;
    let mut i: usize = 0;
    while i < n
        invariant
            i <= n,
            out@ == o + spaces(i as int),
        decreases n - i,
    {
        out.push(32);
        i = i + 1;
    }
}

/// Appends `input[from..to)` to `out`.
pub fn push_range(out: &mut Vec<u8>, input: &[u8], from: usize, to: usize)
    requires
        from <= to <= input@.len(),
    ensures
        final(out)@ == old(out)@ + input@.subrange(from as int, to as int),
{
    let ghost o = old(out)@;
    let mut i: usize = from;
    while i < to
        invariant
            from <= i <= to <= input@.len(),
            out@ == o + input@.subrange(from as int, i as int),
        decreases to - i,
    {
        out.push(input[i]);
        proof {
            assert(o + input@.subrange(from as int, i as int) + seq![input@[i as int]] =~= o
                + input@.subrange(from as int, i + 1));
        }
        i = i + 1;
    }
}

/// The line index, column, line start and line length for the diagnostic
/// position `pos`.
fn locate(input: &[u8], pos: usize) -> (r: (usize, usize, usize, usize))
    requires
        input@.len() > 0,
        pos <= input@.len(),
    ensures
        ({
            let loc = err_loc(input@, pos as int);
            r.0 == loc.0 && r.1 == loc.1 && r.2 == loc.2 && r.3 == clen(input@, loc.2)
                && r.2 + r.3 <= input@.len()
        }),
{
    let ghost s = input@;
    let mut start: usize = 0;
    let mut line: usize = 0;
    let mut col: usize = 0;
    loop
        invariant_except_break
            line <= start,
            start <= pos,
            walk_line(s, 0, pos as int) == (match walk_line(s, start as int, pos as int) {
                Some(t) => Some((t.0 + line as int, t.1, t.2)),
                None => None::<(int, int, int)>,
            }),
        invariant
            0 <= start <= s.len(),
            s == input@,
            s.len() > 0,
        ensures
            ({
                let loc = err_loc(s, pos as int);
                start == loc.2 && line == loc.0 && col == loc.1 && start + clen(s, start as int)
                    <= s.len()
            }),
        decreases s.len() - start,
    {
        proof {
            crate::parsers::lemma_line_end(s, start as int);
            lemma_clen(s, start as int);
        }
        if start >= input.len() {
            proof {
                assert(walk_line(s, start as int, pos as int) is None);
                lemma_clen(s, 0);
            }
            start = 0;
            line = 0;
            col = 0;
            break;
        }
        let e = crate::parsers::find_line_end(input, start);
        if pos <= e {
            proof {
                assert(walk_line(s, start as int, pos as int) == Some(
                    (0int, pos as int - start as int, start as int),
                ));
            }
            col = pos - start;
            break;
        } else if e >= input.len() {
            proof {
                assert(walk_line(s, start as int, pos as int) is None);
                lemma_clen(s, 0);
            }
            start = 0;
            line = 0;
            col = 0;
            break;
        } else {
            start = e + 1;
            line = line + 1;
        }
    }
    proof {
        lemma_clen(s, start as int);
    }
    let e = crate::parsers::find_line_end(input, start);
    let cl: usize = if e < input.len() && e >= start + 1 && input[e - 1] == 13 {
        e - 1 - start
    } else {
        e - start
    };
    (line, col, start, cl)
}

} // verus!

verus! {

/// Renders one diagnostic against the buffer it points into: a header with
/// the entry number `num` and the line, the offending line verbatim, a
/// caret under the column, and what was expected versus found.
#[verifier::rlimit(50)]
pub fn format_error(input: &[u8], num: usize, pos: usize, kind: &SexpyErrorKind) -> (out: Vec<u8>)
    requires
        pos <= input@.len(),
    ensures
        out@ == format_error_model(input@, num as int, pos as int, kind.model()),
{
    let ghost s = input@;
    let mut out: Vec<u8> = Vec::new();
    if input.len() == 0 {
        push_dec(&mut out, num);
        match kind {
            SexpyErrorKind::Char(c) => {
                push_str(&mut out, ": expected '");
                out.push(*c);
                push_str(&mut out, "', got empty input\n\n");
            },
            SexpyErrorKind::Word(_) => {
                push_str(&mut out, ": expected a keyword, got empty input\n\n");
            },
            SexpyErrorKind::Number => {
                push_str(&mut out, ": expected a number, got empty input\n\n");
            },
            SexpyErrorKind::Context(l) => {
                push_str(&mut out, ": in ");
                push_slice(&mut out, l.as_slice());
                push_str(&mut out, ", got empty input\n\n");
            },
            SexpyErrorKind::Low(k) => {
                push_str(&mut out, ": in ");
                push_low_name(&mut out, *k);
                push_str(&mut out, ", got empty input\n\n");
            },
        }
    } else {
        let (line, col, start, cl) = locate(input, pos);
        push_dec(&mut out, num);
        match kind {
            SexpyErrorKind::Char(c) => {
                push_str(&mut out, ": at line ");
                push_dec(&mut out, line);
                push_str(&mut out, ":\n");
                push_range(&mut out, input, start, start + cl);
                push_str(&mut out, "\n");
                push_spaces(&mut out, col);
                push_str(&mut out, "^\n");
                push_str(&mut out, "expected '");
                out.push(*c);
                push_str(&mut out, "', found ");
                if pos < input.len() {
                    out.push(39);
                    let b = input[pos];
                    let n: usize = if b < 128 {
                        1
                    } else if 192 <= b && b < 224 {
                        2
                    } else if 224 <= b && b < 240 {
                        3
                    } else if 240 <= b && b < 248 {
                        4
                    } else {
                        1
                    };
                    let rem = input.len() - pos;
                    let end: usize = if n <= rem {
                        pos + n
                    } else {
                        input.len()
                    };
                    push_range(&mut out, input, pos, end);
                    out.push(39);
                } else {
                    push_str(&mut out, "<eof>");
                }
                push_str(&mut out, "\n\n");
            },
            SexpyErrorKind::Word(w) => {
                push_str(&mut out, ": at line ");
                push_dec(&mut out, line);
                push_str(&mut out, ":\n");
                push_range(&mut out, input, start, start + cl);
                push_str(&mut out, "\n");
                push_spaces(&mut out, col);
                push_str(&mut out, "^\n");
                push_str(&mut out, "expected a keyword, found \"");
                push_slice(&mut out, w.as_slice());
                push_str(&mut out, "\"\n\n");
            },
            SexpyErrorKind::Number => {
                push_str(&mut out, ": at line ");
                push_dec(&mut out, line);
                push_str(&mut out, ":\n");
                push_range(&mut out, input, start, start + cl);
                push_str(&mut out, "\n");
                push_spaces(&mut out, col);
                push_str(&mut out, "^\n");
                push_str(&mut out, "unable to parse number\n\n");
            },
            SexpyErrorKind::Context(l) => {
                push_str(&mut out, ": at line ");
                push_dec(&mut out, line);
                push_str(&mut out, ", in ");
                push_slice(&mut out, l.as_slice());
                push_str(&mut out, ":\n");
                push_range(&mut out, input, start, start + cl);
                push_str(&mut out, "\n");
                push_spaces(&mut out, col);
                push_str(&mut out, "^\n");
                push_str(&mut out, "\n");
            },
            SexpyErrorKind::Low(k) => {
                push_str(&mut out, ": at line ");
                push_dec(&mut out, line);
                push_str(&mut out, ", in ");
                push_low_name(&mut out, *k);
                push_str(&mut out, ":\n");
                push_range(&mut out, input, start, start + cl);
                push_str(&mut out, "\n");
                push_spaces(&mut out, col);
                push_str(&mut out, "^\n");
                push_str(&mut out, "\n");
            },
        }
    }
    out
}

/// Appends the name of a low-level diagnostic kind to `out`.
fn push_low_name(out: &mut Vec<u8>, k: LowKind)
    ensures
        final(out)@ == old(out)@ + low_name(k),
{
    match k {
        LowKind::Alpha => push_str(out, "Alpha"),
        LowKind::Digit => push_str(out, "Digit"),
        LowKind::Many0 => push_str(out, "Many0"),
        LowKind::Many1 => push_str(out, "Many1"),
        LowKind::Alt => push_str(out, "Alt"),
    }
}

impl SexpyError {
    /// Renders the accumulator against the buffer it points into, showing
    /// only the topmost (deepest, most specific) diagnostic. Use
    /// `convert_error_verbose` for the whole chain.
    pub fn convert_error(&self, input: &[u8]) -> (out: Vec<u8>)
        requires
            self@.len() > 0,
            forall|i: int| 0 <= i < self@.len() ==> 0 <= (#[trigger] self@[i]).0 <= input@.len(),
        ensures
            out@ == format_error_model(input@, 0, self@[0].0, self@[0].1),
    {
        let (pos, kind) = (self.errors[0].0, &self.errors[0].1);
        proof {
            assert(self@[0] == (pos as int, kind.model()));
        }
        format_error(input, 0, pos, kind)
    }

    /// Renders the whole accumulator against the buffer it points into,
    /// every diagnostic in stored order, deepest first.
    pub fn convert_error_verbose(&self, input: &[u8]) -> (out: Vec<u8>)
        requires
            forall|i: int| 0 <= i < self@.len() ==> 0 <= (#[trigger] self@[i]).0 <= input@.len(),
        ensures
            out@ == render_upto(input@, self@, self@.len() as int),
    {
        let ghost s = input@;
        let mut out: Vec<u8> = Vec::new();
        let mut i: usize = 0;
        while i < self.errors.len()
            invariant
                i <= self@.len(),
                s == input@,
                self@.len() == self.errors@.len(),
                forall|j: int| 0 <= j < self@.len() ==> 0 <= (#[trigger] self@[j]).0 <= s.len(),
                out@ == render_upto(s, self@, i as int),
            decreases self@.len() - i,
        {
            let (pos, kind) = (self.errors[i].0, &self.errors[i].1);
            proof {
                assert(self@[i as int] == (pos as int, kind.model()));
            }
            let piece = format_error(input, i, pos, kind);
            push_slice(&mut out, piece.as_slice());
            i = i + 1;
        }
        out
    }
}

} // verus!
