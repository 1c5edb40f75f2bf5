//! Laws of the engine: what holds of every input, stated over the
//! mathematical interpreter and proved once and for all.

use vstd::prelude::*;
use crate::error::DiagKind;
use crate::engine::{
    alt_spec, closing_paren_label, many_spec, parse_spec, surround_close_spec, tuple_spec, PRes,
};
use crate::grammar::{Shape, Val};
use crate::parsers::{
    is_boundary, is_space, lemma_token_end, lemma_wb_end, lemma_wb_end_idempotent, token_end,
    wb_end,
};

verus! {

/// Whether a value has exactly the form the shape describes: the matching
/// constructor, the rule's arity, and conforming components all the way
/// down.
pub open spec fn conforms(v: Val, g: Shape) -> bool
    decreases g, v, 0int,
{
    match g {
        Shape::Text => v is Text,
        Shape::U64 => v is U64,
        Shape::U32 => v is U32,
        Shape::I64 => v is I64,
        Shape::I32 => v is I32,
        Shape::Maybe(b) => {
            proof {
                assert(decreases_to!(g => b));
            }
            match v {
                Val::Maybe(o) => match o {
                    Some(iv) => {
                        proof {
                            assert(decreases_to!(v => o));
                            assert(decreases_to!(o => iv));
                        }
                        conforms(*iv, *b)
                    },
                    None => true,
                },
                _ => false,
            }
        },
        Shape::Many(b) => {
            proof {
                assert(decreases_to!(g => b));
            }
            match v {
                Val::List(vs) => {
                    proof {
                        assert(decreases_to!(v => vs));
                    }
                    conforms_list(vs, *b)
                },
                _ => false,
            }
        },
        Shape::Tuple(shapes) => {
            proof {
                assert(decreases_to!(g => shapes));
                assert(decreases_to!(shapes => shapes@));
            }
            match v {
                Val::Tuple(vs) => {
                    proof {
                        assert(decreases_to!(v => vs));
                    }
                    conforms_tuple(vs, shapes@)
                },
                _ => false,
            }
        },
        Shape::Alt(shapes) => {
            proof {
                assert(decreases_to!(g => shapes));
                assert(decreases_to!(shapes => shapes@));
            }
            conforms_alt(v, shapes@)
        },
        Shape::Head(_, b) => {
            proof {
                assert(decreases_to!(g => b));
            }
            conforms(v, *b)
        },
        Shape::Surround(b) => {
            proof {
                assert(decreases_to!(g => b));
            }
            conforms(v, *b)
        },
        Shape::Context(_, b) => {
            proof {
                assert(decreases_to!(g => b));
            }
            conforms(v, *b)
        },
        Shape::Padded(b) => {
            proof {
                assert(decreases_to!(g => b));
            }
            conforms(v, *b)
        },
        Shape::Wordbreak => v is Unit,
    }
}

/// Whether every element of a repetition conforms to the inner shape.
pub open spec fn conforms_list(vs: Seq<Val>, inner: Shape) -> bool
    decreases inner, vs, 1int,
{
    if vs.len() == 0 {
        true
    } else {
        proof {
            assert(decreases_to!(vs => vs[0]));
            assert(decreases_to!(vs => vs.subrange(1, vs.len() as int)));
        }
        conforms(vs[0], inner) && conforms_list(vs.subrange(1, vs.len() as int), inner)
    }
}

/// Whether a sequence of values conforms to a sequence of shapes, element
/// for element, with the same arity.
pub open spec fn conforms_tuple(vs: Seq<Val>, shapes: Seq<Shape>) -> bool
    decreases shapes, vs, 1int,
{
    if shapes.len() == 0 {
        vs.len() == 0
    } else {
        proof {
            assert(decreases_to!(shapes => shapes[0]));
            assert(decreases_to!(shapes => shapes.subrange(1, shapes.len() as int)));
        }
        vs.len() == shapes.len() && conforms(vs[0], shapes[0]) && conforms_tuple(
            vs.subrange(1, vs.len() as int),
            shapes.subrange(1, shapes.len() as int),
        )
    }
}

/// Whether a value conforms to one of the alternation's candidates.
pub open spec fn conforms_alt(v: Val, shapes: Seq<Shape>) -> bool
    decreases shapes, v, 1int,
{
    if shapes.len() == 0 {
        false
    } else {
        proof {
            assert(decreases_to!(shapes => shapes[0]));
            assert(decreases_to!(shapes => shapes.subrange(1, shapes.len() as int)));
        }
        conforms(v, shapes[0]) || conforms_alt(v, shapes.subrange(1, shapes.len() as int))
    }
}

/// For every input a grammar accepts, the typed parser returns exactly the
/// decoded value of that grammar: the value has the rule's constructor and
/// arity, with conforming components all the way down.
pub proof fn lemma_parse_conforms(s: Seq<u8>, pos: int, g: Shape)
    requires
        0 <= pos <= s.len(),
    ensures
        parse_spec(s, pos, g) matches PRes::Done { val, .. } ==> conforms(val, g),
    decreases g, s.len() - pos, 0int,
{
    match g {
        Shape::Text => {},
        Shape::U64 => {},
        Shape::U32 => {},
        Shape::I64 => {},
        Shape::I32 => {},
        Shape::Maybe(b) => {
            assert(decreases_to!(g => *b));
            lemma_parse_conforms(s, pos, *b);

        },
        Shape::Many(b) => {
            assert(decreases_to!(g => *b));
            lemma_many_conforms(s, pos, *b);

        },
        Shape::Tuple(shapes) => {
            assert(decreases_to!(g => shapes));
            assert(decreases_to!(shapes => shapes@));
            lemma_tuple_conforms(s, pos, shapes@);

        },
        Shape::Alt(shapes) => {
            assert(decreases_to!(g => shapes));
            assert(decreases_to!(shapes => shapes@));
            lemma_alt_conforms(s, pos, shapes@);

        },
        Shape::Head(tag, b) => {
            lemma_token_end(s, pos);
            let te = token_end(s, pos);
            if s.subrange(pos, te) == tag@ {
                assert(decreases_to!(g => *b));
                lemma_parse_conforms(s, te, *b);
            }
        },
        Shape::Surround(b) => {
            assert(decreases_to!(g => *b));
            if pos < s.len() && (s[pos] == 40 || s[pos] == 91 || s[pos] == 123) {
                let closer: u8 = if s[pos] == 40 {
                    41
                } else if s[pos] == 91 {
                    93
                } else {
                    125
                };
                let label = if s[pos] == 40 {
                    crate::engine::closing_paren_label()
                } else if s[pos] == 91 {
                    crate::engine::closing_bracket_label()
                } else {
                    crate::engine::closing_brace_label()
                };
                assert(parse_spec(s, pos, g) == surround_close_spec(s, pos + 1, *b, closer, label));
                lemma_wb_end(s, pos + 1);
                let p2 = wb_end(s, pos + 1);
                lemma_parse_conforms(s, p2, *b);
                match parse_spec(s, p2, *b) {
                    PRes::Done { pos: p3, val } => {
                        assert(conforms(val, *b));
                        assert(parse_spec(s, p2, *b).cut() == parse_spec(s, p2, *b));
                    },
                    PRes::Fail { .. } => {},
                }
            }
        },
        Shape::Context(_, b) => {
            assert(decreases_to!(g => *b));
            lemma_parse_conforms(s, pos, *b);

        },
        Shape::Padded(b) => {
            lemma_wb_end(s, pos);
            assert(decreases_to!(g => *b));
            lemma_parse_conforms(s, wb_end(s, pos), *b);
        },
        Shape::Wordbreak => {},
    }
}

/// Every value a repetition decodes is a list of conforming elements.
proof fn lemma_many_conforms(s: Seq<u8>, pos: int, inner: Shape)
    requires
        0 <= pos <= s.len(),
    ensures
        many_spec(s, pos, inner) matches PRes::Done { val, .. } ==> (val is List && conforms_list(
            val->List_0,
            inner,
        )),
    decreases inner, s.len() - pos, 1int,
{
    lemma_wb_end(s, pos);
    let p2 = wb_end(s, pos);
    lemma_parse_conforms(s, p2, inner);
    match parse_spec(s, p2, inner) {
        PRes::Done { pos: p3, val: v } => {
            if pos < p3 <= s.len() {
                lemma_many_conforms(s, p3, inner);
                match many_spec(s, p3, inner) {
                    PRes::Done { val: rest, .. } => {
                        let all = seq![v] + rest->List_0;
                        assert(all[0] == v);
                        assert(all.subrange(1, all.len() as int) =~= rest->List_0);
                    },
                    _ => {},
                }
            }
        },
        PRes::Fail { .. } => {
            assert(conforms_list(Seq::<Val>::empty(), inner));
        },
    }
}

/// Every value a sequence of shapes decodes is a tuple of conforming
/// components, one per shape.
proof fn lemma_tuple_conforms(s: Seq<u8>, pos: int, shapes: Seq<Shape>)
    requires
        0 <= pos <= s.len(),
    ensures
        tuple_spec(s, pos, shapes) matches PRes::Done { val, .. } ==> (val is Tuple
            && conforms_tuple(val->Tuple_0, shapes)),
    decreases shapes, s.len() - pos, 1int,
{
    if shapes.len() > 0 {
        assert(decreases_to!(shapes => shapes[0]));
        assert(decreases_to!(shapes => shapes.subrange(1, shapes.len() as int)));
        lemma_parse_conforms(s, pos, shapes[0]);
        match parse_spec(s, pos, shapes[0]) {
            PRes::Done { pos: p1, val: v1 } => {
                if 0 <= p1 <= s.len() {
                    lemma_tuple_conforms(s, p1, shapes.subrange(1, shapes.len() as int));
                    match tuple_spec(s, p1, shapes.subrange(1, shapes.len() as int)) {
                        PRes::Done { val: rest, .. } => {
                            let all = seq![v1] + rest->Tuple_0;
                            assert(all[0] == v1);
                            assert(all.subrange(1, all.len() as int) =~= rest->Tuple_0);
                        },
                        _ => {},
                    }
                }
            },
            _ => {},
        }
    }
}

/// Every value an alternation decodes conforms to one of its candidates.
proof fn lemma_alt_conforms(s: Seq<u8>, pos: int, shapes: Seq<Shape>)
    requires
        0 <= pos <= s.len(),
    ensures
        alt_spec(s, pos, shapes) matches PRes::Done { val, .. } ==> conforms_alt(val, shapes),
    decreases shapes, s.len() - pos, 1int,
{
    if shapes.len() > 0 {
        assert(decreases_to!(shapes => shapes[0]));
        assert(decreases_to!(shapes => shapes.subrange(1, shapes.len() as int)));
        lemma_parse_conforms(s, pos, shapes[0]);
        match parse_spec(s, pos, shapes[0]) {
            PRes::Fail { committed: false, .. } => {
                if shapes.len() > 1 {
                    lemma_alt_conforms(s, pos, shapes.subrange(1, shapes.len() as int));
                }
            },
            _ => {},
        }
    }
}

/// A successfully parsed surrounded form is consumed whole: the parse
/// stops exactly one past the closing delimiter that matches the opening
/// one, so no input belonging to the form is left over.
pub proof fn lemma_surround_consumes_form(s: Seq<u8>, pos: int, inner: Shape)
    requires
        0 <= pos <= s.len(),
        parse_spec(s, pos, Shape::Surround(Box::new(inner))) is Done,
    ensures
        ({
            let p = parse_spec(s, pos, Shape::Surround(Box::new(inner)))->Done_pos;
            &&& pos < p <= s.len()
            &&& (s[pos] == 40 ==> s[p - 1] == 41)
            &&& (s[pos] == 91 ==> s[p - 1] == 93)
            &&& (s[pos] == 123 ==> s[p - 1] == 125)
        }),
{
    let g = Shape::Surround(Box::new(inner));
    crate::engine::lemma_parse_wf(s, pos, g);
    if pos < s.len() && (s[pos] == 40 || s[pos] == 91 || s[pos] == 123) {
        let closer: u8 = if s[pos] == 40 {
            41
        } else if s[pos] == 91 {
            93
        } else {
            125
        };
        let label = if s[pos] == 40 {
            closing_paren_label()
        } else if s[pos] == 91 {
            crate::engine::closing_bracket_label()
        } else {
            crate::engine::closing_brace_label()
        };
        assert(parse_spec(s, pos, g) == surround_close_spec(s, pos + 1, inner, closer, label));
        lemma_wb_end(s, pos + 1);
        let p2 = wb_end(s, pos + 1);
        crate::engine::lemma_parse_wf(s, p2, inner);
        match parse_spec(s, p2, inner).cut() {
            PRes::Done { pos: p3, .. } => {
                lemma_wb_end(s, p3);
                let p4 = wb_end(s, p3);
                assert(p4 < s.len() && s[p4] == closer);
            },
            PRes::Fail { .. } => {},
        }
    } else {
        assert(parse_spec(s, pos, g) is Fail);
    }
}

/// A word break always succeeds, never moves backwards, and is idempotent:
/// on input with no leading whitespace or comment it consumes exactly
/// nothing, and skipping twice is skipping once.
pub proof fn lemma_wordbreak(s: Seq<u8>, pos: int)
    requires
        0 <= pos <= s.len(),
    ensures
        parse_spec(s, pos, Shape::Wordbreak) matches PRes::Done { pos: p, val } && p == wb_end(
            s,
            pos,
        ) && val == Val::Unit,
        pos <= wb_end(s, pos) <= s.len(),
        wb_end(s, wb_end(s, pos)) == wb_end(s, pos),
        (pos == s.len() || (!is_space(s[pos]) && s[pos] != 59)) ==> wb_end(s, pos) == pos,
{
    lemma_wb_end(s, pos);
    lemma_wb_end_idempotent(s, pos);
}

/// `word(tag)` on the keyword `tag` followed by a boundary character or
/// the end of input succeeds and leaves the boundary untouched: the token
/// ends exactly where `tag` does.
pub proof fn lemma_word_exact(s: Seq<u8>, pos: int, tag: Seq<u8>)
    requires
        0 <= pos,
        pos + tag.len() <= s.len(),
        forall|i: int| 0 <= i < tag.len() ==> s[pos + i] == tag[i] && !is_boundary(#[trigger] tag[i]),
        pos + tag.len() == s.len() || is_boundary(s[pos + tag.len()]),
    ensures
        token_end(s, pos) == pos + tag.len(),
        s.subrange(pos, pos + tag.len()) == tag,
    decreases tag.len(),
{
    if tag.len() == 0 {
        assert(s.subrange(pos, pos) =~= tag);
    } else {
        let tag1 = tag.subrange(1, tag.len() as int);
        assert(s[pos] == tag[0] && !is_boundary(tag[0]));
        assert forall|i: int| 0 <= i < tag1.len() implies s[pos + 1 + i] == tag1[i]
            && !is_boundary(#[trigger] tag1[i]) by {
            assert(tag1[i] == tag[i + 1]);
            assert(s[pos + (i + 1)] == tag[i + 1] && !is_boundary(tag[i + 1]));
        }
        lemma_word_exact(s, pos + 1, tag1);
        assert(s.subrange(pos, pos + tag.len()) =~= tag);
    }
}

/// `word(tag)` on a longer token that merely starts with `tag` consumes
/// the whole token and fails: the diagnostic carries the full token found,
/// never `tag` itself.
pub proof fn lemma_word_overrun(s: Seq<u8>, pos: int, tag: Seq<u8>)
    requires
        0 <= pos <= s.len(),
        token_end(s, pos) > pos + tag.len(),
    ensures
        s.subrange(pos, token_end(s, pos)) != tag,
        s.subrange(pos, token_end(s, pos)).len() > tag.len(),
{
    lemma_token_end(s, pos);
}

/// Once a head keyword has matched, a failure inside its argument parse is
/// committed: it carries the inner diagnostics and no sibling alternative
/// will be tried.
pub proof fn lemma_head_commits(s: Seq<u8>, pos: int, tag: Vec<u8>, inner: Shape)
    requires
        0 <= pos <= s.len(),
        s.subrange(pos, token_end(s, pos)) == tag@,
        parse_spec(s, token_end(s, pos), inner) is Fail,
    ensures
        ({
            let r = parse_spec(s, pos, Shape::Head(tag, Box::new(inner)));
            let inner_r = parse_spec(s, token_end(s, pos), inner);
            r matches PRes::Fail { committed, errs } && committed && errs == inner_r->Fail_errs
        }),
{
    lemma_token_end(s, pos);
}

/// A committed failure stops the alternation at once: whatever candidates
/// follow, the alternation's outcome is that committed failure, verbatim.
pub proof fn lemma_alt_commit_point(s: Seq<u8>, pos: int, shapes: Seq<Shape>, i: int)
    requires
        0 <= pos <= s.len(),
        0 <= i < shapes.len(),
        forall|j: int|
            0 <= j < i ==> (#[trigger] parse_spec(s, pos, shapes[j])) matches PRes::Fail {
                committed: false,
                ..
            },
        parse_spec(s, pos, shapes[i]) matches PRes::Fail { committed: true, .. },
    ensures
        alt_spec(s, pos, shapes) == parse_spec(s, pos, shapes[i]),
    decreases i,
{
    if i == 0 {
    } else {
        let rest = shapes.subrange(1, shapes.len() as int);
        assert(parse_spec(s, pos, shapes[0]) matches PRes::Fail { committed: false, .. });
        assert forall|j: int| 0 <= j < i - 1 implies (#[trigger] parse_spec(s, pos, rest[j]))
            matches PRes::Fail { committed: false, .. } by {
            assert(rest[j] == shapes[j + 1]);
        }
        assert(rest[i - 1] == shapes[i]);
        lemma_alt_commit_point(s, pos, rest, i - 1);
    }
}

/// When every candidate of an alternation fails recoverably, the
/// alternation's outcome is the last candidate's failure, verbatim.
pub proof fn lemma_alt_last_error(s: Seq<u8>, pos: int, shapes: Seq<Shape>)
    requires
        0 <= pos <= s.len(),
        shapes.len() >= 1,
        forall|j: int|
            0 <= j < shapes.len() ==> (#[trigger] parse_spec(s, pos, shapes[j]))
                matches PRes::Fail { committed: false, .. },
    ensures
        alt_spec(s, pos, shapes) == parse_spec(s, pos, shapes[shapes.len() - 1]),
    decreases shapes.len(),
{
    assert(parse_spec(s, pos, shapes[0]) matches PRes::Fail { committed: false, .. });
    if shapes.len() > 1 {
        let rest = shapes.subrange(1, shapes.len() as int);
        assert forall|j: int| 0 <= j < rest.len() implies (#[trigger] parse_spec(s, pos, rest[j]))
            matches PRes::Fail { committed: false, .. } by {
            assert(rest[j] == shapes[j + 1]);
        }
        lemma_alt_last_error(s, pos, rest);
        assert(rest[rest.len() - 1] == shapes[shapes.len() - 1]);
    }
}

/// A missing closing parenthesis is a committed failure: when the input
/// opens with `(` and the inner parse succeeds but no `)` follows, the
/// whole surround fails committed, tagged `closing paren`, and its
/// reported position sits at or after the end of the inner content, never
/// back at the opening parenthesis.
pub proof fn lemma_surround_missing_paren(s: Seq<u8>, pos: int, inner: Shape)
    requires
        0 <= pos < s.len(),
        s[pos] == 40,
        parse_spec(s, wb_end(s, pos + 1), inner) is Done,
        ({
            let p3 = parse_spec(s, wb_end(s, pos + 1), inner)->Done_pos;
            wb_end(s, p3) == s.len() || s[wb_end(s, p3)] != 41
        }),
    ensures
        ({
            let p3 = parse_spec(s, wb_end(s, pos + 1), inner)->Done_pos;
            let p4 = wb_end(s, p3);
            let r = parse_spec(s, pos, Shape::Surround(Box::new(inner)));
            &&& r matches PRes::Fail { committed, errs } && committed && errs == seq![
                (p4, DiagKind::Char(41u8)),
                (p4, DiagKind::Context(closing_paren_label())),
            ]
            &&& p4 >= p3
            &&& p4 > pos
        }),
{
    let g = Shape::Surround(Box::new(inner));
    assert(parse_spec(s, pos, g) == surround_close_spec(
        s,
        pos + 1,
        inner,
        41,
        closing_paren_label(),
    ));
    lemma_wb_end(s, pos + 1);
    let p2 = wb_end(s, pos + 1);
    crate::engine::lemma_parse_wf(s, p2, inner);
    match parse_spec(s, p2, inner) {
        PRes::Done { pos: p3, .. } => {
            lemma_wb_end(s, p3);
            assert(parse_spec(s, p2, inner).cut() == parse_spec(s, p2, inner));
        },
        PRes::Fail { .. } => {},
    }
}

} // verus!

verus! {

/// The same diagnostics, every position moved right by `k`.
pub open spec fn shift_errs(errs: Seq<(int, DiagKind)>, k: int) -> Seq<(int, DiagKind)> {
    Seq::new(errs.len(), |i: int| (errs[i].0 + k, errs[i].1))
}

/// The same outcome, every recorded position moved right by `k`; the
/// decoded value is untouched.
pub open spec fn shift_res(r: PRes, k: int) -> PRes {
    match r {
        PRes::Done { pos, val } => PRes::Done { pos: pos + k, val },
        PRes::Fail { committed, errs } => PRes::Fail { committed, errs: shift_errs(errs, k) },
    }
}

/// Scanning for a line end is unchanged by a prefix.
proof fn lemma_line_end_shift(c: Seq<u8>, s: Seq<u8>, pos: int)
    requires
        0 <= pos <= s.len(),
    ensures
        crate::parsers::line_end(c + s, c.len() + pos) == c.len() + crate::parsers::line_end(
            s,
            pos,
        ),
    decreases s.len() - pos,
{
    if pos < s.len() {
        assert((c + s)[c.len() + pos] == s[pos]);
        if s[pos] != 10 {
            lemma_line_end_shift(c, s, pos + 1);
        }
    }
}

/// Scanning for a token end is unchanged by a prefix.
proof fn lemma_token_end_shift(c: Seq<u8>, s: Seq<u8>, pos: int)
    requires
        0 <= pos <= s.len(),
    ensures
        token_end(c + s, c.len() + pos) == c.len() + token_end(s, pos),
    decreases s.len() - pos,
{
    if pos < s.len() {
        assert((c + s)[c.len() + pos] == s[pos]);
        if !is_boundary(s[pos]) {
            lemma_token_end_shift(c, s, pos + 1);
        }
    }
}

/// Scanning for a digit end is unchanged by a prefix.
proof fn lemma_digit_end_shift(c: Seq<u8>, s: Seq<u8>, pos: int)
    requires
        0 <= pos <= s.len(),
    ensures
        crate::parsers::digit_end(c + s, c.len() + pos) == c.len() + crate::parsers::digit_end(
            s,
            pos,
        ),
    decreases s.len() - pos,
{
    if pos < s.len() {
        assert((c + s)[c.len() + pos] == s[pos]);
        if crate::parsers::is_digit(s[pos]) {
            lemma_digit_end_shift(c, s, pos + 1);
        }
    }
}

/// Skipping a word break is unchanged by a prefix.
proof fn lemma_wb_end_shift(c: Seq<u8>, s: Seq<u8>, pos: int)
    requires
        0 <= pos <= s.len(),
    ensures
        wb_end(c + s, c.len() + pos) == c.len() + wb_end(s, pos),
    decreases s.len() - pos,
{
    if pos < s.len() {
        assert((c + s)[c.len() + pos] == s[pos]);
        if is_space(s[pos]) {
            lemma_wb_end_shift(c, s, pos + 1);
        } else if s[pos] == 59 {
            crate::parsers::lemma_line_end(s, pos + 1);
            lemma_line_end_shift(c, s, pos + 1);
            lemma_wb_end_shift(c, s, crate::parsers::line_end(s, pos + 1));
        }
    }
}

/// The value of a digit run is unchanged by a prefix.
proof fn lemma_digits_val_shift(c: Seq<u8>, s: Seq<u8>, pos: int, end: int)
    requires
        0 <= pos,
        end <= s.len(),
    ensures
        crate::parsers::digits_val(c + s, c.len() + pos, c.len() + end) ==
            crate::parsers::digits_val(s, pos, end),
    decreases end - pos,
{
    if pos < end {
        assert((c + s)[c.len() + end - 1] == s[end - 1]);
        lemma_digits_val_shift(c, s, pos, end - 1);
    }
}

} // verus!

verus! {

/// Parsing is invariant under a prefix: running a shape behind any prefix
/// `c` decodes exactly the same value, with every recorded position moved
/// right by the prefix's length.
pub proof fn lemma_parse_shift(c: Seq<u8>, s: Seq<u8>, pos: int, g: Shape)
    requires
        0 <= pos <= s.len(),
    ensures
        parse_spec(c + s, c.len() + pos, g) == shift_res(parse_spec(s, pos, g), c.len() as int),
    decreases g, s.len() - pos, 0int,
{
    let t = c + s;
    let k = c.len() as int;
    assert(t.len() == k + s.len());
    match g {
        Shape::Text => {
            lemma_token_end_shift(c, s, pos);
            lemma_token_end(s, pos);
            let te = token_end(s, pos);
            if pos < s.len() {
                assert(t[k + pos] == s[pos]);
            }
            if pos < s.len() && crate::parsers::is_alpha(s[pos]) {
                assert(t.subrange(k + pos, k + te) =~= s.subrange(pos, te));
            } else {
                assert(seq![(k + pos, DiagKind::Low(crate::error::LowKind::Alpha))] =~= shift_errs(
                    seq![(pos, DiagKind::Low(crate::error::LowKind::Alpha))],
                    k,
                ));
            }
        },
        Shape::U64 => {
            lemma_uint_scan_shift(c, s, pos, u64::MAX as int);
        },
        Shape::U32 => {
            lemma_uint_scan_shift(c, s, pos, u32::MAX as int);
        },
        Shape::I64 => {
            lemma_int_scan_shift(c, s, pos, i64::MAX as int);
        },
        Shape::I32 => {
            lemma_int_scan_shift(c, s, pos, i32::MAX as int);
        },
        Shape::Maybe(b) => {
            assert(decreases_to!(g => *b));
            lemma_parse_shift(c, s, pos, *b);
        },
        Shape::Many(b) => {
            assert(decreases_to!(g => *b));
            lemma_many_shift(c, s, pos, *b);
        },
        Shape::Tuple(shapes) => {
            assert(decreases_to!(g => shapes));
            assert(decreases_to!(shapes => shapes@));
            lemma_tuple_shift(c, s, pos, shapes@);
        },
        Shape::Alt(shapes) => {
            assert(decreases_to!(g => shapes));
            assert(decreases_to!(shapes => shapes@));
            lemma_alt_shift(c, s, pos, shapes@);
        },
        Shape::Head(tag, b) => {
            lemma_token_end_shift(c, s, pos);
            lemma_token_end(s, pos);
            let te = token_end(s, pos);
            let tok = s.subrange(pos, te);
            assert(t.subrange(k + pos, k + te) =~= tok);
            if tok == tag@ {
                assert(decreases_to!(g => *b));
                lemma_parse_shift(c, s, te, *b);
            } else {
                assert(seq![
                    (k + pos, DiagKind::Word(tok)),
                    (k + pos, DiagKind::Context(crate::engine::incorrect_head_label())),
                ] =~= shift_errs(
                    seq![
                        (pos, DiagKind::Word(tok)),
                        (pos, DiagKind::Context(crate::engine::incorrect_head_label())),
                    ],
                    k,
                ));
            }
        },
        Shape::Surround(b) => {
            assert(decreases_to!(g => *b));
            if pos < s.len() {
                assert(t[k + pos] == s[pos]);
            }
            if pos < s.len() && s[pos] == 40 {
                lemma_surround_shift(c, s, pos + 1, *b, 41, closing_paren_label());
            } else if pos < s.len() && s[pos] == 91 {
                lemma_surround_shift(c, s, pos + 1, *b, 93, crate::engine::closing_bracket_label());
            } else if pos < s.len() && s[pos] == 123 {
                lemma_surround_shift(c, s, pos + 1, *b, 125, crate::engine::closing_brace_label());
            } else {
                assert(seq![(k + pos, DiagKind::Char(40u8))] =~= shift_errs(
                    seq![(pos, DiagKind::Char(40u8))],
                    k,
                ));
            }
        },
        Shape::Context(label, b) => {
            assert(decreases_to!(g => *b));
            lemma_parse_shift(c, s, pos, *b);
            match parse_spec(s, pos, *b) {
                PRes::Fail { committed, errs } => {
                    assert(shift_errs(errs, k).push((k + pos, DiagKind::Context(label@))) =~=
                        shift_errs(errs.push((pos, DiagKind::Context(label@))), k));
                },
                _ => {},
            }
        },
        Shape::Padded(b) => {
            lemma_wb_end(s, pos);
            lemma_wb_end_shift(c, s, pos);
            assert(decreases_to!(g => *b));
            lemma_parse_shift(c, s, wb_end(s, pos), *b);
        },
        Shape::Wordbreak => {
            lemma_wb_end_shift(c, s, pos);
        },
    }
}

/// An unsigned number scan is invariant under a prefix.
proof fn lemma_uint_scan_shift(c: Seq<u8>, s: Seq<u8>, pos: int, bound: int)
    requires
        0 <= pos <= s.len(),
    ensures
        ({
            let t = c + s;
            let k = c.len() as int;
            match crate::engine::uint_scan(s, pos, bound) {
                Ok((e, v)) => crate::engine::uint_scan(t, k + pos, bound) == Ok::<
                    (int, int),
                    Seq<(int, DiagKind)>,
                >((k + e, v)),
                Err(errs) => crate::engine::uint_scan(t, k + pos, bound) == Err::<
                    (int, int),
                    Seq<(int, DiagKind)>,
                >(shift_errs(errs, k)),
            }
        }),
{
    let t = c + s;
    let k = c.len() as int;
    if pos < s.len() {
        assert(t[k + pos] == s[pos]);
    }
    if pos < s.len() && crate::parsers::is_digit(s[pos]) {
        crate::parsers::lemma_digit_end(s, pos);
        lemma_digit_end_shift(c, s, pos);
        lemma_digits_val_shift(c, s, pos, crate::parsers::digit_end(s, pos));
        if crate::parsers::digits_val(s, pos, crate::parsers::digit_end(s, pos)) <= bound {
        } else {
            assert(seq![(k + pos, DiagKind::Number)] =~= shift_errs(
                seq![(pos, DiagKind::Number)],
                k,
            ));
        }
    } else {
        assert(seq![(k + pos, DiagKind::Low(crate::error::LowKind::Digit))] =~= shift_errs(
            seq![(pos, DiagKind::Low(crate::error::LowKind::Digit))],
            k,
        ));
    }
}

/// A signed number scan is invariant under a prefix.
proof fn lemma_int_scan_shift(c: Seq<u8>, s: Seq<u8>, pos: int, bound: int)
    requires
        0 <= pos <= s.len(),
    ensures
        ({
            let t = c + s;
            let k = c.len() as int;
            match crate::engine::int_scan(s, pos, bound) {
                Ok((e, v)) => crate::engine::int_scan(t, k + pos, bound) == Ok::<
                    (int, int),
                    Seq<(int, DiagKind)>,
                >((k + e, v)),
                Err(errs) => crate::engine::int_scan(t, k + pos, bound) == Err::<
                    (int, int),
                    Seq<(int, DiagKind)>,
                >(shift_errs(errs, k)),
            }
        }),
{
    let t = c + s;
    let k = c.len() as int;
    if pos < s.len() {
        assert(t[k + pos] == s[pos]);
    }
    let neg = pos < s.len() && s[pos] == 45;
    let p = if neg {
        pos + 1
    } else {
        pos
    };
    if p < s.len() {
        assert(t[k + p] == s[p]);
    }
    if p < s.len() && crate::parsers::is_digit(s[p]) {
        crate::parsers::lemma_digit_end(s, p);
        lemma_digit_end_shift(c, s, p);
        lemma_digits_val_shift(c, s, p, crate::parsers::digit_end(s, p));
        if crate::parsers::digits_val(s, p, crate::parsers::digit_end(s, p)) <= bound {
        } else {
            assert(seq![(k + pos, DiagKind::Number)] =~= shift_errs(
                seq![(pos, DiagKind::Number)],
                k,
            ));
        }
    } else {
        assert(seq![(k + p, DiagKind::Low(crate::error::LowKind::Digit))] =~= shift_errs(
            seq![(p, DiagKind::Low(crate::error::LowKind::Digit))],
            k,
        ));
    }
}

/// The rest of a surrounded form is invariant under a prefix.
proof fn lemma_surround_shift(
    c: Seq<u8>,
    s: Seq<u8>,
    pos: int,
    inner: Shape,
    closer: u8,
    label: Seq<u8>,
)
    requires
        0 <= pos <= s.len(),
    ensures
        surround_close_spec(c + s, c.len() + pos, inner, closer, label) == shift_res(
            surround_close_spec(s, pos, inner, closer, label),
            c.len() as int,
        ),
    decreases inner, s.len() - pos, 1int,
{
    let t = c + s;
    let k = c.len() as int;
    lemma_wb_end(s, pos);
    lemma_wb_end_shift(c, s, pos);
    let p2 = wb_end(s, pos);
    crate::engine::lemma_parse_wf(s, p2, inner);
    lemma_parse_shift(c, s, p2, inner);
    match parse_spec(s, p2, inner) {
        PRes::Done { pos: p3, .. } => {
            lemma_wb_end(s, p3);
            lemma_wb_end_shift(c, s, p3);
            let p4 = wb_end(s, p3);
            if p4 < s.len() {
                assert(t[k + p4] == s[p4]);
            }
            if !(p4 < s.len() && s[p4] == closer) {
                assert(seq![
                    (k + p4, DiagKind::Char(closer)),
                    (k + p4, DiagKind::Context(label)),
                ] =~= shift_errs(
                    seq![(p4, DiagKind::Char(closer)), (p4, DiagKind::Context(label))],
                    k,
                ));
            }
        },
        PRes::Fail { .. } => {},
    }
}

/// A repetition is invariant under a prefix.
proof fn lemma_many_shift(c: Seq<u8>, s: Seq<u8>, pos: int, inner: Shape)
    requires
        0 <= pos <= s.len(),
    ensures
        many_spec(c + s, c.len() + pos, inner) == shift_res(
            many_spec(s, pos, inner),
            c.len() as int,
        ),
    decreases inner, s.len() - pos, 1int,
{
    let t = c + s;
    let k = c.len() as int;
    lemma_wb_end(s, pos);
    lemma_wb_end_shift(c, s, pos);
    let p2 = wb_end(s, pos);
    crate::engine::lemma_parse_wf(s, p2, inner);
    lemma_parse_shift(c, s, p2, inner);
    match parse_spec(s, p2, inner) {
        PRes::Done { pos: p3, .. } => {
            if pos < p3 <= s.len() {
                lemma_many_shift(c, s, p3, inner);
            } else {
                assert(seq![(k + pos, DiagKind::Low(crate::error::LowKind::Many0))] =~= shift_errs(
                    seq![(pos, DiagKind::Low(crate::error::LowKind::Many0))],
                    k,
                ));
            }
        },
        PRes::Fail { .. } => {},
    }
}

/// A sequence of shapes is invariant under a prefix.
proof fn lemma_tuple_shift(c: Seq<u8>, s: Seq<u8>, pos: int, shapes: Seq<Shape>)
    requires
        0 <= pos <= s.len(),
    ensures
        tuple_spec(c + s, c.len() + pos, shapes) == shift_res(
            tuple_spec(s, pos, shapes),
            c.len() as int,
        ),
    decreases shapes, s.len() - pos, 1int,
{
    let t = c + s;
    let k = c.len() as int;
    if shapes.len() > 0 {
        assert(decreases_to!(shapes => shapes[0]));
        assert(decreases_to!(shapes => shapes.subrange(1, shapes.len() as int)));
        crate::engine::lemma_parse_wf(s, pos, shapes[0]);
        lemma_parse_shift(c, s, pos, shapes[0]);
        match parse_spec(s, pos, shapes[0]) {
            PRes::Done { pos: p1, .. } => {
                lemma_tuple_shift(c, s, p1, shapes.subrange(1, shapes.len() as int));
            },
            PRes::Fail { .. } => {},
        }
    }
}

/// An alternation is invariant under a prefix.
proof fn lemma_alt_shift(c: Seq<u8>, s: Seq<u8>, pos: int, shapes: Seq<Shape>)
    requires
        0 <= pos <= s.len(),
    ensures
        alt_spec(c + s, c.len() + pos, shapes) == shift_res(
            alt_spec(s, pos, shapes),
            c.len() as int,
        ),
    decreases shapes, s.len() - pos, 1int,
{
    let t = c + s;
    let k = c.len() as int;
    if shapes.len() == 0 {
        assert(seq![(k + pos, DiagKind::Low(crate::error::LowKind::Alt))] =~= shift_errs(
            seq![(pos, DiagKind::Low(crate::error::LowKind::Alt))],
            k,
        ));
    } else {
        assert(decreases_to!(shapes => shapes[0]));
        assert(decreases_to!(shapes => shapes.subrange(1, shapes.len() as int)));
        lemma_parse_shift(c, s, pos, shapes[0]);
        match parse_spec(s, pos, shapes[0]) {
            PRes::Fail { committed: false, .. } => {
                if shapes.len() > 1 {
                    lemma_alt_shift(c, s, pos, shapes.subrange(1, shapes.len() as int));
                }
            },
            _ => {},
        }
    }
}

/// A comment line in front of the input is insignificant: against any
/// grammar, `";..."` up to and including its line feed, put before the
/// buffer, leaves the decoded value exactly as it was; only the recorded
/// positions of a failure move right by the comment's length.
pub proof fn lemma_comment_prefix_irrelevant(c: Seq<u8>, s: Seq<u8>, g: Shape)
    requires
        c.len() >= 2,
        c[0] == 59,
        c[c.len() - 1] == 10,
        forall|i: int| 0 < i < c.len() - 1 ==> c[i] != 10,
    ensures
        crate::parse_result(c + s, g) == shift_res(crate::parse_result(s, g), c.len() as int),
{
    let t = c + s;
    let k = c.len() as int;
    assert(t[0] == 59);
    lemma_comment_prefix_skipped(c, s);
    lemma_wb_end(s, 0);
    lemma_parse_shift(c, s, wb_end(s, 0), g);
}

/// A word break at the start of `c + s`, where `c` is one whole comment
/// line, runs through the comment and then skips exactly what it skips on
/// `s` alone.
proof fn lemma_comment_prefix_skipped(c: Seq<u8>, s: Seq<u8>)
    requires
        c.len() >= 2,
        c[0] == 59,
        c[c.len() - 1] == 10,
        forall|i: int| 0 < i < c.len() - 1 ==> c[i] != 10,
    ensures
        wb_end(c + s, 0) == c.len() + wb_end(s, 0),
{
    let t = c + s;
    let k = c.len() as int;
    assert(t[0] == 59);
    lemma_line_end_is_first(t, 1, k - 1);
    assert(crate::parsers::line_end(t, 1) == k - 1);
    assert(t[k - 1] == 10);
    assert(wb_end(t, 0) == wb_end(t, k - 1));
    assert(wb_end(t, k - 1) == wb_end(t, k));
    lemma_wb_end_shift(c, s, 0);
}

/// When every character from `pos` up to `e` is no line feed and `e`
/// holds one, the line-end scan from `pos` stops exactly at `e`.
proof fn lemma_line_end_is_first(s: Seq<u8>, pos: int, e: int)
    requires
        0 <= pos <= e < s.len(),
        s[e] == 10,
        forall|i: int| pos <= i < e ==> s[i] != 10,
    ensures
        crate::parsers::line_end(s, pos) == e,
    decreases e - pos,
{
    if pos < e {
        lemma_line_end_is_first(s, pos + 1, e);
    }
}

} // verus!

verus! {

/// The positive face of the head pattern: when the input opens with `(`,
/// the keyword after the word break is exactly `tag`, the argument parse
/// succeeds, and a `)` follows the next word break, then the whole
/// surrounded head pattern succeeds, decodes exactly the argument parse's
/// value, and consumes the form through its closing parenthesis.
pub proof fn lemma_head_pattern_success(s: Seq<u8>, pos: int, tag: Vec<u8>, inner: Shape)
    requires
        0 <= pos < s.len(),
        s[pos] == 40,
        ({
            let p2 = wb_end(s, pos + 1);
            s.subrange(p2, token_end(s, p2)) == tag@
        }),
        parse_spec(s, token_end(s, wb_end(s, pos + 1)), inner) is Done,
        ({
            let p3 = parse_spec(s, token_end(s, wb_end(s, pos + 1)), inner)->Done_pos;
            wb_end(s, p3) < s.len() && s[wb_end(s, p3)] == 41
        }),
    ensures
        ({
            let p3 = parse_spec(s, token_end(s, wb_end(s, pos + 1)), inner)->Done_pos;
            let val = parse_spec(s, token_end(s, wb_end(s, pos + 1)), inner)->Done_val;
            parse_spec(s, pos, Shape::Surround(Box::new(Shape::Head(tag, Box::new(inner)))))
                == (PRes::Done { pos: wb_end(s, p3) + 1, val })
        }),
{
    let h = Shape::Head(tag, Box::new(inner));
    let g = Shape::Surround(Box::new(h));
    assert(parse_spec(s, pos, g) == surround_close_spec(s, pos + 1, h, 41, closing_paren_label()));
    lemma_wb_end(s, pos + 1);
    let p2 = wb_end(s, pos + 1);
    lemma_token_end(s, p2);
    let te = token_end(s, p2);
    crate::engine::lemma_parse_wf(s, te, inner);
    match parse_spec(s, te, inner) {
        PRes::Done { pos: p3, .. } => {
            assert(parse_spec(s, p2, h) == parse_spec(s, te, inner).cut());
            lemma_wb_end(s, p3);
        },
        PRes::Fail { .. } => {},
    }
}

} // verus!
