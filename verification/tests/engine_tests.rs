//! The primitives, the error model and the renderer, exercised on concrete
//! inputs: commit points, alternation order, number edges, and the exact
//! rendered diagnostics.

use sexpy::engine::{ignore, sexp_parse};
use sexpy::error::{offset, LowKind, ParseErr, SexpyError, SexpyErrorKind};
use sexpy::grammar::{
    enum_alt, struct_fields, variant_fields, FieldAttrs, FieldAttrEnum, Shape, SexpValue, TyAttrs,
    TyAttrEnum,
};
use sexpy::parsers::{comment, word, wordbreak0, wordbreak1};
use sexpy::{parse, parse_verbose};

fn bytes(s: &str) -> Vec<u8> {
    s.as_bytes().to_vec()
}

fn struct_rule(head: &str, fields: Vec<(&str, Shape)>) -> Shape {
    let named = fields.into_iter().map(|(l, sh)| (bytes(l), sh)).collect();
    let body = struct_fields(named);
    let mut attrs = TyAttrs::default();
    attrs.head = Some(bytes(head));
    attrs.apply(body)
}

fn first_entry(e: &ParseErr) -> (usize, SexpyErrorKind) {
    match e {
        ParseErr::Error(se) => se.errors[0].clone(),
        ParseErr::Failure(se) => se.errors[0].clone(),
    }
}

#[test]
fn wordbreak0_idempotent_and_lazy() {
    // No leading whitespace or comment: exactly zero characters consumed.
    assert_eq!(wordbreak0(b"abc", 0), 0);
    // Whitespace and comments are consumed up to the next real character.
    assert_eq!(wordbreak0(b"  \t\r\nx", 0), 5);
    assert_eq!(wordbreak0(b"; note\nx", 0), 7);
    // Skipping twice is skipping once.
    let input = b" ; c\n  foo";
    let once = wordbreak0(input, 0);
    assert_eq!(wordbreak0(input, once), once);
}

#[test]
fn wordbreak1_needs_one() {
    assert_eq!(wordbreak1(b" x", 0).unwrap(), 1);
    assert_eq!(wordbreak1(b"; c\nx", 0).unwrap(), 4);
    let e = wordbreak1(b"x", 0).unwrap_err();
    assert!(matches!(&e, ParseErr::Error(_)));
    assert_eq!(first_entry(&e), (0, SexpyErrorKind::Low(LowKind::Many1)));
}

#[test]
fn comment_runs_to_line_end() {
    assert_eq!(comment(b"; note\nrest", 0).unwrap(), 6);
    assert_eq!(comment(b";", 0).unwrap(), 1);
    let e = comment(b"x", 0).unwrap_err();
    assert_eq!(first_entry(&e), (0, SexpyErrorKind::Char(b';')));
}

#[test]
fn word_stops_at_boundary() {
    // The keyword followed by a boundary: the boundary stays untouched.
    assert_eq!(word(b"tag rest", 0, b"tag").unwrap(), 3);
    assert_eq!(word(b"tag(", 0, b"tag").unwrap(), 3);
    // The keyword at the very end of input.
    assert_eq!(word(b"tag", 0, b"tag").unwrap(), 3);
}

#[test]
fn word_reports_the_token_found() {
    // A longer token is consumed whole; the diagnostic carries it, not the
    // expected keyword.
    let e = word(b"tagX rest", 0, b"tag").unwrap_err();
    assert!(matches!(&e, ParseErr::Error(_)));
    assert_eq!(first_entry(&e), (0, SexpyErrorKind::Word(bytes("tagX"))));
}

#[test]
fn surround_missing_closer_is_committed() {
    let rule = struct_rule("foo", vec![]);
    let e = sexp_parse(b"(foo", 0, &rule).unwrap_err();
    // Committed: no sibling alternative may retry.
    assert!(matches!(&e, ParseErr::Failure(_)));
    // Reported at the end of the content, not at the opening parenthesis.
    let se = match e {
        ParseErr::Failure(se) => se,
        ParseErr::Error(se) => se,
    };
    assert_eq!(se.errors[0], (4, SexpyErrorKind::Char(b')')));
    assert_eq!(se.errors[1], (4, SexpyErrorKind::Context(bytes("closing paren"))));
}

#[test]
fn bracket_missing_closer_is_committed() {
    let rule = struct_rule("foo", vec![]);
    let e = sexp_parse(b"[foo ", 0, &rule).unwrap_err();
    assert!(matches!(&e, ParseErr::Failure(_)));
    assert_eq!(first_entry(&e), (5, SexpyErrorKind::Char(b']')));
}

#[test]
fn matched_head_commits_the_branch() {
    // Two rules; the input matches the first head but its argument is no
    // number. The failure must speak of the number, never of the second
    // rule's head.
    let foo = struct_rule("foo", vec![("a", Shape::I64)]);
    let bar = struct_rule("bar", vec![("a", Shape::I64)]);
    let alt = Shape::Alt(vec![foo, bar]);
    let e = sexp_parse(b"(foo notanumber)", 0, &alt).unwrap_err();
    assert!(matches!(&e, ParseErr::Failure(_)));
    assert_eq!(first_entry(&e), (5, SexpyErrorKind::Low(LowKind::Digit)));
}

#[test]
fn alternation_returns_the_last_recoverable_error() {
    // Both candidates fail recoverably; the reported failure is the last
    // candidate's, deterministically.
    let alt = Shape::Alt(vec![Shape::Text, Shape::U64]);
    let e = sexp_parse(b"-", 0, &alt).unwrap_err();
    assert!(matches!(&e, ParseErr::Error(_)));
    assert_eq!(first_entry(&e), (0, SexpyErrorKind::Low(LowKind::Digit)));
}

#[test]
fn empty_alternation_fails_recoverably() {
    let e = sexp_parse(b"x", 0, &Shape::Alt(vec![])).unwrap_err();
    assert!(matches!(&e, ParseErr::Error(_)));
    assert_eq!(first_entry(&e), (0, SexpyErrorKind::Low(LowKind::Alt)));
}

#[test]
fn comments_do_not_change_the_result() {
    let rule = struct_rule("foo", vec![("a", Shape::U64)]);
    let with_comment = parse(b"; note\n(foo 1)", &rule);
    let without = parse(b"(foo 1)", &rule);
    assert_eq!(with_comment, without);
    assert_eq!(without, Ok(SexpValue::U64(1)));
}

#[test]
fn two_field_rule_round_trip() {
    let rule = struct_rule("portdef", vec![("name", Shape::Text), ("width", Shape::U64)]);
    assert_eq!(
        parse(b"(portdef foo 20)", &rule),
        Ok(SexpValue::Tuple(vec![
            SexpValue::Text(bytes("foo")),
            SexpValue::U64(20),
        ]))
    );
    // Fields swapped: the failure sits at the `20` token and asks for a
    // text token.
    let e = sexp_parse(b"(portdef 20 foo)", 0, &rule).unwrap_err();
    assert_eq!(first_entry(&e), (9, SexpyErrorKind::Low(LowKind::Alpha)));
}

#[test]
fn zero_argument_rule() {
    let rule = struct_rule("plant", vec![]);
    assert_eq!(parse(b"(plant)", &rule), Ok(SexpValue::Unit));
    // An extra token after the exhausted grammar is a committed failure.
    let e = sexp_parse(b"(plant hi)", 0, &rule).unwrap_err();
    assert!(matches!(&e, ParseErr::Failure(_)));
    assert_eq!(first_entry(&e), (7, SexpyErrorKind::Char(b')')));
}

#[test]
fn braces_and_brackets_surround_too() {
    let rule = struct_rule("port", vec![("w", Shape::U64)]);
    assert_eq!(parse(b"[port 2]", &rule), Ok(SexpValue::U64(2)));
    assert_eq!(parse(b"{port 2}", &rule), Ok(SexpValue::U64(2)));
}

#[test]
fn optional_argument() {
    let rule = struct_rule("m", vec![("o", Shape::Maybe(Box::new(Shape::U64)))]);
    assert_eq!(
        parse(b"(m 5)", &rule),
        Ok(SexpValue::Maybe(Some(Box::new(SexpValue::U64(5)))))
    );
    assert_eq!(parse(b"(m)", &rule), Ok(SexpValue::Maybe(None)));
}

#[test]
fn repetition_needs_progress() {
    let rule = struct_rule(
        "m",
        vec![("l", Shape::Many(Box::new(Shape::Maybe(Box::new(Shape::U64)))))],
    );
    let e = sexp_parse(b"(m)", 0, &rule).unwrap_err();
    assert_eq!(first_entry(&e), (2, SexpyErrorKind::Low(LowKind::Many0)));
}

#[test]
fn number_edges() {
    let u64rule = struct_rule("n", vec![("w", Shape::U64)]);
    assert_eq!(
        parse(b"(n 18446744073709551615)", &u64rule),
        Ok(SexpValue::U64(18446744073709551615))
    );
    let e = sexp_parse(b"(n 18446744073709551616)", 0, &u64rule).unwrap_err();
    assert_eq!(first_entry(&e), (3, SexpyErrorKind::Number));

    let u32rule = struct_rule("n", vec![("w", Shape::U32)]);
    assert_eq!(parse(b"(n 4294967295)", &u32rule), Ok(SexpValue::U32(4294967295)));
    let e = sexp_parse(b"(n 4294967296)", 0, &u32rule).unwrap_err();
    assert_eq!(first_entry(&e), (3, SexpyErrorKind::Number));

    let i64rule = struct_rule("n", vec![("w", Shape::I64)]);
    assert_eq!(
        parse(b"(n 9223372036854775807)", &i64rule),
        Ok(SexpValue::I64(9223372036854775807))
    );
    assert_eq!(
        parse(b"(n -9223372036854775807)", &i64rule),
        Ok(SexpValue::I64(-9223372036854775807))
    );
    // The digit run is bounded before the sign is applied, so the most
    // negative value is rejected as a number, like any overflow.
    let e = sexp_parse(b"(n -9223372036854775808)", 0, &i64rule).unwrap_err();
    assert_eq!(first_entry(&e), (3, SexpyErrorKind::Number));

    let i32rule = struct_rule("n", vec![("w", Shape::I32)]);
    assert_eq!(parse(b"(n -2147483647)", &i32rule), Ok(SexpValue::I32(-2147483647)));
    let e = sexp_parse(b"(n 2147483648)", 0, &i32rule).unwrap_err();
    assert_eq!(first_entry(&e), (3, SexpyErrorKind::Number));
}

#[test]
fn rendered_char_error() {
    let rule = struct_rule("port", vec![("w", Shape::I64)]);
    let msg = parse(b"port 3", &rule).unwrap_err();
    assert_eq!(
        String::from_utf8(msg).unwrap(),
        "0: at line 0:\nport 3\n^\nexpected '(', found 'p'\n\n"
    );
}

#[test]
fn rendered_eof_error() {
    let rule = struct_rule("port", vec![("w", Shape::I64)]);
    let msg = parse(b"(port 3", &rule).unwrap_err();
    assert_eq!(
        String::from_utf8(msg).unwrap(),
        "0: at line 0:\n(port 3\n       ^\nexpected ')', found <eof>\n\n"
    );
}

#[test]
fn rendered_empty_input_error() {
    let rule = struct_rule("port", vec![("w", Shape::I64)]);
    let msg = parse(b"", &rule).unwrap_err();
    assert_eq!(String::from_utf8(msg).unwrap(), "0: expected '(', got empty input\n\n");
}

#[test]
fn rendered_error_points_at_the_right_line() {
    let rule = struct_rule("port", vec![("name", Shape::Text), ("width", Shape::I64)]);
    let msg = parse(b"(port\nfoo x)", &rule).unwrap_err();
    assert_eq!(
        String::from_utf8(msg).unwrap(),
        "0: at line 1, in Digit:\nfoo x)\n    ^\n\n"
    );
}

#[test]
fn rendered_keyword_error() {
    let rule = struct_rule("port", vec![("w", Shape::U64)]);
    let msg = parse(b"(pork 3)", &rule).unwrap_err();
    assert_eq!(
        String::from_utf8(msg).unwrap(),
        "0: at line 0:\n(pork 3)\n ^\nexpected a keyword, found \"pork\"\n\n"
    );
}

#[test]
fn rendered_number_error() {
    let rule = struct_rule("n", vec![("w", Shape::U64)]);
    let msg = parse(b"(n 99999999999999999999)", &rule).unwrap_err();
    assert_eq!(
        String::from_utf8(msg).unwrap(),
        "0: at line 0:\n(n 99999999999999999999)\n   ^\nunable to parse number\n\n"
    );
}

#[test]
fn rendered_verbose_chain() {
    let rule = struct_rule("foo", vec![]);
    let msg = parse_verbose(b"(foo", &rule).unwrap_err();
    assert_eq!(
        String::from_utf8(msg).unwrap(),
        "0: at line 0:\n(foo\n    ^\nexpected ')', found <eof>\n\n1: at line 0, in closing paren:\n(foo\n    ^\n\n"
    );
}

#[test]
fn offset_of_a_suffix() {
    let buffer = b"hello";
    assert_eq!(offset(buffer, &buffer[3..]), 3);
    assert_eq!(offset(buffer, &buffer[0..]), 0);
}

#[test]
fn ignore_discards_the_value() {
    let rule = struct_rule("plant", vec![]);
    let r = ignore(sexp_parse(b"(plant)", 0, &rule));
    assert_eq!(r.unwrap(), 7);
}

#[test]
fn attribute_records_update_and_apply() {
    let mut ty = TyAttrs::default();
    assert_eq!(ty, TyAttrs { nohead: false, head: None, surround: true });
    ty.add_enum(&TyAttrEnum::Head(bytes("port")));
    ty.add_enum(&TyAttrEnum::Surround(false));
    assert_eq!(ty, TyAttrs { nohead: false, head: Some(bytes("port")), surround: false });
    let shape = ty.apply(Shape::U64);
    assert_eq!(shape, Shape::Head(bytes("port"), Box::new(Shape::U64)));

    let mut fa = FieldAttrs::default();
    fa.add_enum(&FieldAttrEnum::Head(bytes("k")));
    fa.add_enum(&FieldAttrEnum::Surround(true));
    let shape = fa.apply(Shape::Text);
    assert_eq!(
        shape,
        Shape::Surround(Box::new(Shape::Padded(Box::new(Shape::Head(
            bytes("k"),
            Box::new(Shape::Text)
        )))))
    );
}

#[test]
fn variant_builder_shapes() {
    assert_eq!(variant_fields(bytes("Parsing X"), vec![]), Shape::Wordbreak);
    assert_eq!(
        variant_fields(bytes("Parsing X"), vec![Shape::U64]),
        Shape::Context(bytes("Parsing X"), Box::new(Shape::Padded(Box::new(Shape::U64))))
    );
    assert_eq!(enum_alt(vec![Shape::U64]), Shape::U64);
    assert_eq!(
        enum_alt(vec![Shape::U64, Shape::Text]),
        Shape::Alt(vec![Shape::U64, Shape::Text])
    );
}

#[test]
fn error_constructors_record_one_entry() {
    let e = SexpyError::from_char(3, b')');
    assert_eq!(e.errors, vec![(3, SexpyErrorKind::Char(b')'))]);
    let e = SexpyError::add_context(5, bytes("field"), e);
    assert_eq!(e.errors[1], (5, SexpyErrorKind::Context(bytes("field"))));
    let e = SexpyError::from_word(0, bytes("tok"));
    assert_eq!(e.errors, vec![(0, SexpyErrorKind::Word(bytes("tok")))]);
    let e = SexpyError::number(2);
    assert_eq!(e.errors, vec![(2, SexpyErrorKind::Number)]);
}

#[test]
fn error_extension_keeps_the_deepest_first() {
    let e = SexpyError::from_error_kind(1, LowKind::Many1);
    let e = SexpyError::append(2, LowKind::Alt, e);
    assert_eq!(
        e.errors,
        vec![
            (1, SexpyErrorKind::Low(LowKind::Many1)),
            (2, SexpyErrorKind::Low(LowKind::Alt)),
        ]
    );
}

#[test]
fn nested_rules_compose() {
    // A field whose grammar is itself a surrounded head pattern.
    let inner = struct_rule("inner", vec![("n", Shape::U64)]);
    let outer = struct_rule("outer", vec![("sub", inner), ("name", Shape::Text)]);
    assert_eq!(
        parse(b"(outer (inner 3) x)", &outer),
        Ok(SexpValue::Tuple(vec![
            SexpValue::U64(3),
            SexpValue::Text(bytes("x")),
        ]))
    );
    // A committed failure deep inside the nested form surfaces as the
    // whole parse's failure.
    let e = sexp_parse(b"(outer (inner x) y)", 0, &outer).unwrap_err();
    assert!(matches!(&e, ParseErr::Failure(_)));
    assert_eq!(first_entry(&e), (14, SexpyErrorKind::Low(LowKind::Digit)));
}

#[test]
fn lines_are_costed_with_their_terminator() {
    // Every line costs its full length plus its terminator, the two-byte
    // one included, so the column is exactly the offset minus the line's
    // start; only the displayed line drops its trailing carriage return.
    let rule = struct_rule("port", vec![("name", Shape::Text), ("width", Shape::I64)]);
    let msg = parse(b"(port\r\nfoo x)", &rule).unwrap_err();
    assert_eq!(
        String::from_utf8(msg).unwrap(),
        "0: at line 1, in Digit:\nfoo x)\n    ^\n\n"
    );
}

#[test]
fn rendered_found_is_a_whole_character() {
    // The "found" token is the full character at the failing position,
    // every byte of its encoding, so the message stays valid text.
    let rule = struct_rule("port", vec![("w", Shape::U64)]);
    let msg = parse("é 3".as_bytes(), &rule).unwrap_err();
    assert_eq!(
        String::from_utf8(msg).unwrap(),
        "0: at line 0:\né 3\n^\nexpected '(', found 'é'\n\n"
    );
}

#[test]
fn rendered_context_entry_names_its_label() {
    // The second diagnostic of a verbose rendering is the context label
    // attached while the failure unwound.
    let rule = struct_rule("port", vec![("width", Shape::U64)]);
    let msg = parse_verbose(b"(port x)", &rule).unwrap_err();
    assert_eq!(
        String::from_utf8(msg).unwrap(),
        "0: at line 0, in Digit:\n(port x)\n      ^\n\n1: at line 0, in width:\n(port x)\n     ^\n\n"
    );
}
