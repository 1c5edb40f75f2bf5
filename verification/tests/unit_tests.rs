//! The engine exercised through hand-composed rules, one per host type the
//! grammar serves: a struct becomes one head-pattern rule, an enum one rule
//! per variant under an alternation.

use sexpy::grammar::{
    enum_alt, struct_fields, variant_fields, FieldAttrs, Shape, SexpValue, TyAttrs,
};
use sexpy::parse;

fn bytes(s: &str) -> Vec<u8> {
    s.as_bytes().to_vec()
}

/// The rule a struct with the given head and named fields gets.
fn struct_rule(head: &str, fields: Vec<(&str, Shape)>) -> Shape {
    let named = fields.into_iter().map(|(l, sh)| (bytes(l), sh)).collect();
    let body = struct_fields(named);
    let mut attrs = TyAttrs::default();
    attrs.head = Some(bytes(head));
    attrs.apply(body)
}

/// The rule one enum variant gets: its fields behind the variant's own
/// attributes.
fn variant_rule(name: &str, fields: Vec<Shape>, attrs: FieldAttrs) -> Shape {
    let body = variant_fields(bytes(&format!("Parsing {}", name)), fields);
    attrs.apply(body)
}

/// The rule an enum gets: the variants' rules under an alternation, behind
/// the type's attributes.
fn enum_rule(attrs: TyAttrs, variants: Vec<Shape>) -> Shape {
    attrs.apply(enum_alt(variants))
}

fn plain_variant(name: &str, fields: Vec<Shape>) -> Shape {
    variant_rule(name, fields, FieldAttrs::default())
}

fn headed_variant(name: &str, head: &str, fields: Vec<Shape>) -> Shape {
    let mut attrs = FieldAttrs::default();
    attrs.head = Some(bytes(head));
    variant_rule(name, fields, attrs)
}

fn enum_attrs(head: &str) -> TyAttrs {
    let mut attrs = TyAttrs::default();
    attrs.head = Some(bytes(head));
    attrs
}

fn text(s: &str) -> SexpValue {
    SexpValue::Text(bytes(s))
}

#[test]
fn simple_struct() {
    let rule = struct_rule("portdef", vec![("name", Shape::Text), ("width", Shape::U64)]);
    let input = "(portdef foo 20)";
    let gold = SexpValue::Tuple(vec![text("foo"), SexpValue::U64(20)]);
    assert_eq!(parse(input.as_bytes(), &rule), Ok(gold))
}

#[test]
fn simple_struct_one_field() {
    let rule = struct_rule("portdef", vec![("name", Shape::Text)]);
    let input = "(portdef foo)";
    let gold = text("foo");
    assert_eq!(parse(input.as_bytes(), &rule), Ok(gold))
}

#[test]
fn simple_struct_no_fields() {
    let rule = struct_rule("portdef", vec![]);
    assert_eq!(parse(b"(portdef)", &rule), Ok(SexpValue::Unit));
    assert_eq!(parse(b"(portdef   )", &rule), Ok(SexpValue::Unit));
    assert!(parse(b"(portdef hi)", &rule).is_err());
}

#[test]
fn struct_rename_head() {
    let rule = struct_rule("port", vec![("name", Shape::Text), ("width", Shape::I64)]);
    assert_eq!(
        parse(b"(port foo -32)", &rule),
        Ok(SexpValue::Tuple(vec![text("foo"), SexpValue::I64(-32)]))
    )
}

#[test]
fn enum_rename_head() {
    let rule = enum_rule(
        enum_attrs("plt"),
        vec![
            plain_variant("PalmTree", vec![Shape::Text, Shape::U64]),
            plain_variant("Cactus", vec![]),
        ],
    );
    assert_eq!(
        parse(b"(plt test 4)", &rule),
        Ok(SexpValue::Tuple(vec![text("test"), SexpValue::U64(4)]))
    );
    assert_eq!(parse(b"(plt)", &rule), Ok(SexpValue::Unit));
}

#[test]
fn unit_enum() {
    let rule = enum_rule(
        enum_attrs("plant"),
        vec![plain_variant("PalmTree", vec![]), plain_variant("Cactus", vec![])],
    );
    let input = "(plant)";
    assert_eq!(parse(input.as_bytes(), &rule), Ok(SexpValue::Unit))
}

#[test]
fn named_enum_fields() {
    let rule = enum_rule(
        enum_attrs("plant"),
        vec![
            plain_variant("PalmTree", vec![Shape::U64, Shape::Text]),
            plain_variant("Cactus", vec![Shape::U64]),
        ],
    );
    assert_eq!(
        parse(b"(plant 200 cm)", &rule),
        Ok(SexpValue::Tuple(vec![SexpValue::U64(200), text("cm")]))
    )
}

#[test]
fn same_prefix() {
    let left = {
        let mut attrs = TyAttrs::default();
        attrs.head = Some(bytes("foo"));
        attrs.surround = false;
        attrs.apply(struct_fields(vec![(bytes("item"), Shape::Text)]))
    };
    let right = {
        let mut attrs = TyAttrs::default();
        attrs.head = Some(bytes("foo-bar"));
        attrs.surround = false;
        attrs.apply(struct_fields(vec![(bytes("item"), Shape::U64)]))
    };
    let either = enum_rule(
        enum_attrs("either"),
        vec![plain_variant("Left", vec![left]), plain_variant("Right", vec![right])],
    );

    assert_eq!(parse(b"(either foo hi)", &either), Ok(text("hi")));
    assert_eq!(parse(b"(either foo-bar 32)", &either), Ok(SexpValue::U64(32)));
}

#[test]
fn no_head() {
    let mut attrs = TyAttrs::default();
    attrs.nohead = true;
    attrs.head = Some(bytes("plant"));
    let rule = enum_rule(
        attrs,
        vec![
            headed_variant("Cactus", "cactus", vec![Shape::Text, Shape::U64]),
            headed_variant("JoshuaTree", "joshua-tree", vec![Shape::Text, Shape::U64]),
        ],
    );

    assert_eq!(
        parse(b"(cactus josh 400)", &rule),
        Ok(SexpValue::Tuple(vec![text("josh"), SexpValue::U64(400)]))
    );

    assert_eq!(
        parse(b"(joshua-tree carolina 4)", &rule),
        Ok(SexpValue::Tuple(vec![text("carolina"), SexpValue::U64(4)]))
    );
}

#[test]
fn enum_differentiation() {
    let rule = enum_rule(
        enum_attrs("plant"),
        vec![
            headed_variant("Cactus", "cactus", vec![Shape::Text, Shape::U64]),
            headed_variant("JoshuaTree", "joshua-tree", vec![Shape::Text, Shape::U64]),
        ],
    );

    assert_eq!(
        parse(b"(plant cactus josh 400)", &rule),
        Ok(SexpValue::Tuple(vec![text("josh"), SexpValue::U64(400)]))
    );

    assert_eq!(
        parse(b"(plant joshua-tree carolina 4)", &rule),
        Ok(SexpValue::Tuple(vec![text("carolina"), SexpValue::U64(4)]))
    );
}

fn song_rule() -> Shape {
    let instrs = {
        let mut attrs = FieldAttrs::default();
        attrs.surround = true;
        attrs.apply(Shape::Many(Box::new(Shape::Text)))
    };
    struct_rule(
        "song",
        vec![
            ("name", Shape::Text),
            ("instrs", instrs),
            ("notes", Shape::Many(Box::new(Shape::U64))),
        ],
    )
}

#[test]
fn vector() {
    let rule = song_rule();
    assert_eq!(
        parse(b"(song purr (piano cat) 11 12 13 12 13)", &rule),
        Ok(SexpValue::Tuple(vec![
            text("purr"),
            SexpValue::List(vec![text("piano"), text("cat")]),
            SexpValue::List(vec![
                SexpValue::U64(11),
                SexpValue::U64(12),
                SexpValue::U64(13),
                SexpValue::U64(12),
                SexpValue::U64(13),
            ]),
        ]))
    )
}

#[test]
fn comments() {
    let rule = song_rule();
    assert_eq!(
        parse(
            b"; my cool song\n(song purr (piano cat) ; the good part!\n11 12 13 12 13)",
            &rule
        ),
        Ok(SexpValue::Tuple(vec![
            text("purr"),
            SexpValue::List(vec![text("piano"), text("cat")]),
            SexpValue::List(vec![
                SexpValue::U64(11),
                SexpValue::U64(12),
                SexpValue::U64(13),
                SexpValue::U64(12),
                SexpValue::U64(13),
            ]),
        ]))
    )
}

#[test]
fn documentation() {
    let rule = struct_rule("port", vec![("name", Shape::Text), ("width", Shape::I64)]);
    assert_eq!(
        parse(b"(port foo -32)", &rule),
        Ok(SexpValue::Tuple(vec![text("foo"), SexpValue::I64(-32)]))
    )
}
