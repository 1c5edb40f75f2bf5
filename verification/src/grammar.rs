//! Parsers as data: the shape of a head-pattern grammar, the typed values a
//! parse produces, and the attribute records that say how a type's parser is
//! wrapped (head keyword, surrounding delimiters).

use vstd::prelude::*;

verus! {

/// The value a successful parse produces, mirroring the shape it was parsed
/// with.
#[derive(Debug, PartialEq)]
pub enum SexpValue {
    /// Produced by shapes that only consume input (word breaks, matched
    /// keywords).
    Unit,
    /// A bare text token.
    Text(Vec<u8>),
    U64(u64),
    U32(u32),
    I64(i64),
    I32(i32),
    /// An optional argument: present or absent.
    Maybe(Option<Box<SexpValue>>),
    /// Zero or more repetitions.
    List(Vec<SexpValue>),
    /// A fixed sequence of arguments.
    Tuple(Vec<SexpValue>),
}

/// Mathematical model of `SexpValue`: texts become byte sequences and the
/// containers become `Seq`.
pub enum Val {
    Unit,
    Text(Seq<u8>),
    U64(u64),
    U32(u32),
    I64(i64),
    I32(i32),
    Maybe(Option<Box<Val>>),
    List(Seq<Val>),
    Tuple(Seq<Val>),
}

impl SexpValue {
    /// The mathematical value this executable value stands for.
    pub open spec fn model(self) -> Val
        decreases self, 1int,
    {
        match self {
            SexpValue::Unit => Val::Unit,
            SexpValue::Text(t) => Val::Text(t@),
            SexpValue::U64(n) => Val::U64(n),
            SexpValue::U32(n) => Val::U32(n),
            SexpValue::I64(n) => Val::I64(n),
            SexpValue::I32(n) => Val::I32(n),
            SexpValue::Maybe(o) => match o {
                Some(b) => {
                    proof {
                        assert(decreases_to!(self => o));
                        assert(decreases_to!(o => b));
                        assert(decreases_to!(self => *b));
                    }
                    Val::Maybe(Some(Box::new((*b).model())))
                },
                None => Val::Maybe(None),
            },
            SexpValue::List(vs) => {
                proof {
                    assert(decreases_to!(self => vs));
                    assert(decreases_to!(vs => vs@));
                    assert(decreases_to!(self => vs@));
                }
                Val::List(model_seq(vs@))
            },
            SexpValue::Tuple(vs) => {
                proof {
                    assert(decreases_to!(self => vs));
                    assert(decreases_to!(vs => vs@));
                    assert(decreases_to!(self => vs@));
                }
                Val::Tuple(model_seq(vs@))
            },
        }
    }
}

/// The models of a sequence of values, in order.
pub open spec fn model_seq(vs: Seq<SexpValue>) -> Seq<Val>
    decreases vs, 0int,
{
    if vs.len() == 0 {
        Seq::empty()
    } else {
        proof {
            assert(decreases_to!(vs => vs[0]));
            assert(decreases_to!(vs => vs.subrange(1, vs.len() as int)));
        }
        seq![vs[0].model()] + model_seq(vs.subrange(1, vs.len() as int))
    }
}

/// A parser, as data. Each constructor is one combinator; `engine::sexp_parse`
/// interprets a shape over a byte buffer.
#[derive(Debug, PartialEq)]
pub enum Shape {
    /// A bare text token: one or more ASCII letters followed by any run of
    /// non-boundary characters.
    Text,
    /// An unsigned 64-bit decimal integer.
    U64,
    /// An unsigned 32-bit decimal integer.
    U32,
    /// A signed 64-bit decimal integer: an optional `-` then digits.
    I64,
    /// A signed 32-bit decimal integer.
    I32,
    /// Tries the inner shape; absence is success.
    Maybe(Box<Shape>),
    /// Zero or more repetitions of the inner shape, each preceded by a word
    /// break.
    Many(Box<Shape>),
    /// The inner shapes in order; produces a `SexpValue::Tuple`.
    Tuple(Vec<Shape>),
    /// The candidates in order against the same input; first success wins.
    Alt(Vec<Shape>),
    /// A head pattern: the keyword, then a commit point, then the inner
    /// shape.
    Head(Vec<u8>, Box<Shape>),
    /// The inner shape wrapped in `(..)`, `[..]` or `{..}`.
    Surround(Box<Shape>),
    /// Runs the inner shape; a failure gains the context label.
    Context(Vec<u8>, Box<Shape>),
    /// A word break, then the inner shape.
    Padded(Box<Shape>),
    /// A word break alone; matches even zero characters and produces
    /// `SexpValue::Unit`.
    Wordbreak,
}

/// Type-level attributes: how the parser for a whole type is wrapped.
#[derive(Debug, PartialEq)]
pub struct TyAttrs {
    /// When set, no head keyword is matched even if one is recorded.
    pub nohead: bool,
    /// The head keyword; the caller resolves the default (the lowercased
    /// type name) before building the shape.
    pub head: Option<Vec<u8>>,
    /// Whether the pattern is wrapped in surrounding delimiters.
    pub surround: bool,
}

/// One parsed type-level attribute.
#[derive(Debug, PartialEq)]
pub enum TyAttrEnum {
    NoHead(bool),
    Head(Vec<u8>),
    Surround(bool),
}

impl TyAttrs {
    /// The default settings: a head is used, and the pattern is surrounded.
    pub fn default() -> (a: Self)
        ensures
            !a.nohead,
            a.head is None,
            a.surround,
    {
        TyAttrs { nohead: false, head: None, surround: true }
    }

    /// Updates `self` with the single attribute `e`.
    pub fn add_enum(&mut self, e: &TyAttrEnum)
        ensures
            match e {
                TyAttrEnum::NoHead(b) => *final(self) == (TyAttrs { nohead: *b, ..*old(self) }),
                TyAttrEnum::Head(s) => {
                    &&& final(self).nohead == old(self).nohead
                    &&& final(self).surround == old(self).surround
                    &&& final(self).head matches Some(h) && h@ == s@
                },
                TyAttrEnum::Surround(b) => *final(self) == (TyAttrs { surround: *b, ..*old(self) }),
            },
    {
        match e {
            TyAttrEnum::NoHead(b) => {
                self.nohead = *b;
            },
            TyAttrEnum::Head(s) => {
                self.head = Some(clone_bytes(s));
            },
            TyAttrEnum::Surround(b) => {
                self.surround = *b;
            },
        }
    }

    /// Wraps `s` according to the attributes: a head keyword unless
    /// `nohead` or none is recorded, then the surrounding delimiters when
    /// `surround` is set.
    pub fn apply(self, s: Shape) -> (r: Shape)
        ensures
            ({
                let use_head = !self.nohead && self.head is Some;
                if use_head && self.surround {
                    r matches Shape::Surround(b) && (*b matches Shape::Head(t, i) && t@
                        == self.head->0@ && *i == s)
                } else if use_head {
                    r matches Shape::Head(t, i) && t@ == self.head->0@ && *i == s
                } else if self.surround {
                    r matches Shape::Surround(b) && *b == s
                } else {
                    r == s
                }
            }),
    {
        let mut r = s;
        if !self.nohead {
            if let Some(h) = self.head {
                r = Shape::Head(h, Box::new(r));
            }
        }
        if self.surround {
            r = Shape::Surround(Box::new(r));
        }
        r
    }
}

/// Variant- and field-level attributes: how one variant's or one field's
/// parser is wrapped.
#[derive(Debug, PartialEq)]
pub struct FieldAttrs {
    /// A head keyword of the variant's or field's own.
    pub head: Option<Vec<u8>>,
    /// Whether this variant or field is wrapped in surrounding delimiters.
    pub surround: bool,
}

/// One parsed variant- or field-level attribute.
#[derive(Debug, PartialEq)]
pub enum FieldAttrEnum {
    Head(Vec<u8>),
    Surround(bool),
}

impl FieldAttrs {
    /// The default settings: no head of its own, no surrounding delimiters.
    pub fn default() -> (a: Self)
        ensures
            a.head is None,
            !a.surround,
    {
        FieldAttrs { head: None, surround: false }
    }

    /// Updates `self` with the single attribute `e`.
    pub fn add_enum(&mut self, e: &FieldAttrEnum)
        ensures
            match e {
                FieldAttrEnum::Head(s) => {
                    &&& final(self).surround == old(self).surround
                    &&& final(self).head matches Some(h) && h@ == s@
                },
                FieldAttrEnum::Surround(b) => *final(self) == (FieldAttrs { surround: *b, ..*old(self) }),
            },
    {
        match e {
            FieldAttrEnum::Head(s) => {
                self.head = Some(clone_bytes(s));
            },
            FieldAttrEnum::Surround(b) => {
                self.surround = *b;
            },
        }
    }

    /// Wraps `s` according to the attributes: a word break and a head
    /// keyword when one is recorded, then the surrounding delimiters when
    /// `surround` is set.
    pub fn apply(self, s: Shape) -> (r: Shape)
        ensures
            ({
                let use_head = self.head is Some;
                if use_head && self.surround {
                    r matches Shape::Surround(b) && (*b matches Shape::Padded(p) && (*p
                        matches Shape::Head(t, i) && t@ == self.head->0@ && *i == s))
                } else if use_head {
                    r matches Shape::Padded(p) && (*p matches Shape::Head(t, i) && t@
                        == self.head->0@ && *i == s)
                } else if self.surround {
                    r matches Shape::Surround(b) && *b == s
                } else {
                    r == s
                }
            }),
    {
        let mut r = s;
        if let Some(h) = self.head {
            r = Shape::Padded(Box::new(Shape::Head(h, Box::new(r))));
        }
        if self.surround {
            r = Shape::Surround(Box::new(r));
        }
        r
    }
}

/// A copy of a byte string.
pub fn clone_bytes(s: &Vec<u8>) -> (r: Vec<u8>)
    ensures
        r@ == s@,
{
    let mut r: Vec<u8> = Vec::new();
    let mut i: usize = 0;
    while i < s.len()
        invariant
            i <= s@.len(),
            r@ == s@.subrange(0, i as int),
        decreases s@.len() - i,
    {
        r.push(s[i]);
        proof {
            assert(r@ =~= s@.subrange(0, i + 1 as int));
        }
        i = i + 1;
    }
    proof {
        assert(r@ =~= s@);
    }
    r
}

} // verus!

verus! {

/// The argument-list shape of a struct: each field's shape preceded by a
/// word break and labelled with the field's name. A struct without fields
/// consumes just a word break; a single field stands alone, more fields
/// stand in a tuple.
pub fn struct_fields(fields: Vec<(Vec<u8>, Shape)>) -> (r: Shape)
    ensures
        fields@.len() == 0 ==> r == Shape::Wordbreak,
        fields@.len() == 1 ==> (r matches Shape::Context(l, b) && l@ == fields@[0].0@ && (*b
            matches Shape::Padded(p) && *p == fields@[0].1)),
        fields@.len() >= 2 ==> (r matches Shape::Tuple(v) && v@.len() == fields@.len() && forall|
            i: int,
        |
            0 <= i < v@.len() ==> ((#[trigger] v@[i]) matches Shape::Context(l, b) && l@
                == fields@[i].0@ && (*b matches Shape::Padded(p) && *p == fields@[i].1))),
{
    let ghost orig = fields@;
    let mut fields = fields;
    if fields.len() == 0 {
        return Shape::Wordbreak;
    }
    let mut wrapped: Vec<Shape> = Vec::new();
    while fields.len() > 0
        invariant
            orig.len() == wrapped@.len() + fields@.len(),
            fields@ == orig.skip(wrapped@.len() as int),
            forall|i: int|
                0 <= i < wrapped@.len() ==> ((#[trigger] wrapped@[i]) matches Shape::Context(l, b)
                    && l@ == orig[i].0@ && (*b matches Shape::Padded(p) && *p == orig[i].1)),
        decreases fields@.len(),
    {
        let ghost k = wrapped@.len();
        let (label, sh) = fields.remove(0);
        proof {
            assert(orig.skip(k as int)[0] == orig[k as int]);
            assert(orig.skip(k as int).remove(0) =~= orig.skip(k as int + 1));
        }
        wrapped.push(Shape::Context(label, Box::new(Shape::Padded(Box::new(sh)))));
    }
    if wrapped.len() == 1 {
        let r = wrapped.remove(0);
        return r;
    }
    Shape::Tuple(wrapped)
}

/// The argument-list shape of one enum variant: the fields in order, each
/// preceded by a word break, the whole labelled with `label`. A variant
/// without fields consumes just a word break, without the label.
pub fn variant_fields(label: Vec<u8>, fields: Vec<Shape>) -> (r: Shape)
    ensures
        fields@.len() == 0 ==> r == Shape::Wordbreak,
        fields@.len() == 1 ==> (r matches Shape::Context(l, b) && l@ == label@ && (*b
            matches Shape::Padded(p) && *p == fields@[0])),
        fields@.len() >= 2 ==> (r matches Shape::Context(l, b) && l@ == label@ && (*b
            matches Shape::Tuple(v) && v@.len() == fields@.len() && forall|i: int|
                0 <= i < v@.len() ==> ((#[trigger] v@[i]) matches Shape::Padded(p) && *p
                    == fields@[i]))),
{
    let ghost orig = fields@;
    let mut fields = fields;
    if fields.len() == 0 {
        return Shape::Wordbreak;
    }
    let mut wrapped: Vec<Shape> = Vec::new();
    while fields.len() > 0
        invariant
            orig.len() == wrapped@.len() + fields@.len(),
            fields@ == orig.skip(wrapped@.len() as int),
            forall|i: int|
                0 <= i < wrapped@.len() ==> ((#[trigger] wrapped@[i]) matches Shape::Padded(p)
                    && *p == orig[i]),
        decreases fields@.len(),
    {
        let ghost k = wrapped@.len();
        let sh = fields.remove(0);
        proof {
            assert(orig.skip(k as int)[0] == orig[k as int]);
            assert(orig.skip(k as int).remove(0) =~= orig.skip(k as int + 1));
        }
        wrapped.push(Shape::Padded(Box::new(sh)));
    }
    if wrapped.len() == 1 {
        let f = wrapped.remove(0);
        return Shape::Context(label, Box::new(f));
    }
    Shape::Context(label, Box::new(Shape::Tuple(wrapped)))
}

/// The choice among an enum's variant shapes: a single variant stands
/// alone; more stand in an alternation tried in order.
pub fn enum_alt(variants: Vec<Shape>) -> (r: Shape)
    requires
        variants@.len() >= 1,
    ensures
        variants@.len() == 1 ==> r == variants@[0],
        variants@.len() >= 2 ==> (r matches Shape::Alt(v) && v@ == variants@),
{
    let mut variants = variants;
    if variants.len() == 1 {
        let r = variants.remove(0);
        return r;
    }
    Shape::Alt(variants)
}

} // verus!
