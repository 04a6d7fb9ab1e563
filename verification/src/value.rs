use vstd::prelude::*;

verus! {

/// An abstract-model value: what the codec encodes to, and decodes from, the
/// RESP2 wire format. One `Value` describes one top-level command or reply.
#[derive(Debug)]
pub enum Value {
    /// Encoded as the integer 0 or 1.
    Bool(bool),
    /// Encoded as a RESP integer.
    Int(i64),
    /// Encoded as a RESP integer; values above the signed 64-bit range are a
    /// conversion error.
    UInt(u64),
    /// A single ASCII scalar; CR or LF forces bulk-string framing.
    Char(char),
    /// UTF-8 text; CR or LF anywhere in it forces bulk-string framing,
    /// otherwise it becomes a simple string.
    Str(String),
    /// Always framed as a bulk string.
    Bytes(Vec<u8>),
    /// A unit value: encoded as the nil bulk string in either mode. Nothing
    /// decodes to it; an absent optional decodes as `Opt`.
    Nil,
    /// An optional: absent is omitted in command mode and encoded as nil in
    /// reply mode; present encodes as the inner value directly.
    Opt(Option<Box<Value>>),
    /// A sequence or tuple; becomes a RESP array (headerless when streamed
    /// into a command frame).
    List(Vec<Value>),
    /// An enum case with no payload.
    UnitVariant(String),
    /// An enum case with exactly one payload field.
    NewtypeVariant(String, Box<Value>),
    /// An enum case with any number of payload fields.
    TupleVariant(String, Vec<Value>),
}

/// One candidate enum case of a `Shape::Enum` decode target: the variant's
/// name and the shapes of its payload fields, in declaration order.
pub struct Variant {
    pub name: String,
    pub fields: Vec<Shape>,
}

/// A decode target: the shape the caller requests a wire value to be read
/// as. Mirrors the shapes a `Value` can take.
pub enum Shape {
    Bool,
    Int,
    UInt,
    Char,
    Str,
    Bytes,
    Opt(Box<Shape>),
    List(Box<Shape>),
    Tuple(Vec<Shape>),
    Enum(Vec<Variant>),
}

/// The mathematical model of a `Value`: strings and vectors replaced by
/// their sequence views, machine integers widened.
pub enum ValueModel {
    Bool(bool),
    Int(int),
    UInt(int),
    Char(char),
    Str(Seq<char>),
    Bytes(Seq<u8>),
    Nil,
    Opt(Option<Box<ValueModel>>),
    List(Seq<ValueModel>),
    UnitVariant(Seq<char>),
    NewtypeVariant(Seq<char>, Box<ValueModel>),
    TupleVariant(Seq<char>, Seq<ValueModel>),
}

/// The mathematical model of a `Variant`.
pub struct VariantModel {
    pub name: Seq<char>,
    pub fields: Seq<ShapeModel>,
}

/// The mathematical model of a `Shape`.
pub enum ShapeModel {
    Bool,
    Int,
    UInt,
    Char,
    Str,
    Bytes,
    Opt(Box<ShapeModel>),
    List(Box<ShapeModel>),
    Tuple(Seq<ShapeModel>),
    Enum(Seq<VariantModel>),
}

pub open spec fn value_model(v: Value) -> ValueModel
    decreases v,
{
    match v {
        Value::Bool(b) => ValueModel::Bool(b),
        Value::Int(i) => ValueModel::Int(i as int),
        Value::UInt(u) => ValueModel::UInt(u as int),
        Value::Char(c) => ValueModel::Char(c),
        Value::Str(s) => ValueModel::Str(s@),
        Value::Bytes(b) => ValueModel::Bytes(b@),
        Value::Nil => ValueModel::Nil,
        Value::Opt(o) => match o {
            Option::None => ValueModel::Opt(Option::None),
            Option::Some(inner) => ValueModel::Opt(Option::Some(Box::new(value_model(*inner)))),
        },
        Value::List(elems) => ValueModel::List(value_models(elems@)),
        Value::UnitVariant(n) => ValueModel::UnitVariant(n@),
        Value::NewtypeVariant(n, inner) => ValueModel::NewtypeVariant(
            n@,
            Box::new(value_model(*inner)),
        ),
        Value::TupleVariant(n, fields) => ValueModel::TupleVariant(n@, value_models(fields@)),
    }
}

pub open spec fn value_models(s: Seq<Value>) -> Seq<ValueModel>
    decreases s,
{
    if s.len() == 0 {
        Seq::empty()
    } else {
        seq![value_model(s[0])] + value_models(s.drop_first())
    }
}

impl View for Value {
    type V = ValueModel;

    open spec fn view(&self) -> ValueModel {
        value_model(*self)
    }
}

pub open spec fn shape_model(s: Shape) -> ShapeModel
    decreases s,
{
    match s {
        Shape::Bool => ShapeModel::Bool,
        Shape::Int => ShapeModel::Int,
        Shape::UInt => ShapeModel::UInt,
        Shape::Char => ShapeModel::Char,
        Shape::Str => ShapeModel::Str,
        Shape::Bytes => ShapeModel::Bytes,
        Shape::Opt(inner) => ShapeModel::Opt(Box::new(shape_model(*inner))),
        Shape::List(elem) => ShapeModel::List(Box::new(shape_model(*elem))),
        Shape::Tuple(fields) => ShapeModel::Tuple(shape_models(fields@)),
        Shape::Enum(vars) => ShapeModel::Enum(variant_models(vars@)),
    }
}

pub open spec fn shape_models(s: Seq<Shape>) -> Seq<ShapeModel>
    decreases s,
{
    if s.len() == 0 {
        Seq::empty()
    } else {
        seq![shape_model(s[0])] + shape_models(s.drop_first())
    }
}

pub open spec fn variant_models(s: Seq<Variant>) -> Seq<VariantModel>
    decreases s,
{
    if s.len() == 0 {
        Seq::empty()
    } else {
        seq![
            VariantModel { name: s[0].name@, fields: shape_models(s[0].fields@) },
        ] + variant_models(s.drop_first())
    }
}

impl View for Shape {
    type V = ShapeModel;

    open spec fn view(&self) -> ShapeModel {
        shape_model(*self)
    }
}

impl View for Variant {
    type V = VariantModel;

    open spec fn view(&self) -> VariantModel {
        VariantModel { name: self.name@, fields: shape_models(self.fields@) }
    }
}

pub proof fn lemma_value_models_index(s: Seq<Value>)
    ensures
        value_models(s).len() == s.len(),
        forall|i: int| 0 <= i < s.len() ==> value_models(s)[i] == value_model(s[i]),
    decreases s,
{
    if s.len() > 0 {
        lemma_value_models_index(s.drop_first());
    }
}

pub proof fn lemma_value_models_push(s: Seq<Value>, x: Value)
    ensures
        value_models(s.push(x)) == value_models(s) + seq![value_model(x)],
{
    lemma_value_models_index(s.push(x));
    lemma_value_models_index(s);
    assert(value_models(s.push(x)) =~= value_models(s) + seq![value_model(x)]);
}

pub proof fn lemma_shape_models_index(s: Seq<Shape>)
    ensures
        shape_models(s).len() == s.len(),
        forall|i: int| 0 <= i < s.len() ==> shape_models(s)[i] == shape_model(s[i]),
    decreases s,
{
    if s.len() > 0 {
        lemma_shape_models_index(s.drop_first());
    }
}

pub proof fn lemma_variant_models_index(s: Seq<Variant>)
    ensures
        variant_models(s).len() == s.len(),
        forall|i: int| 0 <= i < s.len() ==> variant_models(s)[i] == (VariantModel {
            name: s[i].name@,
            fields: shape_models(s[i].fields@),
        }),
    decreases s,
{
    if s.len() > 0 {
        lemma_variant_models_index(s.drop_first());
    }
}

impl Value {
    /// A command's top-level value must be an enum: the variant is the
    /// command name.
    pub open spec fn is_enum_shaped(self) -> bool {
        (self matches Value::UnitVariant(_)) || (self matches Value::NewtypeVariant(_, _)) || (
        self matches Value::TupleVariant(_, _))
    }
}

impl ValueModel {
    /// Whether this model value is one of the tagged-variant shapes.
    pub open spec fn is_enum_shaped(self) -> bool {
        (self matches ValueModel::UnitVariant(_)) || (self matches ValueModel::NewtypeVariant(
            _,
            _,
        )) || (self matches ValueModel::TupleVariant(_, _))
    }
}

} // verus!
