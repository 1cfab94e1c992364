//! Shapes that describe a type's layout, the values they hold, and the
//! mathematical models of those values.

use vstd::prelude::*;

verus! {

/// The width of a fixed-size integer.
#[derive(Debug, Clone, Copy, PartialEq, Eq, Structural)]
pub enum Width {
    W8,
    W16,
    W32,
    W64,
    W128,
}

impl Width {
    /// How many bytes a fixed-width integer of this width takes.
    pub open spec fn bytes(self) -> nat {
        match self {
            Width::W8 => 1,
            Width::W16 => 2,
            Width::W32 => 4,
            Width::W64 => 8,
            Width::W128 => 16,
        }
    }

    /// The most bytes a varint of this width may take: seven bits per byte.
    pub open spec fn varint_max(self) -> nat {
        match self {
            Width::W8 => 2,
            Width::W16 => 3,
            Width::W32 => 5,
            Width::W64 => 10,
            Width::W128 => 19,
        }
    }

    pub fn byte_count(&self) -> (r: usize)
        ensures
            r == self.bytes(),
    {
        match self {
            Width::W8 => 1,
            Width::W16 => 2,
            Width::W32 => 4,
            Width::W64 => 8,
            Width::W128 => 16,
        }
    }

    pub fn varint_limit(&self) -> (r: usize)
        ensures
            r == self.varint_max(),
    {
        match self {
            Width::W8 => 2,
            Width::W16 => 3,
            Width::W32 => 5,
            Width::W64 => 10,
            Width::W128 => 19,
        }
    }
}

/// One variant of a tagged union: its wire discriminant and its payload fields.
#[derive(Debug)]
pub struct VariantShape {
    pub discriminant: u16,
    pub fields: Vec<Shape>,
}

/// The declared shape of a type, which decides how its values go on the wire.
#[derive(Debug)]
pub enum Shape {
    /// A fixed-width unsigned integer, big-endian.
    Unsigned(Width),
    /// A fixed-width two's-complement integer, big-endian.
    Signed(Width),
    /// One byte: 0 or 1 written, any nonzero read as true.
    Bool,
    /// An unsigned integer as a varint.
    VarUnsigned(Width),
    /// A signed integer, zigzag-folded, as a varint.
    VarSigned(Width),
    /// A length prefix, then the UTF-8 bytes.
    Text,
    /// A presence byte, then the payload if present.
    Optional(Box<Shape>),
    /// A length prefix, then each element.
    Sequence(Box<Shape>),
    /// An array of a fixed size: written as a sequence, its length checked on decode.
    Array(Box<Shape>, u32),
    /// The fields in declared order.
    Record(Vec<Shape>),
    /// A 16-bit discriminant, then the chosen variant's fields.
    Union(Vec<VariantShape>),
}

/// A value to encode, or one that was decoded.
#[derive(Debug)]
pub enum Value {
    Unsigned(u128),
    Signed(i128),
    Bool(bool),
    Text(String),
    Optional(Option<Box<Value>>),
    /// The elements of a sequence or of an array.
    List(Vec<Value>),
    /// The fields of a record, in declared order.
    Record(Vec<Value>),
    /// The index of the chosen variant in its union, and its fields.
    Variant(usize, Vec<Value>),
}

/// The mathematical content of a [`Value`].
pub enum Model {
    Int(int),
    Bool(bool),
    Text(Seq<char>),
    Absent,
    Present(Box<Model>),
    List(Seq<Model>),
    Record(Seq<Model>),
    Variant(nat, Seq<Model>),
}

impl Value {
    pub open spec fn model(self) -> Model
        decreases self,
    {
        match self {
            Value::Unsigned(v) => Model::Int(v as int),
            Value::Signed(v) => Model::Int(v as int),
            Value::Bool(b) => Model::Bool(b),
            Value::Text(s) => Model::Text(s@),
            Value::Optional(None) => Model::Absent,
            Value::Optional(Some(b)) => Model::Present(Box::new((*b).model())),
            Value::List(vs) => Model::List(models(vs@)),
            Value::Record(vs) => Model::Record(models(vs@)),
            Value::Variant(i, vs) => Model::Variant(i as nat, models(vs@)),
        }
    }
}

/// The models of a list of values, in order.
pub open spec fn models(s: Seq<Value>) -> Seq<Model>
    decreases s,
{
    if s.len() == 0 {
        Seq::empty()
    } else {
        models(s.drop_last()).push(s.last().model())
    }
}

} // verus!
