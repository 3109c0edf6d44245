use vstd::prelude::*;

verus! {

/// A runtime description of the shape a decoder expects on the wire. The wire
/// format is not self-describing, so a decoder must be told the shape in
/// advance; the mapping from a program-defined type onto a `Shape` is owned by
/// the caller, not by the codec.
#[derive(Debug, PartialEq)]
pub enum Shape {
    Bool,
    I8,
    I16,
    I32,
    I64,
    U8,
    U16,
    U32,
    U64,
    /// IEEE-754 single-precision float, carried as its 32-bit pattern.
    F32,
    /// IEEE-754 double-precision float, carried as its 64-bit pattern.
    F64,
    /// A Unicode scalar, transmitted as its 32-bit code point.
    Char,
    /// UTF-8 text behind an 8-byte length prefix.
    Text,
    /// A raw byte run behind an 8-byte length prefix.
    Bytes,
    /// A value that may be absent, behind a 1-byte flag.
    Optional(Box<Shape>),
    /// A homogeneous sequence behind an 8-byte count prefix.
    Sequence(Box<Shape>),
    /// Ordered key/value pairs behind an 8-byte count prefix.
    Mapping(Box<Shape>, Box<Shape>),
    /// A fixed-arity product: fields in declaration order, no header.
    Product(Vec<Shape>),
    /// A tagged union: each entry lists the field shapes of one variant, in
    /// index order; a 4-byte variant index precedes the payload on the wire.
    Union(Vec<Vec<Shape>>),
    /// A zero-byte value.
    Unit,
}

/// A measure of how deeply a shape nests, used to justify termination of the
/// recursive descent over a shape. Every shape weighs at least 1.
pub open spec fn shape_size(s: Shape) -> nat
    decreases s,
{
    match s {
        Shape::Optional(inner) => 1 + shape_size(*inner),
        Shape::Sequence(elem) => 1 + shape_size(*elem),
        Shape::Mapping(key, val) => 1 + shape_size(*key) + shape_size(*val),
        Shape::Product(fields) => 1 + fields_size(fields@),
        Shape::Union(variants) => 1 + variants_size(variants@),
        _ => 1,
    }
}

/// The combined measure of a list of field shapes.
pub open spec fn fields_size(ss: Seq<Shape>) -> nat
    decreases ss,
{
    if ss.len() == 0 {
        0
    } else {
        shape_size(ss.first()) + fields_size(ss.drop_first())
    }
}

/// The combined measure of the field lists of all variants of a union.
pub open spec fn variants_size(vss: Seq<Vec<Shape>>) -> nat
    decreases vss,
{
    if vss.len() == 0 {
        0
    } else {
        fields_size(vss.first()@) + variants_size(vss.drop_first())
    }
}

pub proof fn lemma_shape_size_pos(s: Shape)
    ensures
        shape_size(s) >= 1,
{
}

/// Each field shape weighs no more than the whole field list.
pub proof fn lemma_fields_size_member(ss: Seq<Shape>, i: int)
    requires
        0 <= i < ss.len(),
    ensures
        shape_size(ss[i]) <= fields_size(ss),
    decreases ss.len(),
{
    if i == 0 {
    } else {
        lemma_fields_size_member(ss.drop_first(), i - 1);
    }
}

/// Each variant's field list weighs no more than the whole variant table.
pub proof fn lemma_variants_size_member(vss: Seq<Vec<Shape>>, i: int)
    requires
        0 <= i < vss.len(),
    ensures
        fields_size(vss[i]@) <= variants_size(vss),
    decreases vss.len(),
{
    if i == 0 {
    } else {
        lemma_variants_size_member(vss.drop_first(), i - 1);
    }
}

} // verus!
