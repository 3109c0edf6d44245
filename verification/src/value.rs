use crate::shape::Shape;
use vstd::prelude::*;

verus! {

/// An in-memory structured value, the codec's view of the data it converts.
/// Floats are carried as their IEEE-754 bit patterns, which is exactly what
/// crosses the wire; a caller converts with `to_bits`/`from_bits`.
#[derive(Debug, PartialEq)]
pub enum Value {
    Bool(bool),
    I8(i8),
    I16(i16),
    I32(i32),
    I64(i64),
    U8(u8),
    U16(u16),
    U32(u32),
    U64(u64),
    /// IEEE-754 single-precision bit pattern.
    F32(u32),
    /// IEEE-754 double-precision bit pattern.
    F64(u64),
    Char(char),
    Text(String),
    Bytes(Vec<u8>),
    Optional(Option<Box<Value>>),
    Sequence(Vec<Value>),
    /// Ordered key/value pairs, encoded in iteration order; the codec neither
    /// sorts pairs nor deduplicates keys.
    Mapping(Vec<(Value, Value)>),
    /// A fixed-arity product; fields in declaration order.
    Product(Vec<Value>),
    /// One case of a tagged union: the variant index and the payload fields
    /// (none for a unit variant, one for a newtype payload, several for a
    /// tuple or record payload).
    Variant(u32, Vec<Value>),
    Unit,
}

/// The mathematical counterpart of [`Value`]: text as a sequence of
/// characters, collections as sequences. Contracts speak of this model.
pub enum SpecValue {
    Bool(bool),
    I8(i8),
    I16(i16),
    I32(i32),
    I64(i64),
    U8(u8),
    U16(u16),
    U32(u32),
    U64(u64),
    F32(u32),
    F64(u64),
    Char(char),
    Text(Seq<char>),
    Bytes(Seq<u8>),
    Optional(Option<Box<SpecValue>>),
    Sequence(Seq<SpecValue>),
    Mapping(Seq<(SpecValue, SpecValue)>),
    Product(Seq<SpecValue>),
    Variant(u32, Seq<SpecValue>),
    Unit,
}

/// The model of a [`Value`]; `v@` abbreviates `value_view(v)`.
pub open spec fn value_view(v: Value) -> SpecValue
    decreases v, 1int,
{
    match v {
        Value::Bool(b) => SpecValue::Bool(b),
        Value::I8(x) => SpecValue::I8(x),
        Value::I16(x) => SpecValue::I16(x),
        Value::I32(x) => SpecValue::I32(x),
        Value::I64(x) => SpecValue::I64(x),
        Value::U8(x) => SpecValue::U8(x),
        Value::U16(x) => SpecValue::U16(x),
        Value::U32(x) => SpecValue::U32(x),
        Value::U64(x) => SpecValue::U64(x),
        Value::F32(x) => SpecValue::F32(x),
        Value::F64(x) => SpecValue::F64(x),
        Value::Char(c) => SpecValue::Char(c),
        Value::Text(s) => SpecValue::Text(s@),
        Value::Bytes(b) => SpecValue::Bytes(b@),
        Value::Optional(o) => match o {
            Option::None => SpecValue::Optional(Option::None),
            Option::Some(inner) => SpecValue::Optional(Option::Some(Box::new(value_view(*inner)))),
        },
        Value::Sequence(vs) => SpecValue::Sequence(views_of(vs@)),
        Value::Mapping(ps) => SpecValue::Mapping(pair_views_of(ps@)),
        Value::Product(vs) => SpecValue::Product(views_of(vs@)),
        Value::Variant(idx, vs) => SpecValue::Variant(idx, views_of(vs@)),
        Value::Unit => SpecValue::Unit,
    }
}

/// The models of the values of a list, in order.
pub open spec fn views_of(vs: Seq<Value>) -> Seq<SpecValue>
    decreases vs, 0int,
{
    if vs.len() == 0 {
        Seq::empty()
    } else {
        seq![value_view(vs[0])] + views_of(vs.subrange(1, vs.len() as int))
    }
}

/// The models of the pairs of a list, in order.
pub open spec fn pair_views_of(ps: Seq<(Value, Value)>) -> Seq<(SpecValue, SpecValue)>
    decreases ps, 0int,
{
    if ps.len() == 0 {
        Seq::empty()
    } else {
        seq![(value_view(ps[0].0), value_view(ps[0].1))] + pair_views_of(
            ps.subrange(1, ps.len() as int),
        )
    }
}

impl View for Value {
    type V = SpecValue;

    open spec fn view(&self) -> SpecValue {
        value_view(*self)
    }
}

pub proof fn lemma_views_of(vs: Seq<Value>)
    ensures
        views_of(vs).len() == vs.len(),
        forall|i: int| 0 <= i < vs.len() ==> #[trigger] views_of(vs)[i] == value_view(vs[i]),
    decreases vs.len(),
{
    if vs.len() > 0 {
        let tail = vs.subrange(1, vs.len() as int);
        lemma_views_of(tail);
        assert forall|i: int| 0 <= i < vs.len() implies #[trigger] views_of(vs)[i] == value_view(
            vs[i],
        ) by {
            if i > 0 {
                assert(vs[i] == tail[i - 1]);
            }
        }
    }
}

pub proof fn lemma_pair_views_of(ps: Seq<(Value, Value)>)
    ensures
        pair_views_of(ps).len() == ps.len(),
        forall|i: int|
            0 <= i < ps.len() ==> #[trigger] pair_views_of(ps)[i] == (
                value_view(ps[i].0),
                value_view(ps[i].1),
            ),
    decreases ps.len(),
{
    if ps.len() > 0 {
        let tail = ps.subrange(1, ps.len() as int);
        lemma_pair_views_of(tail);
        assert forall|i: int|
            0 <= i < ps.len() implies #[trigger] pair_views_of(ps)[i] == (
            value_view(ps[i].0),
            value_view(ps[i].1),
        ) by {
            if i > 0 {
                assert(ps[i] == tail[i - 1]);
            }
        }
    }
}

/// A measure of how deeply a value nests, used to justify termination of the
/// recursive descent over a value. Every value weighs at least 1.
pub open spec fn value_size(v: Value) -> nat
    decreases v, 1int,
{
    match v {
        Value::Optional(o) => match o {
            Option::None => 1,
            Option::Some(inner) => 1 + value_size(*inner),
        },
        Value::Sequence(vs) => 1 + values_size(vs@),
        Value::Mapping(ps) => 1 + pairs_size(ps@),
        Value::Product(vs) => 1 + values_size(vs@),
        Value::Variant(_, vs) => 1 + values_size(vs@),
        _ => 1,
    }
}

/// The combined measure of a list of values.
pub open spec fn values_size(vs: Seq<Value>) -> nat
    decreases vs, 0int,
{
    if vs.len() == 0 {
        0
    } else {
        value_size(vs[0]) + values_size(vs.subrange(1, vs.len() as int))
    }
}

/// The combined measure of a list of pairs of values.
pub open spec fn pairs_size(ps: Seq<(Value, Value)>) -> nat
    decreases ps, 0int,
{
    if ps.len() == 0 {
        0
    } else {
        value_size(ps[0].0) + value_size(ps[0].1) + pairs_size(ps.subrange(1, ps.len() as int))
    }
}

/// Each value of a list weighs no more than the whole list.
pub proof fn lemma_values_size_member(vs: Seq<Value>, i: int)
    requires
        0 <= i < vs.len(),
    ensures
        value_size(vs[i]) <= values_size(vs),
    decreases vs.len(),
{
    if i > 0 {
        lemma_values_size_member(vs.subrange(1, vs.len() as int), i - 1);
    }
}

/// Each value of a pair list weighs no more than the whole list.
pub proof fn lemma_pairs_size_member(ps: Seq<(Value, Value)>, i: int)
    requires
        0 <= i < ps.len(),
    ensures
        value_size(ps[i].0) <= pairs_size(ps),
        value_size(ps[i].1) <= pairs_size(ps),
    decreases ps.len(),
{
    if i > 0 {
        lemma_pairs_size_member(ps.subrange(1, ps.len() as int), i - 1);
    }
}

/// Whether a value fits a shape: the decoder only ever produces values that
/// fit the shape it was given, and the round-trip law is stated over fitting
/// values. Length prefixes are 8-byte unsigned integers, so a fitting value's
/// text, byte run, sequence and mapping lengths fit in a `u64`.
pub open spec fn conforms(v: SpecValue, s: Shape) -> bool
    decreases v,
{
    match v {
        SpecValue::Bool(_) => s is Bool,
        SpecValue::I8(_) => s is I8,
        SpecValue::I16(_) => s is I16,
        SpecValue::I32(_) => s is I32,
        SpecValue::I64(_) => s is I64,
        SpecValue::U8(_) => s is U8,
        SpecValue::U16(_) => s is U16,
        SpecValue::U32(_) => s is U32,
        SpecValue::U64(_) => s is U64,
        SpecValue::F32(_) => s is F32,
        SpecValue::F64(_) => s is F64,
        SpecValue::Char(_) => s is Char,
        SpecValue::Text(t) => s is Text && vstd::utf8::encode_utf8(t).len() <= u64::MAX,
        SpecValue::Bytes(b) => s is Bytes && b.len() <= u64::MAX,
        SpecValue::Optional(o) => match s {
            Shape::Optional(inner) => match o {
                Option::None => true,
                Option::Some(payload) => conforms(*payload, *inner),
            },
            _ => false,
        },
        SpecValue::Sequence(vs) => match s {
            Shape::Sequence(elem) => vs.len() <= u64::MAX && forall|i: int|
                0 <= i < vs.len() ==> conforms(#[trigger] vs[i], *elem),
            _ => false,
        },
        SpecValue::Mapping(ps) => match s {
            Shape::Mapping(key, val) => ps.len() <= u64::MAX && forall|i: int|
                0 <= i < ps.len() ==> conforms(#[trigger] ps[i].0, *key) && conforms(
                    ps[i].1,
                    *val,
                ),
            _ => false,
        },
        SpecValue::Product(vs) => match s {
            Shape::Product(fields) => vs.len() == fields@.len() && forall|i: int|
                0 <= i < vs.len() ==> conforms(#[trigger] vs[i], fields@[i]),
            _ => false,
        },
        SpecValue::Variant(idx, vs) => match s {
            Shape::Union(variants) => idx < variants@.len() && vs.len() == variants@[
                idx as int
            ]@.len() && forall|i: int|
                0 <= i < vs.len() ==> conforms(#[trigger] vs[i], variants@[idx as int]@[i]),
            _ => false,
        },
        SpecValue::Unit => s is Unit,
    }
}

} // verus!
