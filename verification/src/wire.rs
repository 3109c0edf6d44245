use crate::error::Error;
use crate::shape::{fields_size, lemma_variants_size_member, shape_size, Shape};
use crate::value::SpecValue;
use vstd::bytes::{
    spec_u16_from_le_bytes, spec_u16_to_le_bytes, spec_u32_from_le_bytes, spec_u32_to_le_bytes,
    spec_u64_from_le_bytes, spec_u64_to_le_bytes,
};
use vstd::prelude::*;
use vstd::utf8::{decode_utf8, encode_utf8, is_scalar, valid_utf8};

verus! {

/// The one-byte wire form of a boolean.
pub open spec fn bool_byte(b: bool) -> u8 {
    if b {
        1
    } else {
        0
    }
}

/// The byte layout of a value on the wire: structural metadata first, then
/// the children. Every length prefix is an 8-byte little-endian unsigned
/// integer; a variant index is a 4-byte little-endian unsigned integer; all
/// multi-byte scalars are little-endian.
pub open spec fn encoding(v: SpecValue) -> Seq<u8>
    decreases v,
{
    match v {
        SpecValue::Bool(b) => seq![bool_byte(b)],
        SpecValue::I8(x) => seq![(x as u8)],
        SpecValue::I16(x) => spec_u16_to_le_bytes(x as u16),
        SpecValue::I32(x) => spec_u32_to_le_bytes(x as u32),
        SpecValue::I64(x) => spec_u64_to_le_bytes(x as u64),
        SpecValue::U8(x) => seq![x],
        SpecValue::U16(x) => spec_u16_to_le_bytes(x),
        SpecValue::U32(x) => spec_u32_to_le_bytes(x),
        SpecValue::U64(x) => spec_u64_to_le_bytes(x),
        SpecValue::F32(bits) => spec_u32_to_le_bytes(bits),
        SpecValue::F64(bits) => spec_u64_to_le_bytes(bits),
        SpecValue::Char(c) => spec_u32_to_le_bytes(c as u32),
        SpecValue::Text(t) => spec_u64_to_le_bytes(encode_utf8(t).len() as u64) + encode_utf8(t),
        SpecValue::Bytes(b) => spec_u64_to_le_bytes(b.len() as u64) + b,
        SpecValue::Optional(o) => match o {
            Option::None => seq![0u8],
            Option::Some(payload) => seq![1u8] + encoding(*payload),
        },
        SpecValue::Sequence(vs) => spec_u64_to_le_bytes(vs.len() as u64) + encoding_list(vs),
        SpecValue::Mapping(ps) => spec_u64_to_le_bytes(ps.len() as u64) + encoding_pairs(ps),
        SpecValue::Product(vs) => encoding_list(vs),
        SpecValue::Variant(idx, vs) => spec_u32_to_le_bytes(idx) + encoding_list(vs),
        SpecValue::Unit => Seq::empty(),
    }
}

/// The concatenated encodings of a list of values, in order.
pub open spec fn encoding_list(vs: Seq<SpecValue>) -> Seq<u8>
    decreases vs,
{
    if vs.len() == 0 {
        Seq::empty()
    } else {
        encoding(vs[0]) + encoding_list(vs.subrange(1, vs.len() as int))
    }
}

/// The interleaved encodings of a list of key/value pairs, in order.
pub open spec fn encoding_pairs(ps: Seq<(SpecValue, SpecValue)>) -> Seq<u8>
    decreases ps,
{
    if ps.len() == 0 {
        Seq::empty()
    } else {
        encoding(ps[0].0) + encoding(ps[0].1) + encoding_pairs(ps.subrange(1, ps.len() as int))
    }
}

/// Extending a prefix of a list by one value appends that value's encoding.
pub proof fn lemma_encoding_list_step(vs: Seq<SpecValue>, i: int)
    requires
        0 <= i < vs.len(),
    ensures
        encoding_list(vs.take(i + 1)) == encoding_list(vs.take(i)) + encoding(vs[i]),
    decreases i,
{
    let tail = vs.subrange(1, vs.len() as int);
    if i == 0 {
        assert(vs.take(1).subrange(1, 1) =~= Seq::<SpecValue>::empty());
        assert(vs.take(0) =~= Seq::<SpecValue>::empty());
        assert(encoding_list(Seq::<SpecValue>::empty()) == Seq::<u8>::empty());
        assert(encoding_list(vs.take(1)) =~= encoding(vs[0]));
        assert(encoding_list(vs.take(0)) + encoding(vs[0]) =~= encoding(vs[0]));
    } else {
        lemma_encoding_list_step(tail, i - 1);
        assert(vs.take(i + 1).subrange(1, i + 1) =~= tail.take(i));
        assert(vs.take(i).subrange(1, i) =~= tail.take(i - 1));
        assert(encoding_list(vs.take(i + 1)) == encoding(vs[0]) + encoding_list(tail.take(i)));
        assert(encoding_list(vs.take(i)) == encoding(vs[0]) + encoding_list(tail.take(i - 1)));
        assert(encoding_list(vs.take(i)) + encoding(vs[i]) == encoding(vs[0]) + (encoding_list(
            tail.take(i - 1),
        ) + encoding(tail[i - 1])));
    }
}

/// Extending a prefix of a pair list by one pair appends both encodings.
pub proof fn lemma_encoding_pairs_step(ps: Seq<(SpecValue, SpecValue)>, i: int)
    requires
        0 <= i < ps.len(),
    ensures
        encoding_pairs(ps.take(i + 1)) == encoding_pairs(ps.take(i)) + encoding(ps[i].0)
            + encoding(ps[i].1),
    decreases i,
{
    let tail = ps.subrange(1, ps.len() as int);
    if i == 0 {
        assert(ps.take(1).subrange(1, 1) =~= Seq::<(SpecValue, SpecValue)>::empty());
        assert(ps.take(0) =~= Seq::<(SpecValue, SpecValue)>::empty());
        assert(encoding_pairs(Seq::<(SpecValue, SpecValue)>::empty()) == Seq::<u8>::empty());
        assert(encoding_pairs(ps.take(1)) =~= encoding(ps[0].0) + encoding(ps[0].1));
        assert(encoding_pairs(ps.take(0)) + encoding(ps[0].0) + encoding(ps[0].1) =~= encoding(
            ps[0].0,
        ) + encoding(ps[0].1));
    } else {
        lemma_encoding_pairs_step(tail, i - 1);
        assert(ps.take(i + 1).subrange(1, i + 1) =~= tail.take(i));
        assert(ps.take(i).subrange(1, i) =~= tail.take(i - 1));
        assert(encoding_pairs(ps.take(i + 1)) == encoding(ps[0].0) + encoding(ps[0].1)
            + encoding_pairs(tail.take(i)));
        assert(encoding_pairs(ps.take(i)) == encoding(ps[0].0) + encoding(ps[0].1)
            + encoding_pairs(tail.take(i - 1)));
        assert(encoding_pairs(tail.take(i)) == encoding_pairs(tail.take(i - 1)) + encoding(
            tail[i - 1].0,
        ) + encoding(tail[i - 1].1));
        assert(encoding_pairs(ps.take(i)) + encoding(ps[i].0) + encoding(ps[i].1) == encoding(
            ps[0].0,
        ) + encoding(ps[0].1) + (encoding_pairs(tail.take(i - 1)) + encoding(tail[i - 1].0)
            + encoding(tail[i - 1].1)));
    }
}

/// What a decode of the given shape makes of the given bytes: the value and
/// the number of bytes consumed, or the error that aborts it. The decode is
/// one forward pass: structural metadata first, then exactly the children it
/// announces; trailing bytes are left untouched.
pub open spec fn decoded(s: Seq<u8>, shape: Shape) -> Result<(SpecValue, int), Error>
    decreases shape_size(shape), 0nat, 0nat,
    via decoded_decreases
{
    match shape {
        Shape::Bool => if s.len() < 1 {
            Err(Error::OutOfData)
        } else if s[0] == 0 {
            Ok((SpecValue::Bool(false), 1))
        } else if s[0] == 1 {
            Ok((SpecValue::Bool(true), 1))
        } else {
            Err(Error::InvalidScalar)
        },
        Shape::I8 => if s.len() < 1 {
            Err(Error::OutOfData)
        } else {
            Ok((SpecValue::I8(s[0] as i8), 1))
        },
        Shape::I16 => if s.len() < 2 {
            Err(Error::OutOfData)
        } else {
            Ok((SpecValue::I16(spec_u16_from_le_bytes(s.take(2)) as i16), 2))
        },
        Shape::I32 => if s.len() < 4 {
            Err(Error::OutOfData)
        } else {
            Ok((SpecValue::I32(spec_u32_from_le_bytes(s.take(4)) as i32), 4))
        },
        Shape::I64 => if s.len() < 8 {
            Err(Error::OutOfData)
        } else {
            Ok((SpecValue::I64(spec_u64_from_le_bytes(s.take(8)) as i64), 8))
        },
        Shape::U8 => if s.len() < 1 {
            Err(Error::OutOfData)
        } else {
            Ok((SpecValue::U8(s[0]), 1))
        },
        Shape::U16 => if s.len() < 2 {
            Err(Error::OutOfData)
        } else {
            Ok((SpecValue::U16(spec_u16_from_le_bytes(s.take(2))), 2))
        },
        Shape::U32 => if s.len() < 4 {
            Err(Error::OutOfData)
        } else {
            Ok((SpecValue::U32(spec_u32_from_le_bytes(s.take(4))), 4))
        },
        Shape::U64 => if s.len() < 8 {
            Err(Error::OutOfData)
        } else {
            Ok((SpecValue::U64(spec_u64_from_le_bytes(s.take(8))), 8))
        },
        Shape::F32 => if s.len() < 4 {
            Err(Error::OutOfData)
        } else {
            Ok((SpecValue::F32(spec_u32_from_le_bytes(s.take(4))), 4))
        },
        Shape::F64 => if s.len() < 8 {
            Err(Error::OutOfData)
        } else {
            Ok((SpecValue::F64(spec_u64_from_le_bytes(s.take(8))), 8))
        },
        Shape::Char => if s.len() < 4 {
            Err(Error::OutOfData)
        } else {
            let u = spec_u32_from_le_bytes(s.take(4));
            if is_scalar(u) {
                Ok((SpecValue::Char(u as char), 4))
            } else {
                Err(Error::InvalidScalar)
            }
        },
        Shape::Text => if s.len() < 8 {
            Err(Error::OutOfData)
        } else {
            let n = spec_u64_from_le_bytes(s.take(8)) as int;
            if s.len() < 8 + n {
                Err(Error::OutOfData)
            } else {
                let payload = s.subrange(8, 8 + n);
                if valid_utf8(payload) {
                    Ok((SpecValue::Text(decode_utf8(payload)), 8 + n))
                } else {
                    Err(Error::InvalidText)
                }
            }
        },
        Shape::Bytes => if s.len() < 8 {
            Err(Error::OutOfData)
        } else {
            let n = spec_u64_from_le_bytes(s.take(8)) as int;
            if s.len() < 8 + n {
                Err(Error::OutOfData)
            } else {
                Ok((SpecValue::Bytes(s.subrange(8, 8 + n)), 8 + n))
            }
        },
        Shape::Optional(inner) => if s.len() < 1 {
            Err(Error::OutOfData)
        } else if s[0] == 0 {
            Ok((SpecValue::Optional(Option::None), 1))
        } else if s[0] == 1 {
            match decoded(s.skip(1), *inner) {
                Ok((v, n)) => Ok((SpecValue::Optional(Option::Some(Box::new(v))), 1 + n)),
                Err(e) => Err(e),
            }
        } else {
            Err(Error::InvalidScalar)
        },
        Shape::Sequence(elem) => if s.len() < 8 {
            Err(Error::OutOfData)
        } else {
            let n = spec_u64_from_le_bytes(s.take(8)) as nat;
            match decoded_many(s.skip(8), *elem, n) {
                Ok((vs, m)) => Ok((SpecValue::Sequence(vs), 8 + m)),
                Err(e) => Err(e),
            }
        },
        Shape::Mapping(key, val) => if s.len() < 8 {
            Err(Error::OutOfData)
        } else {
            let n = spec_u64_from_le_bytes(s.take(8)) as nat;
            match decoded_pairs(s.skip(8), *key, *val, n) {
                Ok((ps, m)) => Ok((SpecValue::Mapping(ps), 8 + m)),
                Err(e) => Err(e),
            }
        },
        Shape::Product(fields) => match decoded_fields(s, fields@) {
            Ok((vs, m)) => Ok((SpecValue::Product(vs), m)),
            Err(e) => Err(e),
        },
        Shape::Union(variants) => if s.len() < 4 {
            Err(Error::OutOfData)
        } else {
            let idx = spec_u32_from_le_bytes(s.take(4));
            if idx < variants@.len() {
                match decoded_fields(s.skip(4), variants@[idx as int]@) {
                    Ok((vs, m)) => Ok((SpecValue::Variant(idx, vs), 4 + m)),
                    Err(e) => Err(e),
                }
            } else {
                Err(Error::InvalidScalar)
            }
        },
        Shape::Unit => Ok((SpecValue::Unit, 0)),
    }
}

#[via_fn]
proof fn decoded_decreases(s: Seq<u8>, shape: Shape) {
    match shape {
        Shape::Union(variants) => {
            if s.len() >= 4 {
                let idx = spec_u32_from_le_bytes(s.take(4));
                if idx < variants@.len() {
                    lemma_variants_size_member(variants@, idx as int);
                }
            }
        },
        _ => {},
    }
}

/// The announced number of elements of one shape, decoded back to back.
pub open spec fn decoded_many(s: Seq<u8>, elem: Shape, n: nat) -> Result<
    (Seq<SpecValue>, int),
    Error,
>
    decreases shape_size(elem), n, 1nat,
{
    if n == 0 {
        Ok((Seq::empty(), 0))
    } else {
        match decoded(s, elem) {
            Ok((v, m)) => match decoded_many(s.skip(m), elem, (n - 1) as nat) {
                Ok((vs, m2)) => Ok((seq![v] + vs, m + m2)),
                Err(e) => Err(e),
            },
            Err(e) => Err(e),
        }
    }
}

/// The announced number of key/value pairs, decoded back to back.
pub open spec fn decoded_pairs(s: Seq<u8>, key: Shape, val: Shape, n: nat) -> Result<
    (Seq<(SpecValue, SpecValue)>, int),
    Error,
>
    decreases shape_size(key) + shape_size(val), n, 1nat,
{
    if n == 0 {
        Ok((Seq::empty(), 0))
    } else {
        match decoded(s, key) {
            Ok((k, m1)) => match decoded(s.skip(m1), val) {
                Ok((v, m2)) => match decoded_pairs(
                    s.skip(m1 + m2),
                    key,
                    val,
                    (n - 1) as nat,
                ) {
                    Ok((ps, m3)) => Ok((seq![(k, v)] + ps, m1 + m2 + m3)),
                    Err(e) => Err(e),
                },
                Err(e) => Err(e),
            },
            Err(e) => Err(e),
        }
    }
}

/// A fixed list of field shapes, decoded in declaration order.
pub open spec fn decoded_fields(s: Seq<u8>, shapes: Seq<Shape>) -> Result<
    (Seq<SpecValue>, int),
    Error,
>
    decreases fields_size(shapes), shapes.len(), 1nat,
{
    if shapes.len() == 0 {
        Ok((Seq::empty(), 0))
    } else {
        match decoded(s, shapes[0]) {
            Ok((v, m)) => match decoded_fields(
                s.skip(m),
                shapes.subrange(1, shapes.len() as int),
            ) {
                Ok((vs, m2)) => Ok((seq![v] + vs, m + m2)),
                Err(e) => Err(e),
            },
            Err(e) => Err(e),
        }
    }
}

/// What a whole decode call makes of the given bytes: the value alone.
pub open spec fn decoded_value(s: Seq<u8>, shape: Shape) -> Result<SpecValue, Error> {
    match decoded(s, shape) {
        Ok((v, _)) => Ok(v),
        Err(e) => Err(e),
    }
}

} // verus!
