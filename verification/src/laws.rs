use crate::error::Error;
use crate::shape::{fields_size, shape_size, Shape};
use crate::value::{conforms, SpecValue};
use crate::wire::{
    decoded, decoded_fields, decoded_many, decoded_pairs, decoded_value, encoding, encoding_list,
    encoding_pairs,
};
use vstd::bytes::{
    lemma_auto_spec_u16_to_from_le_bytes, lemma_auto_spec_u32_to_from_le_bytes,
    lemma_auto_spec_u64_to_from_le_bytes,
};
use vstd::prelude::*;
use vstd::utf8::{char_is_scalar, char_u32_cast, encode_utf8_decode_utf8, encode_utf8_valid_utf8};

verus! {

/// Decoding an encoded value, with any trailing bytes behind it, yields the
/// value back and consumes exactly its wire form.
pub proof fn lemma_decode_of_encode_prefix(v: SpecValue, s: Shape, rest: Seq<u8>)
    requires
        conforms(v, s),
    ensures
        decoded(encoding(v) + rest, s) == Ok::<(SpecValue, int), Error>((
            v,
            encoding(v).len() as int,
        )),
    decreases v, 0int,
{
    lemma_auto_spec_u16_to_from_le_bytes();
    lemma_auto_spec_u32_to_from_le_bytes();
    lemma_auto_spec_u64_to_from_le_bytes();
    let buf = encoding(v) + rest;
    match v {
        SpecValue::Bool(b) => {
            assert(buf[0] == crate::wire::bool_byte(b));
        },
        SpecValue::I8(x) => {
            assert(buf[0] == x as u8);
            assert((x as u8) as i8 == x) by (bit_vector);
        },
        SpecValue::I16(x) => {
            assert(buf.take(2) =~= encoding(v));
            assert((x as u16) as i16 == x) by (bit_vector);
        },
        SpecValue::I32(x) => {
            assert(buf.take(4) =~= encoding(v));
            assert((x as u32) as i32 == x) by (bit_vector);
        },
        SpecValue::I64(x) => {
            assert(buf.take(8) =~= encoding(v));
            assert((x as u64) as i64 == x) by (bit_vector);
        },
        SpecValue::U8(x) => {
            assert(buf[0] == x);
        },
        SpecValue::U16(x) => {
            assert(buf.take(2) =~= encoding(v));
        },
        SpecValue::U32(x) => {
            assert(buf.take(4) =~= encoding(v));
        },
        SpecValue::U64(x) => {
            assert(buf.take(8) =~= encoding(v));
        },
        SpecValue::F32(bits) => {
            assert(buf.take(4) =~= encoding(v));
        },
        SpecValue::F64(bits) => {
            assert(buf.take(8) =~= encoding(v));
        },
        SpecValue::Char(c) => {
            assert(buf.take(4) =~= encoding(v));
            char_is_scalar(c);
            char_u32_cast(c, c as u32);
        },
        SpecValue::Text(t) => {
            let payload = vstd::utf8::encode_utf8(t);
            let n = payload.len() as int;
            assert(buf.take(8) =~= vstd::bytes::spec_u64_to_le_bytes(payload.len() as u64));
            assert(buf.subrange(8, 8 + n) =~= payload);
            encode_utf8_valid_utf8(t);
            encode_utf8_decode_utf8(t);
        },
        SpecValue::Bytes(b) => {
            let n = b.len() as int;
            assert(buf.take(8) =~= vstd::bytes::spec_u64_to_le_bytes(b.len() as u64));
            assert(buf.subrange(8, 8 + n) =~= b);
        },
        SpecValue::Optional(o) => match o {
            Option::None => {
                assert(buf[0] == 0);
            },
            Option::Some(payload) => {
                assert(buf[0] == 1);
                assert(buf.skip(1) =~= encoding(*payload) + rest);
                lemma_decode_of_encode_prefix(*payload, *(s->Optional_0), rest);
            },
        },
        SpecValue::Sequence(vs) => {
            let elem = *(s->Sequence_0);
            assert(buf.take(8) =~= vstd::bytes::spec_u64_to_le_bytes(vs.len() as u64));
            assert(buf.skip(8) =~= encoding_list(vs) + rest);
            lemma_decode_of_encode_list(vs, elem, rest);
        },
        SpecValue::Mapping(ps) => {
            let key = *(s->Mapping_0);
            let val = *(s->Mapping_1);
            assert(buf.take(8) =~= vstd::bytes::spec_u64_to_le_bytes(ps.len() as u64));
            assert(buf.skip(8) =~= encoding_pairs(ps) + rest);
            lemma_decode_of_encode_pairs(ps, key, val, rest);
        },
        SpecValue::Product(vs) => {
            let fields = s->Product_0;
            lemma_decode_of_encode_fields(vs, fields@, rest);
        },
        SpecValue::Variant(idx, vs) => {
            let variants = s->Union_0;
            assert(buf.take(4) =~= vstd::bytes::spec_u32_to_le_bytes(idx));
            assert(buf.skip(4) =~= encoding_list(vs) + rest);
            lemma_decode_of_encode_fields(vs, variants@[idx as int]@, rest);
        },
        SpecValue::Unit => {},
    }
}

/// Decoding the concatenated encodings of a list of values, as that many
/// elements of their common shape, yields the list back.
pub proof fn lemma_decode_of_encode_list(vs: Seq<SpecValue>, elem: Shape, rest: Seq<u8>)
    requires
        forall|i: int| 0 <= i < vs.len() ==> conforms(#[trigger] vs[i], elem),
    ensures
        decoded_many(encoding_list(vs) + rest, elem, vs.len() as nat) == Ok::<
            (Seq<SpecValue>, int),
            Error,
        >((vs, encoding_list(vs).len() as int)),
    decreases vs, 0int,
{
    if vs.len() == 0 {
        assert(encoding_list(vs) + rest =~= rest);
        assert(vs =~= Seq::<SpecValue>::empty());
    } else {
        let tail = vs.subrange(1, vs.len() as int);
        let buf = encoding_list(vs) + rest;
        assert(buf =~= encoding(vs[0]) + (encoding_list(tail) + rest));
        lemma_decode_of_encode_prefix(vs[0], elem, encoding_list(tail) + rest);
        let m0 = encoding(vs[0]).len() as int;
        assert(decoded(buf, elem) == Ok::<(SpecValue, int), Error>((vs[0], m0)));
        assert(buf.skip(m0) =~= encoding_list(tail) + rest);
        lemma_decode_of_encode_list(tail, elem, rest);
        let m1 = encoding_list(tail).len() as int;
        assert(decoded_many(buf.skip(m0), elem, (vs.len() - 1) as nat) == Ok::<
            (Seq<SpecValue>, int),
            Error,
        >((tail, m1)));
        assert(decoded_many(buf, elem, vs.len() as nat) == Ok::<(Seq<SpecValue>, int), Error>((
            seq![vs[0]] + tail,
            m0 + m1,
        )));
        assert(seq![vs[0]] + tail =~= vs);
        assert(encoding_list(vs).len() == m0 + m1);
    }
}

/// Decoding the interleaved encodings of a list of pairs, as that many pairs
/// of their common key and value shapes, yields the list back.
pub proof fn lemma_decode_of_encode_pairs(
    ps: Seq<(SpecValue, SpecValue)>,
    key: Shape,
    val: Shape,
    rest: Seq<u8>,
)
    requires
        forall|i: int|
            0 <= i < ps.len() ==> conforms(#[trigger] ps[i].0, key) && conforms(ps[i].1, val),
    ensures
        decoded_pairs(encoding_pairs(ps) + rest, key, val, ps.len() as nat) == Ok::<
            (Seq<(SpecValue, SpecValue)>, int),
            Error,
        >((ps, encoding_pairs(ps).len() as int)),
    decreases ps, 0int,
{
    if ps.len() == 0 {
        assert(encoding_pairs(ps) + rest =~= rest);
        assert(ps =~= Seq::<(SpecValue, SpecValue)>::empty());
    } else {
        let tail = ps.subrange(1, ps.len() as int);
        let e0 = encoding(ps[0].0);
        let e1 = encoding(ps[0].1);
        let buf = encoding_pairs(ps) + rest;
        assert(buf =~= e0 + (e1 + (encoding_pairs(tail) + rest)));
        lemma_decode_of_encode_prefix(ps[0].0, key, e1 + (encoding_pairs(tail) + rest));
        let m0 = e0.len() as int;
        let m1 = e1.len() as int;
        assert(decoded(buf, key) == Ok::<(SpecValue, int), Error>((ps[0].0, m0)));
        assert(buf.skip(m0) =~= e1 + (encoding_pairs(tail) + rest));
        lemma_decode_of_encode_prefix(ps[0].1, val, encoding_pairs(tail) + rest);
        assert(decoded(buf.skip(m0), val) == Ok::<(SpecValue, int), Error>((ps[0].1, m1)));
        assert(buf.skip(m0).skip(m1) =~= encoding_pairs(tail) + rest);
        assert(buf.skip(m0 + m1) =~= buf.skip(m0).skip(m1));
        assert forall|i: int|
            0 <= i < tail.len() implies conforms(#[trigger] tail[i].0, key) && conforms(
            tail[i].1,
            val,
        ) by {
            assert(tail[i] == ps[i + 1]);
        }
        lemma_decode_of_encode_pairs(tail, key, val, rest);
        let m2 = encoding_pairs(tail).len() as int;
        assert(decoded_pairs(buf.skip(m0 + m1), key, val, (ps.len() - 1) as nat) == Ok::<
            (Seq<(SpecValue, SpecValue)>, int),
            Error,
        >((tail, m2)));
        assert(decoded_pairs(buf, key, val, ps.len() as nat) == Ok::<
            (Seq<(SpecValue, SpecValue)>, int),
            Error,
        >((seq![(ps[0].0, ps[0].1)] + tail, m0 + m1 + m2)));
        assert(seq![(ps[0].0, ps[0].1)] + tail =~= ps);
        assert(encoding_pairs(ps).len() == m0 + m1 + m2);
    }
}

/// Decoding the concatenated encodings of a list of fields, against their
/// declared shapes, yields the fields back.
pub proof fn lemma_decode_of_encode_fields(vs: Seq<SpecValue>, shapes: Seq<Shape>, rest: Seq<u8>)
    requires
        vs.len() == shapes.len(),
        forall|i: int| 0 <= i < vs.len() ==> conforms(#[trigger] vs[i], shapes[i]),
    ensures
        decoded_fields(encoding_list(vs) + rest, shapes) == Ok::<(Seq<SpecValue>, int), Error>((
            vs,
            encoding_list(vs).len() as int,
        )),
    decreases vs, 0int,
{
    if vs.len() == 0 {
        assert(encoding_list(vs) + rest =~= rest);
        assert(vs =~= Seq::<SpecValue>::empty());
        assert(shapes =~= Seq::<Shape>::empty());
    } else {
        let tail = vs.subrange(1, vs.len() as int);
        let stail = shapes.subrange(1, shapes.len() as int);
        let buf = encoding_list(vs) + rest;
        assert(buf =~= encoding(vs[0]) + (encoding_list(tail) + rest));
        lemma_decode_of_encode_prefix(vs[0], shapes[0], encoding_list(tail) + rest);
        let m0 = encoding(vs[0]).len() as int;
        assert(decoded(buf, shapes[0]) == Ok::<(SpecValue, int), Error>((vs[0], m0)));
        assert(buf.skip(m0) =~= encoding_list(tail) + rest);
        assert(forall|i: int| 0 <= i < tail.len() ==> conforms(#[trigger] tail[i], stail[i]));
        lemma_decode_of_encode_fields(tail, stail, rest);
        let m1 = encoding_list(tail).len() as int;
        assert(decoded_fields(buf.skip(m0), stail) == Ok::<(Seq<SpecValue>, int), Error>((
            tail,
            m1,
        )));
        assert(decoded_fields(buf, shapes) == Ok::<(Seq<SpecValue>, int), Error>((
            seq![vs[0]] + tail,
            m0 + m1,
        )));
        assert(seq![vs[0]] + tail =~= vs);
        assert(encoding_list(vs).len() == m0 + m1);
    }
}

/// The round-trip law: decoding what encode produced, with the shape the
/// value fits, gives the value back.
pub proof fn lemma_round_trip(v: SpecValue, s: Shape)
    requires
        conforms(v, s),
    ensures
        decoded_value(encoding(v), s) == Ok::<SpecValue, Error>(v),
        decoded(encoding(v), s) == Ok::<(SpecValue, int), Error>((v, encoding(v).len() as int)),
{
    lemma_decode_of_encode_prefix(v, s, Seq::empty());
    assert(encoding(v) + Seq::<u8>::empty() =~= encoding(v));
}

/// Decoding a strict prefix of an encoded value fails for want of data.
pub proof fn lemma_truncated_prefix(v: SpecValue, s: Shape, k: int)
    requires
        conforms(v, s),
        0 <= k < encoding(v).len(),
    ensures
        decoded(encoding(v).take(k), s) == Err::<(SpecValue, int), Error>(Error::OutOfData),
    decreases v, 0int,
{
    lemma_auto_spec_u16_to_from_le_bytes();
    lemma_auto_spec_u32_to_from_le_bytes();
    lemma_auto_spec_u64_to_from_le_bytes();
    let t = encoding(v).take(k);
    match v {
        SpecValue::Bool(_) => {},
        SpecValue::I8(_) => {},
        SpecValue::I16(_) => {},
        SpecValue::I32(_) => {},
        SpecValue::I64(_) => {},
        SpecValue::U8(_) => {},
        SpecValue::U16(_) => {},
        SpecValue::U32(_) => {},
        SpecValue::U64(_) => {},
        SpecValue::F32(_) => {},
        SpecValue::F64(_) => {},
        SpecValue::Char(_) => {},
        SpecValue::Text(txt) => {
            let payload = vstd::utf8::encode_utf8(txt);
            let n = payload.len() as int;
            if k >= 8 {
                assert(t.take(8) =~= vstd::bytes::spec_u64_to_le_bytes(payload.len() as u64));
                assert(t.len() < 8 + n);
            }
        },
        SpecValue::Bytes(b) => {
            let n = b.len() as int;
            if k >= 8 {
                assert(t.take(8) =~= vstd::bytes::spec_u64_to_le_bytes(b.len() as u64));
                assert(t.len() < 8 + n);
            }
        },
        SpecValue::Optional(o) => match o {
            Option::None => {},
            Option::Some(payload) => {
                if k >= 1 {
                    assert(t[0] == 1);
                    assert(t.skip(1) =~= encoding(*payload).take(k - 1));
                    lemma_truncated_prefix(*payload, *(s->Optional_0), k - 1);
                }
            },
        },
        SpecValue::Sequence(vs) => {
            let elem = *(s->Sequence_0);
            if k >= 8 {
                assert(t.take(8) =~= vstd::bytes::spec_u64_to_le_bytes(vs.len() as u64));
                assert(t.skip(8) =~= encoding_list(vs).take(k - 8));
                lemma_truncated_list(vs, elem, k - 8);
            }
        },
        SpecValue::Mapping(ps) => {
            let key = *(s->Mapping_0);
            let val = *(s->Mapping_1);
            if k >= 8 {
                assert(t.take(8) =~= vstd::bytes::spec_u64_to_le_bytes(ps.len() as u64));
                assert(t.skip(8) =~= encoding_pairs(ps).take(k - 8));
                lemma_truncated_pairs(ps, key, val, k - 8);
            }
        },
        SpecValue::Product(vs) => {
            let fields = s->Product_0;
            lemma_truncated_fields(vs, fields@, k);
        },
        SpecValue::Variant(idx, vs) => {
            let variants = s->Union_0;
            if k >= 4 {
                assert(t.take(4) =~= vstd::bytes::spec_u32_to_le_bytes(idx));
                assert(t.skip(4) =~= encoding_list(vs).take(k - 4));
                lemma_truncated_fields(vs, variants@[idx as int]@, k - 4);
            }
        },
        SpecValue::Unit => {},
    }
}

/// Decoding a strict prefix of a list's concatenated encodings, as the full
/// element count, fails for want of data.
pub proof fn lemma_truncated_list(vs: Seq<SpecValue>, elem: Shape, k: int)
    requires
        forall|i: int| 0 <= i < vs.len() ==> conforms(#[trigger] vs[i], elem),
        0 <= k < encoding_list(vs).len(),
    ensures
        decoded_many(encoding_list(vs).take(k), elem, vs.len() as nat) == Err::<
            (Seq<SpecValue>, int),
            Error,
        >(Error::OutOfData),
    decreases vs, 0int,
{
    if vs.len() == 0 {
        // encoding_list of an empty list is empty, so there is no strict prefix
    } else {
        let tail = vs.subrange(1, vs.len() as int);
        let e0 = encoding(vs[0]);
        let m0 = e0.len() as int;
        let t = encoding_list(vs).take(k);
        if k < m0 {
            assert(t =~= e0.take(k));
            lemma_truncated_prefix(vs[0], elem, k);
            assert(decoded(t, elem) == Err::<(SpecValue, int), Error>(Error::OutOfData));
        } else {
            let rest = encoding_list(tail).take(k - m0);
            assert(t =~= e0 + rest);
            lemma_decode_of_encode_prefix(vs[0], elem, rest);
            assert(decoded(t, elem) == Ok::<(SpecValue, int), Error>((vs[0], m0)));
            assert(t.skip(m0) =~= rest);
            lemma_truncated_list(tail, elem, k - m0);
            assert(decoded_many(t.skip(m0), elem, (vs.len() - 1) as nat) == Err::<
                (Seq<SpecValue>, int),
                Error,
            >(Error::OutOfData));
        }
    }
}

/// Decoding a strict prefix of a pair list's interleaved encodings, as the
/// full pair count, fails for want of data.
pub proof fn lemma_truncated_pairs(ps: Seq<(SpecValue, SpecValue)>, key: Shape, val: Shape, k: int)
    requires
        forall|i: int|
            0 <= i < ps.len() ==> conforms(#[trigger] ps[i].0, key) && conforms(ps[i].1, val),
        0 <= k < encoding_pairs(ps).len(),
    ensures
        decoded_pairs(encoding_pairs(ps).take(k), key, val, ps.len() as nat) == Err::<
            (Seq<(SpecValue, SpecValue)>, int),
            Error,
        >(Error::OutOfData),
    decreases ps, 0int,
{
    if ps.len() == 0 {
        // encoding_pairs of an empty list is empty, so there is no strict prefix
    } else {
        let tail = ps.subrange(1, ps.len() as int);
        let e0 = encoding(ps[0].0);
        let e1 = encoding(ps[0].1);
        let m0 = e0.len() as int;
        let m1 = e1.len() as int;
        let t = encoding_pairs(ps).take(k);
        if k < m0 {
            assert(t =~= e0.take(k));
            lemma_truncated_prefix(ps[0].0, key, k);
            assert(decoded(t, key) == Err::<(SpecValue, int), Error>(Error::OutOfData));
        } else if k < m0 + m1 {
            let rest = e1.take(k - m0);
            assert(t =~= e0 + rest);
            lemma_decode_of_encode_prefix(ps[0].0, key, rest);
            assert(decoded(t, key) == Ok::<(SpecValue, int), Error>((ps[0].0, m0)));
            assert(t.skip(m0) =~= rest);
            lemma_truncated_prefix(ps[0].1, val, k - m0);
            assert(decoded(t.skip(m0), val) == Err::<(SpecValue, int), Error>(
                Error::OutOfData,
            ));
        } else {
            let rest = encoding_pairs(tail).take(k - m0 - m1);
            assert(t =~= e0 + (e1 + rest));
            lemma_decode_of_encode_prefix(ps[0].0, key, e1 + rest);
            assert(decoded(t, key) == Ok::<(SpecValue, int), Error>((ps[0].0, m0)));
            assert(t.skip(m0) =~= e1 + rest);
            lemma_decode_of_encode_prefix(ps[0].1, val, rest);
            assert(decoded(t.skip(m0), val) == Ok::<(SpecValue, int), Error>((ps[0].1, m1)));
            assert(t.skip(m0).skip(m1) =~= rest);
            assert(t.skip(m0 + m1) =~= t.skip(m0).skip(m1));
            assert forall|i: int|
                0 <= i < tail.len() implies conforms(#[trigger] tail[i].0, key) && conforms(
                tail[i].1,
                val,
            ) by {
                assert(tail[i] == ps[i + 1]);
            }
            lemma_truncated_pairs(tail, key, val, k - m0 - m1);
            assert(decoded_pairs(t.skip(m0 + m1), key, val, (ps.len() - 1) as nat) == Err::<
                (Seq<(SpecValue, SpecValue)>, int),
                Error,
            >(Error::OutOfData));
        }
    }
}

/// Decoding a strict prefix of a field list's concatenated encodings,
/// against the declared shapes, fails for want of data.
pub proof fn lemma_truncated_fields(vs: Seq<SpecValue>, shapes: Seq<Shape>, k: int)
    requires
        vs.len() == shapes.len(),
        forall|i: int| 0 <= i < vs.len() ==> conforms(#[trigger] vs[i], shapes[i]),
        0 <= k < encoding_list(vs).len(),
    ensures
        decoded_fields(encoding_list(vs).take(k), shapes) == Err::<(Seq<SpecValue>, int), Error>(
            Error::OutOfData,
        ),
    decreases vs, 0int,
{
    if vs.len() == 0 {
        // encoding_list of an empty list is empty, so there is no strict prefix
    } else {
        let tail = vs.subrange(1, vs.len() as int);
        let stail = shapes.subrange(1, shapes.len() as int);
        let e0 = encoding(vs[0]);
        let m0 = e0.len() as int;
        let t = encoding_list(vs).take(k);
        if k < m0 {
            assert(t =~= e0.take(k));
            lemma_truncated_prefix(vs[0], shapes[0], k);
            assert(decoded(t, shapes[0]) == Err::<(SpecValue, int), Error>(Error::OutOfData));
        } else {
            let rest = encoding_list(tail).take(k - m0);
            assert(t =~= e0 + rest);
            lemma_decode_of_encode_prefix(vs[0], shapes[0], rest);
            assert(decoded(t, shapes[0]) == Ok::<(SpecValue, int), Error>((vs[0], m0)));
            assert(t.skip(m0) =~= rest);
            assert(forall|i: int| 0 <= i < tail.len() ==> conforms(#[trigger] tail[i], stail[i]));
            lemma_truncated_fields(tail, stail, k - m0);
            assert(decoded_fields(t.skip(m0), stail) == Err::<(Seq<SpecValue>, int), Error>(
                Error::OutOfData,
            ));
        }
    }
}

/// The truncation law: a strict prefix of a value's wire form fails to
/// decode, with out-of-data, whatever the shape.
pub proof fn lemma_truncated(v: SpecValue, s: Shape, k: int)
    requires
        conforms(v, s),
        0 <= k < encoding(v).len(),
    ensures
        decoded_value(encoding(v).take(k), s) == Err::<SpecValue, Error>(Error::OutOfData),
{
    lemma_truncated_prefix(v, s, k);
}

/// What a decode yields always fits the shape it was asked for: the decoder
/// never hands back a value of another shape, and every length it reads fits
/// an 8-byte prefix.
pub proof fn lemma_decoded_fits(s: Seq<u8>, shape: Shape)
    ensures
        decoded(s, shape) matches Ok((v, n)) ==> conforms(v, shape),
    decreases shape_size(shape), 0nat, 0nat,
{
    match shape {
        Shape::Text => {
            if s.len() >= 8 {
                let n = vstd::bytes::spec_u64_from_le_bytes(s.take(8)) as int;
                if s.len() >= 8 + n {
                    let payload = s.subrange(8, 8 + n);
                    if vstd::utf8::valid_utf8(payload) {
                        vstd::utf8::decode_utf8_encode_utf8(payload);
                    }
                }
            }
        },
        Shape::Optional(inner) => {
            if s.len() >= 1 && s[0] == 1 {
                lemma_decoded_fits(s.skip(1), *inner);
            }
        },
        Shape::Sequence(elem) => {
            if s.len() >= 8 {
                let n = vstd::bytes::spec_u64_from_le_bytes(s.take(8)) as nat;
                lemma_decoded_many_fits(s.skip(8), *elem, n);
            }
        },
        Shape::Mapping(key, val) => {
            if s.len() >= 8 {
                let n = vstd::bytes::spec_u64_from_le_bytes(s.take(8)) as nat;
                lemma_decoded_pairs_fits(s.skip(8), *key, *val, n);
            }
        },
        Shape::Product(fields) => {
            lemma_decoded_fields_fits(s, fields@);
        },
        Shape::Union(variants) => {
            if s.len() >= 4 {
                let idx = vstd::bytes::spec_u32_from_le_bytes(s.take(4));
                if idx < variants@.len() {
                    crate::shape::lemma_variants_size_member(variants@, idx as int);
                    lemma_decoded_fields_fits(s.skip(4), variants@[idx as int]@);
                }
            }
        },
        _ => {},
    }
}

/// Every element that a counted decode yields fits the element shape, and
/// exactly the announced number come back.
pub proof fn lemma_decoded_many_fits(s: Seq<u8>, elem: Shape, n: nat)
    ensures
        decoded_many(s, elem, n) matches Ok((vs, m)) ==> vs.len() == n && forall|i: int|
            0 <= i < vs.len() ==> conforms(#[trigger] vs[i], elem),
    decreases shape_size(elem), n, 1nat,
{
    if n > 0 {
        lemma_decoded_fits(s, elem);
        if let Ok((v, m)) = decoded(s, elem) {
            lemma_decoded_many_fits(s.skip(m), elem, (n - 1) as nat);
        }
    }
}

/// Every pair that a counted decode yields fits the key and value shapes,
/// and exactly the announced number come back.
pub proof fn lemma_decoded_pairs_fits(s: Seq<u8>, key: Shape, val: Shape, n: nat)
    ensures
        decoded_pairs(s, key, val, n) matches Ok((ps, m)) ==> ps.len() == n && forall|i: int|
            0 <= i < ps.len() ==> conforms(#[trigger] ps[i].0, key) && conforms(ps[i].1, val),
    decreases shape_size(key) + shape_size(val), n, 1nat,
{
    crate::shape::lemma_shape_size_pos(key);
    crate::shape::lemma_shape_size_pos(val);
    if n > 0 {
        lemma_decoded_fits(s, key);
        if let Ok((k, m1)) = decoded(s, key) {
            lemma_decoded_fits(s.skip(m1), val);
            if let Ok((v, m2)) = decoded(s.skip(m1), val) {
                lemma_decoded_pairs_fits(s.skip(m1 + m2), key, val, (n - 1) as nat);
                if let Ok((tail, m3)) = decoded_pairs(s.skip(m1 + m2), key, val, (n - 1) as nat) {
                    let all = seq![(k, v)] + tail;
                    assert forall|i: int|
                        0 <= i < all.len() implies conforms(#[trigger] all[i].0, key) && conforms(
                        all[i].1,
                        val,
                    ) by {
                        if i > 0 {
                            assert(all[i] == tail[i - 1]);
                        }
                    }
                }
            }
        }
    }
}

/// Every field that a field-list decode yields fits its declared shape, and
/// one comes back for each declared field.
pub proof fn lemma_decoded_fields_fits(s: Seq<u8>, shapes: Seq<Shape>)
    ensures
        decoded_fields(s, shapes) matches Ok((vs, m)) ==> vs.len() == shapes.len() && forall|
            i: int,
        |
            0 <= i < vs.len() ==> conforms(#[trigger] vs[i], shapes[i]),
    decreases fields_size(shapes), shapes.len(), 1nat,
{
    if shapes.len() > 0 {
        crate::shape::lemma_fields_size_member(shapes, 0);
        crate::shape::lemma_shape_size_pos(shapes[0]);
        lemma_decoded_fits(s, shapes[0]);
        if let Ok((v, m)) = decoded(s, shapes[0]) {
            let stail = shapes.subrange(1, shapes.len() as int);
            lemma_decoded_fields_fits(s.skip(m), stail);
        }
    }
}

} // verus!
