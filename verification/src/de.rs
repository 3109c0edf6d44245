use crate::error::Error;
use crate::read::SliceReader;
use crate::shape::{
    fields_size, lemma_fields_size_member, lemma_variants_size_member, shape_size, Shape,
};
use crate::value::{lemma_pair_views_of, lemma_views_of, pair_views_of, views_of, SpecValue, Value};
use crate::wire::{decoded, decoded_fields, decoded_many, decoded_pairs, decoded_value};
use vstd::prelude::*;
use vstd::slice::slice_to_vec;
use vstd::utf8::{char_u32_cast, encode_utf8, encode_utf8_decode_utf8, is_scalar, valid_utf8};

verus! {

/// Relies on char::from_u32: it returns a character exactly when the given
/// code point is a Unicode scalar value, and that character has the given
/// code point.
pub assume_specification[ char::from_u32 ](i: u32) -> (r: Option<char>)
    ensures
        r is Some <==> is_scalar(i),
        r matches Some(c) ==> c as u32 == i,
;

/// Relies on std::str::from_utf8: it succeeds exactly on valid UTF-8, and
/// the resulting text is a view of the given bytes.
#[verifier::external_body]
fn parse_utf8<'a>(bytes: &'a [u8]) -> (r: Option<&'a str>)
    ensures
        r is Some <==> valid_utf8(bytes@),
        r matches Some(t) ==> encode_utf8(t@) == bytes@,
{
    std::str::from_utf8(bytes).ok()
}

/// Decode one value of the given shape from the reader, advancing the cursor
/// over exactly the bytes the value occupies. The result is what
/// [`decoded`] makes of the remaining input: on success a value that fits the
/// shape, on failure the error of the first read that went wrong, with no
/// partial value surfaced.
#[verifier::loop_isolation(false)]
pub fn decode_value<'a>(reader: &mut SliceReader<'a>, shape: &Shape) -> (r: Result<Value, Error>)
    requires
        old(reader).wf(),
    ensures
        final(reader).wf(),
        final(reader).input() == old(reader).input(),
        final(reader).position() >= old(reader).position(),
        (match decoded(old(reader).remaining(), *shape) {
            Ok((v, n)) => r matches Ok(out) && out@ == v && final(reader).position() == old(
                reader,
            ).position() + n,
            Err(e) => r == Err::<Value, Error>(e),
        }),
    decreases shape_size(*shape), 0nat,
{
    match shape {
        Shape::Bool => match reader.read_bool() {
            Ok(b) => Ok(Value::Bool(b)),
            Err(e) => Err(e),
        },
        Shape::I8 => match reader.read_i8() {
            Ok(x) => Ok(Value::I8(x)),
            Err(e) => Err(e),
        },
        Shape::I16 => match reader.read_i16() {
            Ok(x) => Ok(Value::I16(x)),
            Err(e) => Err(e),
        },
        Shape::I32 => match reader.read_i32() {
            Ok(x) => Ok(Value::I32(x)),
            Err(e) => Err(e),
        },
        Shape::I64 => match reader.read_i64() {
            Ok(x) => Ok(Value::I64(x)),
            Err(e) => Err(e),
        },
        Shape::U8 => match reader.read_u8() {
            Ok(x) => Ok(Value::U8(x)),
            Err(e) => Err(e),
        },
        Shape::U16 => match reader.read_u16() {
            Ok(x) => Ok(Value::U16(x)),
            Err(e) => Err(e),
        },
        Shape::U32 => match reader.read_u32() {
            Ok(x) => Ok(Value::U32(x)),
            Err(e) => Err(e),
        },
        Shape::U64 => match reader.read_u64() {
            Ok(x) => Ok(Value::U64(x)),
            Err(e) => Err(e),
        },
        Shape::F32 => match reader.read_f32() {
            Ok(bits) => Ok(Value::F32(bits)),
            Err(e) => Err(e),
        },
        Shape::F64 => match reader.read_f64() {
            Ok(bits) => Ok(Value::F64(bits)),
            Err(e) => Err(e),
        },
        Shape::Char => decode_char(reader),
        Shape::Text => decode_text(reader),
        Shape::Bytes => decode_bytes(reader),
        Shape::Optional(inner) => decode_optional(reader, inner),
        Shape::Sequence(elem) => decode_sequence(reader, elem),
        Shape::Mapping(key, val) => decode_mapping(reader, key, val),
        Shape::Product(fields) => match decode_fields(reader, fields) {
            Ok(out) => Ok(Value::Product(out)),
            Err(e) => Err(e),
        },
        Shape::Union(variants) => decode_union(reader, variants),
        Shape::Unit => Ok(Value::Unit),
    }
}

/// Read a Unicode scalar from its 4-byte code point; a code point that is
/// no Unicode scalar value is an invalid scalar.
pub fn read_char<'a>(reader: &mut SliceReader<'a>) -> (r: Result<char, Error>)
    requires
        old(reader).wf(),
    ensures
        final(reader).wf(),
        final(reader).input() == old(reader).input(),
        final(reader).position() >= old(reader).position(),
        (match decoded(old(reader).remaining(), Shape::Char) {
            Ok((v, n)) => r matches Ok(c) && v == SpecValue::Char(c) && final(reader).position()
                == old(reader).position() + n,
            Err(e) => r == Err::<char, Error>(e),
        }),
{
    match reader.read_u32() {
        Ok(u) => match char::from_u32(u) {
            Option::Some(c) => {
                proof {
                    char_u32_cast(c, u);
                }
                Ok(c)
            },
            Option::None => Err(Error::InvalidScalar),
        },
        Err(e) => Err(e),
    }
}

/// Decode a Unicode scalar into a value.
fn decode_char<'a>(reader: &mut SliceReader<'a>) -> (r: Result<Value, Error>)
    requires
        old(reader).wf(),
    ensures
        final(reader).wf(),
        final(reader).input() == old(reader).input(),
        final(reader).position() >= old(reader).position(),
        (match decoded(old(reader).remaining(), Shape::Char) {
            Ok((v, n)) => r matches Ok(out) && out@ == v && final(reader).position() == old(
                reader,
            ).position() + n,
            Err(e) => r == Err::<Value, Error>(e),
        }),
{
    match read_char(reader) {
        Ok(c) => Ok(Value::Char(c)),
        Err(e) => Err(e),
    }
}

/// Read a text payload: an 8-byte length, then that many bytes, which must
/// be valid UTF-8. The text is a view borrowed from the input, not a copy.
pub fn read_str<'a>(reader: &mut SliceReader<'a>) -> (r: Result<&'a str, Error>)
    requires
        old(reader).wf(),
    ensures
        final(reader).wf(),
        final(reader).input() == old(reader).input(),
        final(reader).position() >= old(reader).position(),
        (match decoded(old(reader).remaining(), Shape::Text) {
            Ok((v, n)) => r matches Ok(t) && v == SpecValue::Text(t@) && final(reader).position()
                == old(reader).position() + n,
            Err(e) => r == Err::<&'a str, Error>(e),
        }),
{
    let len64 = match reader.read_u64() {
        Ok(x) => x,
        Err(e) => {
            return Err(e);
        },
    };
    let rem = reader.remaining_len();
    if (rem as u64) < len64 {
        return Err(Error::OutOfData);
    }
    let bytes = match reader.read_bytes(len64 as usize) {
        Ok(b) => b,
        Err(e) => {
            return Err(e);
        },
    };
    proof {
        assert(bytes@ =~= old(reader).remaining().subrange(8, 8 + len64 as int));
    }
    match parse_utf8(bytes) {
        Option::Some(t) => {
            proof {
                encode_utf8_decode_utf8(t@);
            }
            Ok(t)
        },
        Option::None => Err(Error::InvalidText),
    }
}

/// Decode a text payload into an owned value.
fn decode_text<'a>(reader: &mut SliceReader<'a>) -> (r: Result<Value, Error>)
    requires
        old(reader).wf(),
    ensures
        final(reader).wf(),
        final(reader).input() == old(reader).input(),
        final(reader).position() >= old(reader).position(),
        (match decoded(old(reader).remaining(), Shape::Text) {
            Ok((v, n)) => r matches Ok(out) && out@ == v && final(reader).position() == old(
                reader,
            ).position() + n,
            Err(e) => r == Err::<Value, Error>(e),
        }),
{
    match read_str(reader) {
        Ok(t) => Ok(Value::Text(t.to_owned())),
        Err(e) => Err(e),
    }
}

/// Read a raw byte run: an 8-byte length, then that many bytes, borrowed
/// from the input rather than copied.
pub fn read_byte_run<'a>(reader: &mut SliceReader<'a>) -> (r: Result<&'a [u8], Error>)
    requires
        old(reader).wf(),
    ensures
        final(reader).wf(),
        final(reader).input() == old(reader).input(),
        final(reader).position() >= old(reader).position(),
        (match decoded(old(reader).remaining(), Shape::Bytes) {
            Ok((v, n)) => r matches Ok(b) && v == SpecValue::Bytes(b@) && final(reader).position()
                == old(reader).position() + n,
            Err(e) => r == Err::<&'a [u8], Error>(e),
        }),
{
    let len64 = match reader.read_u64() {
        Ok(x) => x,
        Err(e) => {
            return Err(e);
        },
    };
    let rem = reader.remaining_len();
    if (rem as u64) < len64 {
        return Err(Error::OutOfData);
    }
    let bytes = match reader.read_bytes(len64 as usize) {
        Ok(b) => b,
        Err(e) => {
            return Err(e);
        },
    };
    proof {
        assert(bytes@ =~= old(reader).remaining().subrange(8, 8 + len64 as int));
    }
    Ok(bytes)
}

/// Decode a raw byte run into an owned value.
fn decode_bytes<'a>(reader: &mut SliceReader<'a>) -> (r: Result<Value, Error>)
    requires
        old(reader).wf(),
    ensures
        final(reader).wf(),
        final(reader).input() == old(reader).input(),
        final(reader).position() >= old(reader).position(),
        (match decoded(old(reader).remaining(), Shape::Bytes) {
            Ok((v, n)) => r matches Ok(out) && out@ == v && final(reader).position() == old(
                reader,
            ).position() + n,
            Err(e) => r == Err::<Value, Error>(e),
        }),
{
    match read_byte_run(reader) {
        Ok(b) => Ok(Value::Bytes(slice_to_vec(b))),
        Err(e) => Err(e),
    }
}

/// Decode an optional value: a 1-byte flag, then the payload when present.
/// As with a plain boolean, a flag byte other than 0 or 1 is rejected.
fn decode_optional<'a>(reader: &mut SliceReader<'a>, inner: &Shape) -> (r: Result<Value, Error>)
    requires
        old(reader).wf(),
    ensures
        final(reader).wf(),
        final(reader).input() == old(reader).input(),
        final(reader).position() >= old(reader).position(),
        (match decoded(old(reader).remaining(), Shape::Optional(Box::new(*inner))) {
            Ok((v, n)) => r matches Ok(out) && out@ == v && final(reader).position() == old(
                reader,
            ).position() + n,
            Err(e) => r == Err::<Value, Error>(e),
        }),
    decreases shape_size(*inner), 2nat,
{
    match reader.read_bool() {
        Ok(false) => Ok(Value::Optional(Option::None)),
        Ok(true) => {
            proof {
                assert(reader.remaining() =~= old(reader).remaining().skip(1));
            }
            match decode_value(reader, inner) {
                Ok(v) => Ok(Value::Optional(Option::Some(Box::new(v)))),
                Err(e) => Err(e),
            }
        },
        Err(e) => Err(e),
    }
}

/// Decode a sequence: an 8-byte count, then that many elements.
fn decode_sequence<'a>(reader: &mut SliceReader<'a>, elem: &Shape) -> (r: Result<Value, Error>)
    requires
        old(reader).wf(),
    ensures
        final(reader).wf(),
        final(reader).input() == old(reader).input(),
        final(reader).position() >= old(reader).position(),
        (match decoded(old(reader).remaining(), Shape::Sequence(Box::new(*elem))) {
            Ok((v, n)) => r matches Ok(out) && out@ == v && final(reader).position() == old(
                reader,
            ).position() + n,
            Err(e) => r == Err::<Value, Error>(e),
        }),
    decreases shape_size(*elem), 2nat,
{
    let n = match reader.read_u64() {
        Ok(x) => x,
        Err(e) => {
            return Err(e);
        },
    };
    proof {
        assert(reader.remaining() =~= old(reader).remaining().skip(8));
    }
    match decode_many(reader, elem, n) {
        Ok(out) => Ok(Value::Sequence(out)),
        Err(e) => Err(e),
    }
}

/// Decode a mapping: an 8-byte pair count, then interleaved keys and values.
fn decode_mapping<'a>(reader: &mut SliceReader<'a>, key: &Shape, val: &Shape) -> (r: Result<
    Value,
    Error,
>)
    requires
        old(reader).wf(),
    ensures
        final(reader).wf(),
        final(reader).input() == old(reader).input(),
        final(reader).position() >= old(reader).position(),
        (match decoded(old(reader).remaining(), Shape::Mapping(Box::new(*key), Box::new(*val))) {
            Ok((v, n)) => r matches Ok(out) && out@ == v && final(reader).position() == old(
                reader,
            ).position() + n,
            Err(e) => r == Err::<Value, Error>(e),
        }),
    decreases shape_size(*key) + shape_size(*val), 2nat,
{
    let n = match reader.read_u64() {
        Ok(x) => x,
        Err(e) => {
            return Err(e);
        },
    };
    proof {
        assert(reader.remaining() =~= old(reader).remaining().skip(8));
    }
    match decode_pairs(reader, key, val, n) {
        Ok(out) => Ok(Value::Mapping(out)),
        Err(e) => Err(e),
    }
}

/// Decode one case of a tagged union: a 4-byte variant index, then the
/// fields of that variant. An index with no matching variant is rejected.
fn decode_union<'a>(reader: &mut SliceReader<'a>, variants: &Vec<Vec<Shape>>) -> (r: Result<
    Value,
    Error,
>)
    requires
        old(reader).wf(),
    ensures
        final(reader).wf(),
        final(reader).input() == old(reader).input(),
        final(reader).position() >= old(reader).position(),
        (match decoded(old(reader).remaining(), Shape::Union(*variants)) {
            Ok((v, n)) => r matches Ok(out) && out@ == v && final(reader).position() == old(
                reader,
            ).position() + n,
            Err(e) => r == Err::<Value, Error>(e),
        }),
    decreases crate::shape::variants_size(variants@), 2nat,
{
    let idx = match reader.read_u32() {
        Ok(x) => x,
        Err(e) => {
            return Err(e);
        },
    };
    if (idx as usize) >= variants.len() {
        return Err(Error::InvalidScalar);
    }
    proof {
        lemma_variants_size_member(variants@, idx as int);
        assert(reader.remaining() =~= old(reader).remaining().skip(4));
    }
    match decode_fields(reader, &variants[idx as usize]) {
        Ok(out) => Ok(Value::Variant(idx, out)),
        Err(e) => Err(e),
    }
}

/// Decode the announced number of elements of one shape, back to back.
#[verifier::loop_isolation(false)]
fn decode_many<'a>(reader: &mut SliceReader<'a>, elem: &Shape, n: u64) -> (r: Result<
    Vec<Value>,
    Error,
>)
    requires
        old(reader).wf(),
    ensures
        final(reader).wf(),
        final(reader).input() == old(reader).input(),
        final(reader).position() >= old(reader).position(),
        (match decoded_many(old(reader).remaining(), *elem, n as nat) {
            Ok((vs, m)) => r matches Ok(out) && views_of(out@) == vs && final(reader).position()
                == old(reader).position() + m,
            Err(e) => r == Err::<Vec<Value>, Error>(e),
        }),
    decreases shape_size(*elem), 1nat,
{
    let ghost rem0 = old(reader).remaining();
    let ghost pos0 = old(reader).position();
    let mut out: Vec<Value> = Vec::new();
    let mut i: u64 = 0;
    proof {
        assert(views_of(out@) =~= Seq::<crate::value::SpecValue>::empty());
    }
    while i < n
        invariant
            reader.wf(),
            reader.input() == old(reader).input(),
            pos0 <= reader.position() <= reader.input().len(),
            i <= n,
            out@.len() == i as int,
            (match decoded_many(reader.remaining(), *elem, (n - i) as nat) {
                Ok((vs, m)) => decoded_many(rem0, *elem, n as nat) == Ok::<
                    (Seq<crate::value::SpecValue>, int),
                    Error,
                >((views_of(out@) + vs, reader.position() - pos0 + m)),
                Err(e) => decoded_many(rem0, *elem, n as nat) == Err::<
                    (Seq<crate::value::SpecValue>, int),
                    Error,
                >(e),
            }),
        decreases n - i,
    {
        let ghost rem_before = reader.remaining();
        let ghost pos_before = reader.position();
        let ghost out_before = out@;
        match decode_value(reader, elem) {
            Ok(v) => {
                proof {
                    let n_used = reader.position() - pos_before;
                    assert(reader.remaining() =~= rem_before.skip(n_used));
                }
                out.push(v);
                proof {
                    lemma_views_of(out@);
                    lemma_views_of(out_before);
                    assert(views_of(out@) =~= views_of(out_before) + seq![v@]);
                    assert forall|vs: Seq<crate::value::SpecValue>|
                        true implies (views_of(out_before) + seq![v@]) + vs =~= views_of(
                        out_before,
                    ) + (seq![v@] + vs) by {}
                }
                i = i + 1;
            },
            Err(e) => {
                return Err(e);
            },
        }
    }
    proof {
        assert(decoded_many(reader.remaining(), *elem, 0nat) == Ok::<
            (Seq<crate::value::SpecValue>, int),
            Error,
        >((Seq::empty(), 0)));
        assert(views_of(out@) + Seq::<crate::value::SpecValue>::empty() =~= views_of(out@));
    }
    Ok(out)
}

/// Decode the announced number of key/value pairs, back to back.
#[verifier::loop_isolation(false)]
fn decode_pairs<'a>(reader: &mut SliceReader<'a>, key: &Shape, val: &Shape, n: u64) -> (r: Result<
    Vec<(Value, Value)>,
    Error,
>)
    requires
        old(reader).wf(),
    ensures
        final(reader).wf(),
        final(reader).input() == old(reader).input(),
        final(reader).position() >= old(reader).position(),
        (match decoded_pairs(old(reader).remaining(), *key, *val, n as nat) {
            Ok((ps, m)) => r matches Ok(out) && pair_views_of(out@) == ps
                && final(reader).position() == old(reader).position() + m,
            Err(e) => r == Err::<Vec<(Value, Value)>, Error>(e),
        }),
    decreases shape_size(*key) + shape_size(*val), 1nat,
{
    let ghost rem0 = old(reader).remaining();
    let ghost pos0 = old(reader).position();
    let mut out: Vec<(Value, Value)> = Vec::new();
    let mut i: u64 = 0;
    proof {
        assert(pair_views_of(out@) =~= Seq::<
            (crate::value::SpecValue, crate::value::SpecValue),
        >::empty());
    }
    while i < n
        invariant
            reader.wf(),
            reader.input() == old(reader).input(),
            pos0 <= reader.position() <= reader.input().len(),
            i <= n,
            out@.len() == i as int,
            (match decoded_pairs(reader.remaining(), *key, *val, (n - i) as nat) {
                Ok((ps, m)) => decoded_pairs(rem0, *key, *val, n as nat) == Ok::<
                    (Seq<(crate::value::SpecValue, crate::value::SpecValue)>, int),
                    Error,
                >((pair_views_of(out@) + ps, reader.position() - pos0 + m)),
                Err(e) => decoded_pairs(rem0, *key, *val, n as nat) == Err::<
                    (Seq<(crate::value::SpecValue, crate::value::SpecValue)>, int),
                    Error,
                >(e),
            }),
        decreases n - i,
    {
        let ghost rem_before = reader.remaining();
        let ghost pos_before = reader.position();
        let ghost out_before = out@;
        let k = match decode_value(reader, key) {
            Ok(k) => k,
            Err(e) => {
                return Err(e);
            },
        };
        proof {
            assert(reader.remaining() =~= rem_before.skip(reader.position() - pos_before));
        }
        let ghost rem_mid = reader.remaining();
        let ghost pos_mid = reader.position();
        let v = match decode_value(reader, val) {
            Ok(v) => v,
            Err(e) => {
                return Err(e);
            },
        };
        proof {
            assert(reader.remaining() =~= rem_mid.skip(reader.position() - pos_mid));
            assert(reader.remaining() =~= rem_before.skip(reader.position() - pos_before));
        }
        out.push((k, v));
        proof {
            lemma_pair_views_of(out@);
            lemma_pair_views_of(out_before);
            assert(pair_views_of(out@) =~= pair_views_of(out_before) + seq![(k@, v@)]);
            assert forall|ps: Seq<(crate::value::SpecValue, crate::value::SpecValue)>|
                true implies (pair_views_of(out_before) + seq![(k@, v@)]) + ps =~= pair_views_of(
                out_before,
            ) + (seq![(k@, v@)] + ps) by {}
        }
        i = i + 1;
    }
    proof {
        assert(decoded_pairs(reader.remaining(), *key, *val, 0nat) == Ok::<
            (Seq<(crate::value::SpecValue, crate::value::SpecValue)>, int),
            Error,
        >((Seq::empty(), 0)));
        assert(pair_views_of(out@) + Seq::<
            (crate::value::SpecValue, crate::value::SpecValue),
        >::empty() =~= pair_views_of(out@));
    }
    Ok(out)
}

/// Decode a fixed list of field shapes, in declaration order.
#[verifier::loop_isolation(false)]
fn decode_fields<'a>(reader: &mut SliceReader<'a>, shapes: &Vec<Shape>) -> (r: Result<
    Vec<Value>,
    Error,
>)
    requires
        old(reader).wf(),
    ensures
        final(reader).wf(),
        final(reader).input() == old(reader).input(),
        final(reader).position() >= old(reader).position(),
        (match decoded_fields(old(reader).remaining(), shapes@) {
            Ok((vs, m)) => r matches Ok(out) && views_of(out@) == vs && final(reader).position()
                == old(reader).position() + m,
            Err(e) => r == Err::<Vec<Value>, Error>(e),
        }),
    decreases fields_size(shapes@), 1nat,
{
    let ghost rem0 = old(reader).remaining();
    let ghost pos0 = old(reader).position();
    let mut out: Vec<Value> = Vec::new();
    let mut i: usize = 0;
    proof {
        assert(views_of(out@) =~= Seq::<crate::value::SpecValue>::empty());
        assert(shapes@.skip(0) =~= shapes@);
    }
    while i < shapes.len()
        invariant
            reader.wf(),
            reader.input() == old(reader).input(),
            pos0 <= reader.position() <= reader.input().len(),
            i <= shapes@.len(),
            out@.len() == i as int,
            (match decoded_fields(reader.remaining(), shapes@.skip(i as int)) {
                Ok((vs, m)) => decoded_fields(rem0, shapes@) == Ok::<
                    (Seq<crate::value::SpecValue>, int),
                    Error,
                >((views_of(out@) + vs, reader.position() - pos0 + m)),
                Err(e) => decoded_fields(rem0, shapes@) == Err::<
                    (Seq<crate::value::SpecValue>, int),
                    Error,
                >(e),
            }),
        decreases shapes@.len() - i,
    {
        let ghost rem_before = reader.remaining();
        let ghost pos_before = reader.position();
        let ghost out_before = out@;
        proof {
            lemma_fields_size_member(shapes@, i as int);
            assert(shapes@.skip(i as int)[0] == shapes@[i as int]);
        }
        match decode_value(reader, &shapes[i]) {
            Ok(v) => {
                proof {
                    assert(reader.remaining() =~= rem_before.skip(
                        reader.position() - pos_before,
                    ));
                    assert(shapes@.skip(i as int).subrange(
                        1,
                        shapes@.skip(i as int).len() as int,
                    ) =~= shapes@.skip(i as int + 1));
                }
                out.push(v);
                proof {
                    lemma_views_of(out@);
                    lemma_views_of(out_before);
                    assert(views_of(out@) =~= views_of(out_before) + seq![v@]);
                    assert forall|vs: Seq<crate::value::SpecValue>|
                        true implies (views_of(out_before) + seq![v@]) + vs =~= views_of(
                        out_before,
                    ) + (seq![v@] + vs) by {}
                }
                i = i + 1;
            },
            Err(e) => {
                return Err(e);
            },
        }
    }
    proof {
        assert(shapes@.skip(shapes@.len() as int) =~= Seq::<Shape>::empty());
        assert(decoded_fields(reader.remaining(), Seq::<Shape>::empty()) == Ok::<
            (Seq<crate::value::SpecValue>, int),
            Error,
        >((Seq::empty(), 0)));
        assert(views_of(out@) + Seq::<crate::value::SpecValue>::empty() =~= views_of(out@));
    }
    Ok(out)
}

/// Decode a value of the given shape from the start of the given buffer.
/// The result is exactly what [`decoded_value`] makes of the bytes; trailing
/// bytes beyond the value's wire form are ignored.
pub fn from_bytes<'a>(bytes: &'a [u8], shape: &Shape) -> (r: Result<Value, Error>)
    ensures
        (match decoded_value(bytes@, *shape) {
            Ok(v) => r matches Ok(out) && out@ == v,
            Err(e) => r == Err::<Value, Error>(e),
        }),
{
    let mut reader = SliceReader::new(bytes);
    proof {
        assert(reader.remaining() =~= bytes@);
    }
    decode_value(&mut reader, shape)
}

} // verus!
