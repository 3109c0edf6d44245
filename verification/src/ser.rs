use crate::error::Error;
use crate::value::{
    lemma_pair_views_of, lemma_pairs_size_member, lemma_values_size_member, lemma_views_of,
    pair_views_of, value_size, views_of, Value,
};
use crate::wire::{encoding, encoding_list, encoding_pairs, lemma_encoding_list_step,
    lemma_encoding_pairs_step};
use crate::write::VecWriter;
use vstd::prelude::*;

verus! {

/// Encode a value into a writer, appending exactly the value's wire form.
/// An in-memory sink cannot fail, so the call always succeeds; the result
/// accommodates callers that treat encoding uniformly with I/O.
#[verifier::loop_isolation(false)]
pub fn to_writer(writer: &mut VecWriter, value: &Value) -> (r: Result<(), Error>)
    ensures
        r is Ok,
        final(writer)@ == old(writer)@ + encoding(value@),
    decreases value_size(*value),
{
    match value {
        Value::Bool(b) => writer.write_bool(*b),
        Value::I8(x) => writer.write_i8(*x),
        Value::I16(x) => writer.write_i16(*x),
        Value::I32(x) => writer.write_i32(*x),
        Value::I64(x) => writer.write_i64(*x),
        Value::U8(x) => writer.write_u8(*x),
        Value::U16(x) => writer.write_u16(*x),
        Value::U32(x) => writer.write_u32(*x),
        Value::U64(x) => writer.write_u64(*x),
        Value::F32(bits) => writer.write_f32(*bits),
        Value::F64(bits) => writer.write_f64(*bits),
        Value::Char(c) => writer.write_u32(*c as u32),
        Value::Text(s) => {
            let bytes = s.as_str().as_bytes();
            writer.write_u64(bytes.len() as u64)?;
            writer.write_bytes(bytes)
        },
        Value::Bytes(b) => {
            writer.write_u64(b.len() as u64)?;
            writer.write_bytes(b.as_slice())
        },
        Value::Optional(o) => match o {
            Option::None => writer.write_u8(0),
            Option::Some(payload) => {
                writer.write_u8(1)?;
                to_writer(writer, payload)
            },
        },
        Value::Sequence(vs) => {
            writer.write_u64(vs.len() as u64)?;
            proof {
                lemma_views_of(vs@);
            }
            let ghost head = writer@;
            let mut i: usize = 0;
            while i < vs.len()
                invariant
                    i <= vs.len(),
                    writer@ == head + encoding_list(views_of(vs@).take(i as int)),
                decreases vs.len() - i,
            {
                proof {
                    lemma_values_size_member(vs@, i as int);
                }
                to_writer(writer, &vs[i])?;
                proof {
                    lemma_encoding_list_step(views_of(vs@), i as int);
                }
                i = i + 1;
            }
            proof {
                assert(views_of(vs@).take(vs@.len() as int) =~= views_of(vs@));
            }
            Ok(())
        },
        Value::Mapping(ps) => {
            writer.write_u64(ps.len() as u64)?;
            proof {
                lemma_pair_views_of(ps@);
            }
            let ghost head = writer@;
            let mut i: usize = 0;
            while i < ps.len()
                invariant
                    i <= ps.len(),
                    writer@ == head + encoding_pairs(pair_views_of(ps@).take(i as int)),
                decreases ps.len() - i,
            {
                proof {
                    lemma_pairs_size_member(ps@, i as int);
                }
                let pair = &ps[i];
                to_writer(writer, &pair.0)?;
                to_writer(writer, &pair.1)?;
                proof {
                    lemma_encoding_pairs_step(pair_views_of(ps@), i as int);
                }
                i = i + 1;
            }
            proof {
                assert(pair_views_of(ps@).take(ps@.len() as int) =~= pair_views_of(ps@));
            }
            Ok(())
        },
        Value::Product(vs) => {
            proof {
                lemma_views_of(vs@);
            }
            let ghost head = writer@;
            let mut i: usize = 0;
            while i < vs.len()
                invariant
                    i <= vs.len(),
                    writer@ == head + encoding_list(views_of(vs@).take(i as int)),
                decreases vs.len() - i,
            {
                proof {
                    lemma_values_size_member(vs@, i as int);
                }
                to_writer(writer, &vs[i])?;
                proof {
                    lemma_encoding_list_step(views_of(vs@), i as int);
                }
                i = i + 1;
            }
            proof {
                assert(views_of(vs@).take(vs@.len() as int) =~= views_of(vs@));
            }
            Ok(())
        },
        Value::Variant(idx, vs) => {
            writer.write_u32(*idx)?;
            proof {
                lemma_views_of(vs@);
            }
            let ghost head = writer@;
            let mut i: usize = 0;
            while i < vs.len()
                invariant
                    i <= vs.len(),
                    writer@ == head + encoding_list(views_of(vs@).take(i as int)),
                decreases vs.len() - i,
            {
                proof {
                    lemma_values_size_member(vs@, i as int);
                }
                to_writer(writer, &vs[i])?;
                proof {
                    lemma_encoding_list_step(views_of(vs@), i as int);
                }
                i = i + 1;
            }
            proof {
                assert(views_of(vs@).take(vs@.len() as int) =~= views_of(vs@));
            }
            Ok(())
        },
        Value::Unit => Ok(()),
    }
}

/// Encode a value into a fresh byte buffer: exactly the value's wire form.
/// Encoding an in-memory value always succeeds.
pub fn to_bytes(value: &Value) -> (r: Result<Vec<u8>, Error>)
    ensures
        r matches Ok(out) && out@ == encoding(value@),
{
    let mut writer = VecWriter::new();
    to_writer(&mut writer, value)?;
    Ok(writer.into_vec())
}

} // verus!
