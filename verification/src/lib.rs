//! A binary encode/decode engine: structured values are converted to and from
//! a flat little-endian byte layout. The expected shape of a value is supplied
//! by the caller; the wire format is not self-describing.

mod de;
mod error;
mod laws;
mod read;
mod ser;
mod shape;
mod value;
mod wire;
mod write;

pub use de::{decode_value, from_bytes, read_byte_run, read_char, read_str};
pub use error::Error;
pub use laws::{
    lemma_decode_of_encode_fields, lemma_decode_of_encode_list, lemma_decode_of_encode_pairs,
    lemma_decode_of_encode_prefix, lemma_round_trip, lemma_truncated, lemma_truncated_fields,
    lemma_decoded_fields_fits, lemma_decoded_fits, lemma_decoded_many_fits, lemma_decoded_pairs_fits,
    lemma_truncated_list, lemma_truncated_pairs, lemma_truncated_prefix,
};
pub use read::SliceReader;
pub use ser::{to_bytes, to_writer};
pub use shape::{fields_size, shape_size, variants_size, Shape};
pub use value::{
    conforms, pair_views_of, pairs_size, value_size, value_view, values_size, views_of, SpecValue,
    Value,
};
pub use wire::{
    bool_byte, decoded, decoded_fields, decoded_many, decoded_pairs, decoded_value, encoding,
    encoding_list, encoding_pairs,
};
pub use write::VecWriter;
