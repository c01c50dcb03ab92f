//! Memory-safe decoder for OpenZL frames.

pub mod accept_laws;
pub mod agreement;
pub mod append;
pub mod bit_laws;
pub mod bits;
pub mod bitsplit;
pub mod bytes;
pub mod codec_laws;
pub mod codecs;
pub mod concat;
pub mod conversions;
pub mod csv;
pub mod decode_plan;
pub mod decoder;
pub mod deprecated_lz;
pub mod dict;
pub mod dict_layout;
pub mod direct_append;
pub mod dispatch;
pub mod dispatch_order;
pub mod dispatch_strings;
pub mod error;
pub mod execute;
pub mod fastlz;
pub mod fastlz_factors;
pub mod field_lz;
pub mod field_lz_factors;
pub mod flatpack;
pub mod frame_layout;
pub mod frame_plan;
pub mod fse;
pub mod fse_laws;
pub mod graph;
pub mod huffman;
pub mod huffman_codes;
pub mod integer_laws;
pub mod left_laws;
pub mod limits;
pub mod lz;
pub mod lz_factors;
pub mod mux_lengths;
pub mod nodes;
pub mod numeric;
pub mod output;
pub mod packing_accepts;
pub mod parse;
pub mod parse_int;
pub mod partition;
pub mod partition_laws;
pub mod report_laws;
pub mod reverse_bits;
pub mod pipeline_laws;
pub mod pivco_blocks;
pub mod pivco_codes;
pub mod pivco_huffman;
pub mod pivco_order;
pub mod rolz;
pub mod rolz_factors;
pub mod rolz_sequences;
pub mod rolz_table;
pub mod rolz_values;
pub mod scratch;
pub mod sentinel;
pub mod slots;
pub mod sparse_num;
pub mod split_struct;
pub mod splitn;
pub mod standard;
pub mod stream;
pub mod stream_laws;
pub mod strings;
pub mod text;
pub mod tokenize;
pub mod transform_numbers;
pub mod transpose;

pub use decoder::{
    decode, decode_into, decode_into_with_options, decode_with_options, inspect,
    inspect_with_options, Decoder, Options, DEFAULT_PLAN_CACHE_MAX_FRAME_BYTES,
};
pub use error::{Error, ErrorKind};
pub use frame_plan::{FrameInfo, FrameValueType};
pub use limits::Limits;
