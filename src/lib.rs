//! Encoding and decoding of a Protocol-Buffer-style wire format over
//! in-memory buffers: varints, zigzag-coded signed values, tagged fields,
//! length-delimited payloads, big-endian fixed-width fields and packed
//! repeated integers, each writer mirrored by a size calculator.
pub mod error;
pub mod fixed;
pub mod packed;
pub mod tag;
pub mod tag_stream;
pub mod varint;
pub mod zigzag;

pub use crate::error::DecodeError;
pub use crate::fixed::{read_uint32, read_uint64, write_uint32};
pub use crate::packed::{
    DeltaPackedInt, PackedInt, pack_delta_int, pack_delta_int_ref, pack_int, pack_int_ref,
    packed_delta_int_length, packed_delta_int_ref_length, packed_int_length, packed_int_ref_length,
    read_delta_packed_int, read_packed_int, write_packed_delta_data,
};
pub use crate::tag::{PbfTag, data_length, pack_data, pack_value, read_data, read_tag, value_length};
pub use crate::tag_stream::IterTags;
pub use crate::varint::{read_varint, varint_length, write_varint};
pub use crate::zigzag::{un_zig_zag, zig_zag};
