//! Variable-length integers, seven bits to the byte, and their use on
//! sequences: plain, or as differences between neighbours.
//!
//! An unsigned integer is written least significant group first. Each byte
//! carries seven bits of the value in its low bits; its top bit says whether
//! another byte follows. Integers of 16, 32, 64 and 128 bits are supported;
//! the bytes carry no tag for the width, so reader and writer have to agree
//! on it. There are no functions for `u8`: a byte is already one byte, and
//! the values from 128 to 255 would take two.
//!
//! The module `format` states the byte format as mathematics. Every
//! executable function is specified against it, and `laws` proves what the
//! format promises: that decoding undoes encoding, that encodings are as
//! short as can be, and that a cut-off encoding is refused.

mod bits;
pub mod bulk;
pub mod delta;
pub mod error;
pub mod format;
pub mod laws;
pub mod unsigned;
pub mod varint;

pub use crate::bulk::{
    decode_slice,
    decode_u128_slice,
    decode_u16_slice,
    decode_u32_slice,
    decode_u64_slice,
    encode_slice,
    encode_u128_slice,
    encode_u16_slice,
    encode_u32_slice,
    encode_u64_slice,
};
pub use crate::delta::{
    contains,
    contains_u128,
    contains_u16,
    contains_u32,
    contains_u64,
    delta_decode_slice,
    delta_decode_u128_slice,
    delta_decode_u16_slice,
    delta_decode_u32_slice,
    delta_decode_u64_slice,
    delta_encode_slice,
    delta_encode_u128_slice,
    delta_encode_u16_slice,
    delta_encode_u32_slice,
    delta_encode_u64_slice,
};
pub use crate::error::{written, Error};
pub use crate::unsigned::Unsigned;
pub use crate::varint::{
    decode,
    decode_u128,
    decode_u16,
    decode_u32,
    decode_u64,
    encode,
    encode_u128,
    encode_u16,
    encode_u32,
    encode_u64,
};
