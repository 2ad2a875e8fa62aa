//! Variable-length integer encoding.
//!
//! An integer is written as seven-bit groups, least significant group first,
//! one group per byte. Bit 7 of a byte is set when another byte follows and
//! clear on the last byte.
pub mod codec;
pub mod model;
pub mod primitive;

pub use codec::{decode_u128, encode_u128, DecodeError};
pub use primitive::VLInt;
