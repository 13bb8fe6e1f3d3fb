//! A variable-length encoding for unsigned integers below 2^62.
//!
//! A value is written on 1, 2, 4, or 8 bytes, big-endian; the two most
//! significant bits of the first byte tag the length, and the remaining
//! bits hold the value.

pub mod varint;
pub mod wire;

pub use varint::VarInt;
pub use varint::VarIntError;
