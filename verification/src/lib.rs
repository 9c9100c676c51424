//! Checks a bit-to-field-element encoding scheme for collisions.
//!
//! An integer of a fixed bit width is encoded as the sum of the powers of a
//! primitive root of unity picked out by its set bits, and "rotating" the
//! integer is modelled in the encoded domain by multiplying with a further
//! power of the root.  This crate searches the whole value space for two
//! (value, shift) pairs whose shifted encodings coincide although the pairs
//! are not related by the corresponding bit rotation; any such collision
//! invalidates the scheme.

pub mod bits;
pub mod checks;
pub mod encoding;
pub mod field;
pub mod index;
pub mod table;
