//! Decoding the raw text of a field.

pub mod hex;
