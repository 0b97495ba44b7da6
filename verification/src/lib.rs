//! Field queries over a line-oriented package description.
//!
//! A description is a text buffer made of blocks. Each block opens with a
//! delimiter line such as `%NAME%`, goes on with the lines of the field's
//! value, and ends at a blank line, at the next delimiter line or at the end
//! of the buffer. The queriers of [`query`] hand out the raw text of a field
//! as a slice of the buffer; [`value::hex`] decodes hexadecimal text such as
//! a checksum into fixed-width integers.
//!
//! All contracts speak of a buffer through its bytes, the UTF-8 encoding of
//! the text (`spec_bytes`), and of lines through their numbers, counted
//! from 0.

pub mod field;
pub mod lines;
pub mod query;
pub mod value;
