//! Queries for the raw text of a field.
//!
//! [`forgetful::ForgetfulQuerier`] scans the buffer from its first line at
//! every query. [`memo::MemoQuerier`] scans the buffer once: it remembers
//! every answer and where its last scan stopped, and so answers as the other
//! does only while fields are asked for in the order of their blocks.

pub mod common;
pub mod forgetful;
pub mod memo;
