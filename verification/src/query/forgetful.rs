//! The querier that keeps nothing between queries.

use crate::field::FieldName;
use crate::lines::LineScanner;
use crate::query::common::{locate, query_raw_text_from, raw};
use vstd::prelude::*;
use vstd::string::*;

verus! {

/// The answer that a scan of the whole buffer gives for `field`.
pub open spec fn scan_from_start(bytes: Seq<u8>, field: FieldName) -> Option<Seq<u8>> {
    locate(bytes, 0, field).value
}

/// Querier that scans the buffer from its first line at every query. Its
/// answers do not depend on the queries made before.
#[derive(Debug, Clone, Copy)]
pub struct ForgetfulQuerier<'a> {
    text: &'a str,
}

impl<'a> ForgetfulQuerier<'a> {
    /// The buffer that the querier reads.
    pub closed spec fn text(&self) -> &'a str {
        self.text
    }

    /// Query the `text` without a cache.
    pub fn new(text: &'a str) -> (querier: Self)
        ensures
            querier.text() == text,
    {
        ForgetfulQuerier { text }
    }

    /// The raw value of `field`: that of the first block of the buffer whose
    /// delimiter line names the field, or `None` if the buffer has no such
    /// block.
    pub fn query_raw_text(&self, field: FieldName) -> (value: Option<&'a str>)
        ensures
            raw(value) == scan_from_start(self.text().spec_bytes(), field),
    {
        let mut lines = LineScanner::new(self.text);
        query_raw_text_from(&mut lines, field)
    }
}

} // verus!
