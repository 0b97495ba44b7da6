//! The lines of a text buffer and a forward-only scanner over them.
//!
//! A line ends at a line feed, or at a carriage return that a line feed
//! follows; the end of the buffer ends the last line. The line ending is not
//! part of the line. A buffer that ends with a line ending has the same lines
//! as the buffer without it.

use vstd::prelude::*;
use vstd::string::*;
use vstd::utf8::*;

verus! {

/// The line feed byte.
pub const LF: u8 = 10;

/// The carriage return byte.
pub const CR: u8 = 13;

/// Offset of the first line feed at or after `from`, or the length of the
/// buffer if there is none.
pub open spec fn line_break(bytes: Seq<u8>, from: int) -> int
    recommends
        0 <= from,
    decreases bytes.len() - from,
{
    if from >= bytes.len() {
        bytes.len() as int
    } else if bytes[from] == LF {
        from
    } else {
        line_break(bytes, from + 1)
    }
}

/// Offset at which the line after the one that starts at `start` begins.
pub open spec fn line_after(bytes: Seq<u8>, start: int) -> int {
    let brk = line_break(bytes, start);
    if brk < bytes.len() {
        brk + 1
    } else {
        brk
    }
}

/// Offset at which the line that starts at `start` ends, its line ending
/// left out.
pub open spec fn line_end(bytes: Seq<u8>, start: int) -> int {
    let brk = line_break(bytes, start);
    if start < brk < bytes.len() && bytes[brk - 1] == CR {
        brk - 1
    } else {
        brk
    }
}

/// Number of lines that start at or after the line start `start`.
pub open spec fn lines_from(bytes: Seq<u8>, start: int) -> nat
    decreases bytes.len() - start,
{
    if 0 <= start < bytes.len() {
        proof {
            lemma_line_break(bytes, start);
        }
        1 + lines_from(bytes, line_after(bytes, start))
    } else {
        0
    }
}

/// Number of lines in the buffer.
pub open spec fn line_count(bytes: Seq<u8>) -> nat {
    lines_from(bytes, 0)
}

/// Offset at which line number `n` starts; the length of the buffer for a
/// number that no line has.
pub open spec fn line_start(bytes: Seq<u8>, n: nat) -> int
    decreases n,
{
    if n == 0 {
        0
    } else {
        line_after(bytes, line_start(bytes, (n - 1) as nat))
    }
}

/// Line number `n`, without its line ending.
pub open spec fn line(bytes: Seq<u8>, n: nat) -> Seq<u8> {
    bytes.subrange(line_start(bytes, n), line_end(bytes, line_start(bytes, n)))
}

/// The line feed found by `line_break` is the first one at or after `from`.
pub proof fn lemma_line_break(bytes: Seq<u8>, from: int)
    requires
        0 <= from <= bytes.len(),
    ensures
        from <= line_break(bytes, from) <= bytes.len(),
        line_break(bytes, from) < bytes.len() ==> bytes[line_break(bytes, from)] == LF,
        forall|k: int| from <= k < line_break(bytes, from) ==> bytes[k] != LF,
    decreases bytes.len() - from,
{
    if from < bytes.len() && bytes[from] != LF {
        lemma_line_break(bytes, from + 1);
    }
}

/// Line starts grow by at least one byte per line, never pass the end of the
/// buffer, and reach it exactly at `line_count`.
pub proof fn lemma_line_start(bytes: Seq<u8>, n: nat)
    requires
        n <= line_count(bytes),
    ensures
        n <= line_start(bytes, n) <= bytes.len(),
        lines_from(bytes, line_start(bytes, n)) == line_count(bytes) - n,
        n < line_count(bytes) <==> line_start(bytes, n) < bytes.len(),
        line_start(bytes, n) == 0 || line_start(bytes, n) == bytes.len() || bytes[line_start(
            bytes,
            n,
        ) - 1] == LF,
    decreases n,
{
    if n > 0 {
        let prev = (n - 1) as nat;
        lemma_line_start(bytes, prev);
        lemma_line_break(bytes, line_start(bytes, prev));
    }
}

/// The number of lines is at most the number of bytes.
pub proof fn lemma_line_count_bound(bytes: Seq<u8>)
    ensures
        line_count(bytes) <= bytes.len(),
{
    lemma_line_start(bytes, line_count(bytes));
}

/// In valid UTF-8 the byte after an ASCII byte starts a character.
pub proof fn lemma_boundary_after_ascii(bytes: Seq<u8>, index: int)
    requires
        valid_utf8(bytes),
        0 < index <= bytes.len(),
        bytes[index - 1] < 0x80,
    ensures
        is_char_boundary(bytes, index),
{
    if index < bytes.len() {
        is_char_boundary_iff_not_is_continuation_byte(bytes, index - 1);
        valid_utf8_split(bytes, index - 1);
        let tail = bytes.subrange(index - 1, bytes.len() as int);
        assert(tail[0] == bytes[index - 1]);
        assert(length_of_first_scalar(tail) == 1);
        let rest = pop_first_scalar(tail);
        assert(rest =~= bytes.subrange(index, bytes.len() as int));
        assert(valid_utf8(rest));
        assert(rest[0] == bytes[index]);
        assert(valid_first_scalar(rest));
        is_char_boundary_iff_not_is_continuation_byte(bytes, index);
    } else {
        is_char_boundary_start_end_of_seq(bytes);
    }
}

/// In valid UTF-8 an ASCII byte starts a character, and so does the end of
/// the buffer.
pub proof fn lemma_boundary_at_ascii(bytes: Seq<u8>, index: int)
    requires
        valid_utf8(bytes),
        0 <= index <= bytes.len(),
        index < bytes.len() ==> bytes[index] < 0x80,
    ensures
        is_char_boundary(bytes, index),
{
    if index < bytes.len() {
        is_char_boundary_iff_not_is_continuation_byte(bytes, index);
    } else {
        is_char_boundary_start_end_of_seq(bytes);
    }
}

/// A line starts and ends between characters.
pub proof fn lemma_line_boundaries(bytes: Seq<u8>, n: nat)
    requires
        valid_utf8(bytes),
        n <= line_count(bytes),
    ensures
        is_char_boundary(bytes, line_start(bytes, n)),
        is_char_boundary(bytes, line_end(bytes, line_start(bytes, n))),
        line_start(bytes, n) <= line_end(bytes, line_start(bytes, n)) <= bytes.len(),
{
    let start = line_start(bytes, n);
    lemma_line_start(bytes, n);
    lemma_line_break(bytes, start);
    if 0 < start < bytes.len() {
        lemma_boundary_after_ascii(bytes, start);
    } else {
        is_char_boundary_start_end_of_seq(bytes);
    }
    lemma_boundary_at_ascii(bytes, line_end(bytes, start));
}

/// The part of `text` between two offsets that lie between characters.
pub fn cut<'a>(text: &'a str, start: usize, end: usize) -> (part: &'a str)
    requires
        start <= end <= text.spec_bytes().len(),
        is_char_boundary(text.spec_bytes(), start as int),
        is_char_boundary(text.spec_bytes(), end as int),
    ensures
        part.spec_bytes() == text.spec_bytes().subrange(start as int, end as int),
{
    let ghost bytes = text.spec_bytes();
    proof {
        encode_utf8_valid_utf8(text@);
    }
    let (head, _) = text.split_at(end);
    proof {
        valid_utf8_split(bytes, end as int);
        assert(head.spec_bytes() == bytes.subrange(0, end as int));
        if start < end {
            is_char_boundary_iff_not_is_continuation_byte(bytes, start as int);
            is_char_boundary_iff_not_is_continuation_byte(head.spec_bytes(), start as int);
        } else {
            is_char_boundary_start_end_of_seq(head.spec_bytes());
        }
    }
    let (_, part) = head.split_at(start);
    assert(part.spec_bytes() =~= bytes.subrange(start as int, end as int));
    part
}

/// The place of a line in its buffer: the offsets at which its content
/// starts and ends.
#[derive(Debug, Clone, Copy, PartialEq, Eq, Structural)]
pub struct Line {
    pub start: usize,
    pub end: usize,
}

/// Whether `place` is the place of line number `n`.
pub open spec fn is_line(bytes: Seq<u8>, n: nat, place: Line) -> bool {
    &&& n < line_count(bytes)
    &&& place.start == line_start(bytes, n)
    &&& place.end == line_end(bytes, line_start(bytes, n))
}

/// A cursor into the lines of a buffer. It only moves forward, one line at
/// a time, and yields no line twice.
#[derive(Debug)]
pub struct LineScanner<'a> {
    text: &'a str,
    offset: usize,
    consumed: usize,
}

impl<'a> LineScanner<'a> {
    /// What holds of every scanner: it stands at the start of a line, or at
    /// the end of the buffer.
    #[verifier::type_invariant]
    pub closed spec fn well_formed(&self) -> bool {
        &&& self.consumed <= line_count(self.text.spec_bytes())
        &&& self.offset == line_start(self.text.spec_bytes(), self.consumed as nat)
    }

    /// The buffer that the scanner reads.
    pub closed spec fn spec_text(&self) -> &'a str {
        self.text
    }

    /// The bytes of the buffer.
    pub open spec fn bytes(&self) -> Seq<u8> {
        self.spec_text().spec_bytes()
    }

    /// Number of lines that the scanner has passed; the number of the line
    /// that comes next.
    pub closed spec fn spec_consumed(&self) -> nat {
        self.consumed as nat
    }

    /// A scanner at the first line of `text`.
    pub fn new(text: &'a str) -> (scanner: Self)
        ensures
            scanner.text() == text,
            scanner.spec_consumed() == 0,
    {
        LineScanner { text, offset: 0, consumed: 0 }
    }

    /// The buffer that the scanner reads.
    #[verifier::when_used_as_spec(spec_text)]
    pub fn text(&self) -> (text: &'a str)
        ensures
            text == self.spec_text(),
    {
        self.text
    }

    /// A scanner has passed no more lines than the buffer has.
    pub proof fn lemma_consumed_bound(&self)
        requires
            self.well_formed(),
        ensures
            self.spec_consumed() <= line_count(self.bytes()),
    {
    }

    /// Number of lines that the scanner has passed.
    pub fn consumed(&self) -> (count: usize)
        ensures
            count == self.spec_consumed(),
            count <= line_count(self.bytes()),
    {
        proof {
            use_type_invariant(self);
        }
        self.consumed
    }

    /// The rest of the lines as a scanner of its own, which moves without
    /// moving this one.
    pub fn rest(&self) -> (scanner: Self)
        ensures
            scanner == *self,
    {
        proof {
            use_type_invariant(self);
        }
        LineScanner { text: self.text, offset: self.offset, consumed: self.consumed }
    }

    /// The place of the next line, which the scanner passes; `None` at the
    /// end of the buffer, where the scanner stays.
    pub fn next_line(&mut self) -> (next: Option<Line>)
        ensures
            final(self).text() == old(self).text(),
            match next {
                Some(place) => {
                    &&& is_line(old(self).bytes(), old(self).spec_consumed(), place)
                    &&& final(self).spec_consumed() == old(self).spec_consumed() + 1
                },
                None => {
                    &&& old(self).spec_consumed() == line_count(old(self).bytes())
                    &&& final(self).spec_consumed() == old(self).spec_consumed()
                },
            },
    {
        proof {
            use_type_invariant(&*self);
        }
        let text = self.text;
        let bytes = text.as_bytes();
        let start = self.offset;
        proof {
            lemma_line_start(bytes@, self.consumed as nat);
            lemma_line_count_bound(bytes@);
        }
        if start >= bytes.len() {
            return None;
        }
        let mut brk: usize = start;
        while brk < bytes.len() && bytes[brk] != LF
            invariant
                start <= brk <= bytes@.len(),
                line_break(bytes@, start as int) == line_break(bytes@, brk as int),
            decreases bytes@.len() - brk,
        {
            brk += 1;
        }
        let end = if start < brk && brk < bytes.len() && bytes[brk - 1] == CR {
            brk - 1
        } else {
            brk
        };
        let after = if brk < bytes.len() {
            brk + 1
        } else {
            brk
        };
        *self = LineScanner { text, offset: after, consumed: self.consumed + 1 };
        Some(Line { start, end })
    }

    /// The text between the start of one line and the end of another that
    /// does not come before it.
    pub fn between(&self, first: Line, last: Line) -> (part: &'a str)
        requires
            exists|m: nat, n: nat|
                m <= n && is_line(self.bytes(), m, first) && is_line(self.bytes(), n, last),
        ensures
            part.spec_bytes() == self.bytes().subrange(first.start as int, last.end as int),
    {
        let ghost (m, n) = choose|m: nat, n: nat|
            m <= n && is_line(self.bytes(), m, first) && is_line(self.bytes(), n, last);
        proof {
            encode_utf8_valid_utf8(self.text@);
            lemma_line_boundaries(self.bytes(), m);
            lemma_line_boundaries(self.bytes(), n);
            lemma_line_start_monotonic(self.bytes(), m, n);
        }
        cut(self.text, first.start, last.end)
    }
}

impl<'a> Clone for LineScanner<'a> {
    fn clone(&self) -> (scanner: Self)
        ensures
            scanner == *self,
    {
        self.rest()
    }
}

/// Later lines start later.
pub proof fn lemma_line_start_monotonic(bytes: Seq<u8>, m: nat, n: nat)
    requires
        m <= n <= line_count(bytes),
    ensures
        line_start(bytes, m) <= line_start(bytes, n),
    decreases n - m,
{
    if m < n {
        lemma_line_start_monotonic(bytes, m, (n - 1) as nat);
        lemma_line_start(bytes, (n - 1) as nat);
        lemma_line_break(bytes, line_start(bytes, (n - 1) as nat));
    }
}

} // verus!
