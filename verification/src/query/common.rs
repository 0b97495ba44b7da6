//! Finding a field's block among the lines of a buffer.

use crate::field::{lemma_ordinal_is_injective, FieldName, FIELD_COUNT};
use crate::lines::{
    cut, is_line, lemma_line_boundaries, lemma_line_break, lemma_line_start, line, line_count,
    line_end, line_start, Line, LineScanner,
};
use vstd::prelude::*;
use vstd::string::*;
use vstd::utf8::*;

verus! {

/// Whether `line` is the delimiter line of `field`.
pub open spec fn names(line: Seq<u8>, field: FieldName) -> bool {
    line == field.spec_delimiter().spec_bytes()
}

/// Whether `line` is the delimiter line of some field.
pub open spec fn is_delimiter(line: Seq<u8>) -> bool {
    exists|field: FieldName| names(line, field)
}

/// Whether `line` has no content.
pub open spec fn is_blank(line: Seq<u8>) -> bool {
    line.len() == 0
}

/// Number of the first line at or after line `from` that is the delimiter
/// line of `field`, or the number of lines if there is none.
pub open spec fn find_delimiter(bytes: Seq<u8>, from: nat, field: FieldName) -> nat
    decreases line_count(bytes) - from,
{
    if from >= line_count(bytes) {
        line_count(bytes)
    } else if names(line(bytes, from), field) {
        from
    } else {
        find_delimiter(bytes, from + 1, field)
    }
}

/// Number of the first line at or after line `from` that ends a value: a
/// blank line or a delimiter line; the number of lines if there is none.
pub open spec fn value_stop(bytes: Seq<u8>, from: nat) -> nat
    decreases line_count(bytes) - from,
{
    if from >= line_count(bytes) {
        line_count(bytes)
    } else if is_blank(line(bytes, from)) || is_delimiter(line(bytes, from)) {
        from
    } else {
        value_stop(bytes, from + 1)
    }
}

/// The text of the lines from `first` up to and without `stop`: the part of
/// the buffer from the start of the first of them to the end of the last,
/// the line endings between them included. Empty if there is no such line.
pub open spec fn lines_text(bytes: Seq<u8>, first: nat, stop: nat) -> Seq<u8> {
    if first < stop {
        bytes.subrange(
            line_start(bytes, first),
            line_end(bytes, line_start(bytes, (stop - 1) as nat)),
        )
    } else {
        Seq::empty()
    }
}

/// What a scan for a field yields: the raw value of the field, if its block
/// was found, and the number of the line at which the next scan starts.
pub struct Located {
    pub value: Option<Seq<u8>>,
    pub next: nat,
}

/// The scan for `field` that starts at line `from`.
///
/// The block found is the first one at or after `from` whose delimiter line
/// names `field`. Its value is the text of the lines after the delimiter
/// line, up to the first blank line or delimiter line, or to the end of the
/// buffer. The scan passes the block and the blank line that ends it; a
/// delimiter line that ends it is left for the next scan. A scan that finds
/// no block passes all lines.
pub open spec fn locate(bytes: Seq<u8>, from: nat, field: FieldName) -> Located {
    let delimiter = find_delimiter(bytes, from, field);
    if delimiter < line_count(bytes) {
        let stop = value_stop(bytes, delimiter + 1);
        Located {
            value: Some(lines_text(bytes, delimiter + 1, stop)),
            next: if stop < line_count(bytes) && is_blank(line(bytes, stop)) {
                stop + 1
            } else {
                stop
            },
        }
    } else {
        Located { value: None, next: line_count(bytes) }
    }
}

/// The first delimiter line of `field` at or after line `from` is where
/// `find_delimiter` says.
pub proof fn lemma_find_delimiter(bytes: Seq<u8>, from: nat, field: FieldName)
    requires
        from <= line_count(bytes),
    ensures
        from <= find_delimiter(bytes, from, field) <= line_count(bytes),
        find_delimiter(bytes, from, field) < line_count(bytes) ==> names(
            line(bytes, find_delimiter(bytes, from, field)),
            field,
        ),
        forall|n: nat|
            from <= n < find_delimiter(bytes, from, field) ==> !names(#[trigger] line(bytes, n), field),
    decreases line_count(bytes) - from,
{
    if from < line_count(bytes) && !names(line(bytes, from), field) {
        lemma_find_delimiter(bytes, from + 1, field);
    }
}

/// The first line at or after line `from` that ends a value is where
/// `value_stop` says.
pub proof fn lemma_value_stop(bytes: Seq<u8>, from: nat)
    requires
        from <= line_count(bytes),
    ensures
        from <= value_stop(bytes, from) <= line_count(bytes),
        value_stop(bytes, from) < line_count(bytes) ==> {
            ||| is_blank(line(bytes, value_stop(bytes, from)))
            ||| is_delimiter(line(bytes, value_stop(bytes, from)))
        },
        forall|n: nat|
            from <= n < value_stop(bytes, from) ==> {
                &&& !is_blank(#[trigger] line(bytes, n))
                &&& !is_delimiter(line(bytes, n))
            },
    decreases line_count(bytes) - from,
{
    if from < line_count(bytes) && !is_blank(line(bytes, from)) && !is_delimiter(
        line(bytes, from),
    ) {
        lemma_value_stop(bytes, from + 1);
    }
}

/// A scan that starts at or before the first delimiter line of `field` that
/// another scan meets, meets the same line.
pub proof fn lemma_find_delimiter_from(bytes: Seq<u8>, early: nat, late: nat, field: FieldName)
    requires
        early <= late <= find_delimiter(bytes, early, field),
        early <= line_count(bytes),
    ensures
        find_delimiter(bytes, late, field) == find_delimiter(bytes, early, field),
    decreases late - early,
{
    if early < late {
        lemma_find_delimiter(bytes, early, field);
        lemma_find_delimiter_from(bytes, early + 1, late, field);
    } else {
    }
}

/// A field whose delimiter line is the last line, or has a blank line or a
/// delimiter line after it, is present with an empty value.
pub proof fn lemma_empty_value_is_present(bytes: Seq<u8>, from: nat, field: FieldName)
    requires
        from <= line_count(bytes),
        find_delimiter(bytes, from, field) < line_count(bytes),
        ({
            let after = find_delimiter(bytes, from, field) + 1;
            after < line_count(bytes) ==> is_blank(line(bytes, after)) || is_delimiter(
                line(bytes, after),
            )
        }),
    ensures
        locate(bytes, from, field).value == Some(Seq::<u8>::empty()),
{
}

/// A scan that meets a delimiter line of `field` finds the field.
pub proof fn lemma_found_iff_delimiter(bytes: Seq<u8>, from: nat, field: FieldName)
    requires
        from <= line_count(bytes),
    ensures
        locate(bytes, from, field).value is Some <==> exists|n: nat|
            from <= n < line_count(bytes) && names(#[trigger] line(bytes, n), field),
{
    lemma_find_delimiter(bytes, from, field);
}

/// A scan moves forward, and not past the last line.
pub proof fn lemma_locate_moves_forward(bytes: Seq<u8>, from: nat, field: FieldName)
    requires
        from <= line_count(bytes),
    ensures
        from <= locate(bytes, from, field).next <= line_count(bytes),
{
    lemma_find_delimiter(bytes, from, field);
    let delimiter = find_delimiter(bytes, from, field);
    if delimiter < line_count(bytes) {
        lemma_value_stop(bytes, delimiter + 1);
    }
}

/// The bytes of a raw value that a query returned.
pub open spec fn raw(value: Option<&str>) -> Option<Seq<u8>> {
    match value {
        Some(text) => Some(text.spec_bytes()),
        None => None,
    }
}

/// Whether the bytes of `bytes` from `start` to `end` are those of `pattern`.
pub fn same_bytes(bytes: &[u8], start: usize, end: usize, pattern: &[u8]) -> (same: bool)
    requires
        start <= end <= bytes@.len(),
    ensures
        same == (bytes@.subrange(start as int, end as int) == pattern@),
{
    let len: usize = end - start;
    if len != pattern.len() {
        return false;
    }
    let ghost part = bytes@.subrange(start as int, end as int);
    let mut i: usize = 0;
    while i < len
        invariant
            i <= len,
            len == end - start,
            len == pattern@.len(),
            end <= bytes@.len(),
            part == bytes@.subrange(start as int, end as int),
            forall|k: int| 0 <= k < i ==> part[k] == pattern@[k],
        decreases len - i,
    {
        if bytes[start + i] != pattern[i] {
            assert(part[i as int] != pattern@[i as int]);
            return false;
        }
        i += 1;
    }
    assert(part =~= pattern@);
    true
}

/// Whether the line at `place` is the delimiter line of some field.
pub fn is_delimiter_line(bytes: &[u8], place: Line) -> (found: bool)
    requires
        place.start <= place.end <= bytes@.len(),
    ensures
        found == is_delimiter(bytes@.subrange(place.start as int, place.end as int)),
{
    let ghost line = bytes@.subrange(place.start as int, place.end as int);
    let mut index: usize = 0;
    while index < FIELD_COUNT
        invariant
            index <= FIELD_COUNT,
            place.start <= place.end <= bytes@.len(),
            line == bytes@.subrange(place.start as int, place.end as int),
            forall|field: FieldName| field.spec_ordinal() < index ==> !names(line, field),
        decreases FIELD_COUNT - index,
    {
        match FieldName::from_ordinal(index) {
            Some(field) => {
                if same_bytes(bytes, place.start, place.end, field.delimiter().as_bytes()) {
                    assert(names(line, field));
                    return true;
                }
                assert forall|other: FieldName| other.spec_ordinal() < index + 1 implies !names(
                    line,
                    other,
                ) by {
                    if other.spec_ordinal() == index {
                        lemma_ordinal_is_injective(other, field);
                    }
                }
            },
            None => {},
        }
        index += 1;
    }
    assert forall|field: FieldName| !names(line, field) by {
        assert(field.spec_ordinal() < FIELD_COUNT);
    }
    false
}

/// Scans the lines that `lines` has not passed for the block of `field`, and
/// returns the raw value of the field: a part of the buffer. `None` says that
/// no block of the field was found; a block without value lines gives the
/// empty text.
pub fn query_raw_text_from<'a>(lines: &mut LineScanner<'a>, field: FieldName) -> (value: Option<
    &'a str,
>)
    ensures
        final(lines).text() == old(lines).text(),
        raw(value) == locate(old(lines).bytes(), old(lines).spec_consumed(), field).value,
        final(lines).spec_consumed() == locate(
            old(lines).bytes(),
            old(lines).spec_consumed(),
            field,
        ).next,
        old(lines).spec_consumed() <= final(lines).spec_consumed() <= line_count(
            old(lines).bytes(),
        ),
{
    proof {
        use_type_invariant(&*lines);
        lines.lemma_consumed_bound();
        lemma_locate_moves_forward(lines.bytes(), lines.spec_consumed(), field);
    }
    let text = lines.text();
    let bytes = text.as_bytes();
    let pattern = field.delimiter().as_bytes();
    let ghost from = lines.spec_consumed();
    let opened;
    loop
        invariant_except_break
            lines.text() == text,
            text == old(lines).text(),
            from == old(lines).spec_consumed(),
            bytes@ == text.spec_bytes(),
            pattern@ == field.spec_delimiter().spec_bytes(),
            from <= lines.spec_consumed() <= line_count(bytes@),
            find_delimiter(bytes@, from, field) == find_delimiter(
                bytes@,
                lines.spec_consumed(),
                field,
            ),
        ensures
            lines.text() == text,
            bytes@ == text.spec_bytes(),
            find_delimiter(bytes@, from, field) < line_count(bytes@),
            lines.spec_consumed() == find_delimiter(bytes@, from, field) + 1,
            is_line(bytes@, find_delimiter(bytes@, from, field), opened),
        decreases line_count(bytes@) - lines.spec_consumed(),
    {
        let ghost number = lines.spec_consumed();
        match lines.next_line() {
            Some(place) => {
                proof {
                    lemma_line_boundaries_of(bytes@, number);
                }
                if same_bytes(bytes, place.start, place.end, pattern) {
                    opened = place;
                    break;
                }
            },
            None => {
                return None;
            },
        }
    }
    let ghost delimiter = find_delimiter(bytes@, from, field);
    let mut span: Option<(Line, Line)> = None;
    loop
        invariant_except_break
            lines.text() == text,
            bytes@ == text.spec_bytes(),
            delimiter == find_delimiter(bytes@, from, field),
            delimiter < lines.spec_consumed() <= line_count(bytes@),
            value_stop(bytes@, delimiter + 1) == value_stop(bytes@, lines.spec_consumed()),
            match span {
                Some((first, last)) => {
                    &&& delimiter + 1 < lines.spec_consumed()
                    &&& is_line(bytes@, delimiter + 1, first)
                    &&& is_line(bytes@, (lines.spec_consumed() - 1) as nat, last)
                },
                None => lines.spec_consumed() == delimiter + 1,
            },
        ensures
            lines.text() == text,
            bytes@ == text.spec_bytes(),
            delimiter == find_delimiter(bytes@, from, field),
            delimiter < line_count(bytes@),
            lines.spec_consumed() == locate(bytes@, from, field).next,
            match span {
                Some((first, last)) => {
                    &&& delimiter + 1 < value_stop(bytes@, delimiter + 1)
                    &&& is_line(bytes@, delimiter + 1, first)
                    &&& is_line(bytes@, (value_stop(bytes@, delimiter + 1) - 1) as nat, last)
                },
                None => value_stop(bytes@, delimiter + 1) == delimiter + 1,
            },
        decreases line_count(bytes@) - lines.spec_consumed(),
    {
        let ghost number = lines.spec_consumed();
        let mut probe = lines.rest();
        match probe.next_line() {
            Some(place) => {
                proof {
                    lemma_line_boundaries_of(bytes@, number);
                }
                if place.start == place.end {
                    *lines = probe;
                    break;
                }
                if is_delimiter_line(bytes, place) {
                    break;
                }
                *lines = probe;
                span = match span {
                    Some((first, _)) => Some((first, place)),
                    None => Some((place, place)),
                };
            },
            None => {
                break;
            },
        }
    }
    match span {
        Some((first, last)) => {
            let ghost stop = value_stop(bytes@, delimiter + 1);
            assert(is_line(lines.bytes(), delimiter + 1, first) && is_line(
                lines.bytes(),
                (stop - 1) as nat,
                last,
            ));
            Some(lines.between(first, last))
        },
        None => {
            proof {
                encode_utf8_valid_utf8(text@);
                lemma_line_boundaries(bytes@, delimiter);
            }
            let empty = cut(text, opened.end, opened.end);
            assert(empty.spec_bytes() =~= Seq::<u8>::empty());
            Some(empty)
        },
    }
}

/// A line lies within the buffer.
pub proof fn lemma_line_boundaries_of(bytes: Seq<u8>, n: nat)
    requires
        n < line_count(bytes),
    ensures
        0 <= line_start(bytes, n) <= line_end(bytes, line_start(bytes, n)) <= bytes.len(),
{
    lemma_line_start(bytes, n);
    lemma_line_break(bytes, line_start(bytes, n));
}

} // verus!
