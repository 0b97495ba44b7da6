//! The querier that scans the buffer once and remembers its answers.

use crate::field::{lemma_delimiters, lemma_ordinal_is_injective, FieldName, FIELD_COUNT};
use crate::lines::{line, line_count, LineScanner};
use crate::query::common::{
    find_delimiter, is_blank, is_delimiter, lemma_find_delimiter, lemma_find_delimiter_from,
    lemma_found_iff_delimiter, lemma_locate_moves_forward, lemma_value_stop, locate, names,
    query_raw_text_from, raw, value_stop,
};
use crate::query::forgetful::scan_from_start;
use vstd::prelude::*;
use vstd::string::*;

verus! {

/// Why a slot of the cache holds no text.
#[derive(Debug, Clone, Copy)]
enum CacheErr {
    /// The field was looked for and not found.
    OccupiedWithNone,
    /// The field was never looked for.
    Unoccupied,
}

/// One slot for each field name. A slot is undecided until an answer is
/// recorded for its field; it then holds that answer: the raw value of the
/// field, or that the field is absent.
#[derive(Debug, Clone)]
pub struct Cache<'a> {
    slots: [Result<&'a str, CacheErr>; FIELD_COUNT],
}

impl<'a> Cache<'a> {
    /// What the slot of `field` holds: `None` while it is undecided, else the
    /// answer recorded.
    pub closed spec fn decision(&self, field: FieldName) -> Option<Option<&'a str>> {
        match self.slots@[field.spec_ordinal() as int] {
            Ok(value) => Some(Some(value)),
            Err(CacheErr::OccupiedWithNone) => Some(None),
            Err(CacheErr::Unoccupied) => None,
        }
    }

    /// The decided fields, each with the bytes of its answer.
    pub open spec fn decided(&self) -> Map<FieldName, Option<Seq<u8>>> {
        Map::new(
            |field: FieldName| self.decision(field) is Some,
            |field: FieldName| raw(self.decision(field)->0),
        )
    }

    /// What the slot of `field` holds: `None` while it is undecided, else the
    /// answer recorded.
    pub fn get(&self, field: &FieldName) -> (decision: Option<Option<&'a str>>)
        ensures
            decision == self.decision(*field),
    {
        match self.slots[field.ordinal()] {
            Ok(value) => Some(Some(value)),
            Err(CacheErr::OccupiedWithNone) => Some(None),
            Err(CacheErr::Unoccupied) => None,
        }
    }

    /// Records `value` as the answer for `field`, over what the slot held.
    /// No other slot changes.
    pub fn add(&mut self, field: &FieldName, value: Option<&'a str>)
        ensures
            final(self).decision(*field) == Some(value),
            forall|other: FieldName|
                other != *field ==> final(self).decision(other) == old(self).decision(other),
    {
        let index: usize = field.ordinal();
        let slot = match value {
            Some(text) => Ok(text),
            None => Err(CacheErr::OccupiedWithNone),
        };
        self.slots[index] = slot;
        proof {
            assert forall|other: FieldName| other != *field implies final(self).decision(other)
                == old(self).decision(other) by {
                if other.spec_ordinal() == field.spec_ordinal() {
                    lemma_ordinal_is_injective(other, *field);
                }
            }
        }
    }
}

impl<'a> Default for Cache<'a> {
    /// The cache in which every slot is undecided.
    fn default() -> (cache: Self)
        ensures
            forall|field: FieldName| cache.decision(field) is None,
    {
        Cache { slots: [Err(CacheErr::Unoccupied);FIELD_COUNT] }
    }
}

/// What a memoizing querier keeps between queries.
pub struct MemoState {
    /// Number of lines that the scans have passed.
    pub position: nat,
    /// The answers recorded, by field.
    pub decided: Map<FieldName, Option<Seq<u8>>>,
}

/// The state before the first query.
pub open spec fn fresh() -> MemoState {
    MemoState { position: 0, decided: Map::empty() }
}

/// One query for `field` in `state`: the state after it and the answer.
///
/// A decided field is answered from the record, and nothing changes. Else
/// the scan goes on from where the last one stopped, and its answer is
/// recorded.
pub open spec fn memo_step(bytes: Seq<u8>, state: MemoState, field: FieldName) -> (
    MemoState,
    Option<Seq<u8>>,
) {
    if state.decided.contains_key(field) {
        (state, state.decided[field])
    } else {
        let found = locate(bytes, state.position, field);
        (
            MemoState { position: found.next, decided: state.decided.insert(field, found.value) },
            found.value,
        )
    }
}

/// [Query](MemoQuerier::query_raw_text_mut) with a cache.
#[derive(Debug, Clone)]
pub struct MemoQuerier<'a> {
    lines: LineScanner<'a>,
    cache: Cache<'a>,
}

impl<'a> View for MemoQuerier<'a> {
    type V = MemoState;

    closed spec fn view(&self) -> MemoState {
        MemoState { position: self.lines.spec_consumed(), decided: self.cache.decided() }
    }
}

impl<'a> MemoQuerier<'a> {
    /// The buffer that the querier reads.
    pub closed spec fn text(&self) -> &'a str {
        self.lines.spec_text()
    }

    /// Query the `text` with a cache.
    pub fn new(text: &'a str) -> (querier: Self)
        ensures
            querier.text() == text,
            querier@ == fresh(),
    {
        let querier = MemoQuerier { lines: LineScanner::new(text), cache: Cache::default() };
        assert(querier@.decided =~= Map::empty());
        querier
    }

    /// Number of lines that the scans have passed so far: never more than
    /// the buffer has.
    pub fn consumed_lines(&self) -> (count: usize)
        ensures
            count == self@.position,
            count <= line_count(self.text().spec_bytes()),
    {
        self.lines.consumed()
    }

    /// The raw value of `field`, or `None` for a field held to be absent.
    ///
    /// The first query for a field decides it: the scan goes on from where
    /// the last one stopped, and the answer is recorded. Later queries for the
    /// field return the recorded answer without a scan. A field whose block
    /// the scans have passed before its first query is held to be absent.
    pub fn query_raw_text_mut(&mut self, field: FieldName) -> (value: Option<&'a str>)
        ensures
            final(self).text() == old(self).text(),
            final(self)@ == memo_step(old(self).text().spec_bytes(), old(self)@, field).0,
            raw(value) == memo_step(old(self).text().spec_bytes(), old(self)@, field).1,
            old(self)@.decided.contains_key(field) ==> final(self)@ == old(self)@,
            old(self)@.position <= final(self)@.position <= line_count(
                old(self).text().spec_bytes(),
            ),
    {
        proof {
            use_type_invariant(&self.lines);
            self.lines.lemma_consumed_bound();
        }
        if let Some(value) = self.cache.get(&field) {
            return value;
        }
        let value = query_raw_text_from(&mut self.lines, field);
        self.cache.add(&field, value);
        proof {
            let bytes = old(self).text().spec_bytes();
            let step = memo_step(bytes, old(self)@, field);
            assert(self@.decided =~= step.0.decided);
        }
        value
    }
}

/// The state after the queries for `fields`, made one after the other from
/// `state`.
pub open spec fn memo_run(bytes: Seq<u8>, state: MemoState, fields: Seq<FieldName>) -> MemoState
    decreases fields.len(),
{
    if fields.len() == 0 {
        state
    } else {
        memo_step(bytes, memo_run(bytes, state, fields.drop_last()), fields.last()).0
    }
}

/// The answer to query number `k` of `fields`, where a querier new to the
/// buffer is asked for them one after the other.
pub open spec fn memo_answer(bytes: Seq<u8>, fields: Seq<FieldName>, k: int) -> Option<Seq<u8>> {
    memo_step(bytes, memo_run(bytes, fresh(), fields.take(k)), fields[k]).1
}

/// Number of the first line of the buffer that is the delimiter line of
/// `field`, or the number of lines if there is none.
pub open spec fn first_block(bytes: Seq<u8>, field: FieldName) -> nat {
    find_delimiter(bytes, 0, field)
}

/// Whether the field of query number `k` was asked for before.
pub open spec fn asked_before(fields: Seq<FieldName>, k: int) -> bool {
    exists|i: int| 0 <= i < k && fields[i] == fields[k]
}

/// Whether no block of the first `k` fields starts after the first block of
/// `field`. A field without a block counts as one whose block starts after
/// the last line.
pub open spec fn follows(bytes: Seq<u8>, fields: Seq<FieldName>, k: int, field: FieldName) -> bool {
    forall|i: int| 0 <= i < k ==> first_block(bytes, #[trigger] fields[i]) <= first_block(bytes, field)
}

/// Whether the queries come in file order: each asks for a field asked for
/// before, or for one whose block starts after those of all the fields
/// before it. Fields without a block come last.
pub open spec fn in_file_order(bytes: Seq<u8>, fields: Seq<FieldName>) -> bool {
    forall|k: int|
        0 <= k < fields.len() ==> asked_before(fields, k) || #[trigger] follows(
            bytes,
            fields,
            k,
            fields[k],
        )
}

/// What holds after the first `k` queries of a sequence in file order.
spec fn in_step(bytes: Seq<u8>, fields: Seq<FieldName>, k: int, state: MemoState) -> bool {
    &&& state.position <= line_count(bytes)
    &&& forall|i: int| 0 <= i < k ==> state.decided.contains_key(#[trigger] fields[i])
    &&& forall|field: FieldName| #[trigger]
        state.decided.contains_key(field) ==> {
            &&& state.decided[field] == scan_from_start(bytes, field)
            &&& exists|i: int| 0 <= i < k && fields[i] == field
        }
    &&& forall|field: FieldName|
        !state.decided.contains_key(field) && #[trigger] follows(bytes, fields, k, field)
            ==> state.position <= first_block(bytes, field)
}

/// A scan for a field whose first block starts at or after line `from`
/// yields what a scan of the whole buffer yields.
proof fn lemma_scan_before_block(bytes: Seq<u8>, from: nat, field: FieldName)
    requires
        from <= first_block(bytes, field),
    ensures
        locate(bytes, from, field) == locate(bytes, 0, field),
{
    lemma_find_delimiter(bytes, 0, field);
    lemma_find_delimiter_from(bytes, 0, from, field);
}

/// A scan that finds the block of `field` stops at or before the first block
/// of any other field that starts after it.
proof fn lemma_scan_stops_before(bytes: Seq<u8>, field: FieldName, other: FieldName)
    requires
        other != field,
        first_block(bytes, field) <= first_block(bytes, other),
    ensures
        locate(bytes, 0, field).next <= first_block(bytes, other),
{
    let count = line_count(bytes);
    let here = first_block(bytes, field);
    let there = first_block(bytes, other);
    lemma_find_delimiter(bytes, 0, field);
    lemma_find_delimiter(bytes, 0, other);
    if here < count {
        lemma_value_stop(bytes, here + 1);
        if there < count {
            lemma_delimiters(other, field);
            assert(names(line(bytes, there), other));
            assert(is_delimiter(line(bytes, there)));
            assert(!is_blank(line(bytes, there)));
            assert(here < there);
            assert(value_stop(bytes, here + 1) <= there);
        }
    }
}

proof fn lemma_in_step(bytes: Seq<u8>, fields: Seq<FieldName>, k: int)
    requires
        in_file_order(bytes, fields),
        0 <= k <= fields.len(),
    ensures
        in_step(bytes, fields, k, memo_run(bytes, fresh(), fields.take(k))),
    decreases k,
{
    if k > 0 {
        let before = memo_run(bytes, fresh(), fields.take(k - 1));
        let field = fields[k - 1];
        let after = memo_step(bytes, before, field).0;
        lemma_in_step(bytes, fields, k - 1);
        assert(fields.take(k).drop_last() =~= fields.take(k - 1));
        assert(fields.take(k).last() == field);
        assert(memo_run(bytes, fresh(), fields.take(k)) == after);
        if before.decided.contains_key(field) {
            assert forall|other: FieldName|
                !after.decided.contains_key(other) && #[trigger] follows(
                    bytes,
                    fields,
                    k,
                    other,
                ) implies after.position <= first_block(bytes, other) by {
                assert(follows(bytes, fields, k - 1, other));
            }
            assert(in_step(bytes, fields, k, after));
        } else {
            assert(!asked_before(fields, k - 1));
            assert(follows(bytes, fields, k - 1, field));
            lemma_scan_before_block(bytes, before.position, field);
            lemma_locate_moves_forward(bytes, 0, field);
            assert forall|other: FieldName|
                !after.decided.contains_key(other) && #[trigger] follows(
                    bytes,
                    fields,
                    k,
                    other,
                ) implies after.position <= first_block(bytes, other) by {
                assert(first_block(bytes, fields[k - 1]) <= first_block(bytes, other));
                lemma_scan_stops_before(bytes, field, other);
            }
            assert forall|other: FieldName| #[trigger]
                after.decided.contains_key(other) implies {
                &&& after.decided[other] == scan_from_start(bytes, other)
                &&& exists|i: int| 0 <= i < k && fields[i] == other
            } by {
                if other == field {
                    assert(fields[k - 1] == other);
                } else {
                    assert(before.decided.contains_key(other));
                    let i = choose|i: int| 0 <= i < k - 1 && fields[i] == other;
                    assert(fields[i] == other);
                }
            }
            assert(in_step(bytes, fields, k, after));
        }
    } else {
        assert(fields.take(0) =~= Seq::<FieldName>::empty());
    }
}

/// Asked for fields in file order, a querier with a cache answers each
/// query as a scan of the whole buffer does.
pub proof fn lemma_memo_agrees_in_file_order(bytes: Seq<u8>, fields: Seq<FieldName>, k: int)
    requires
        in_file_order(bytes, fields),
        0 <= k < fields.len(),
    ensures
        memo_answer(bytes, fields, k) == scan_from_start(bytes, fields[k]),
{
    let state = memo_run(bytes, fresh(), fields.take(k));
    lemma_in_step(bytes, fields, k);
    if !state.decided.contains_key(fields[k]) {
        assert(!asked_before(fields, k));
        assert(follows(bytes, fields, k, fields[k]));
        lemma_scan_before_block(bytes, state.position, fields[k]);
    }
}

/// The same query made twice in a row is answered the same way twice, and
/// the second query changes nothing.
pub proof fn lemma_memo_query_twice(bytes: Seq<u8>, state: MemoState, field: FieldName)
    ensures
        memo_step(bytes, memo_step(bytes, state, field).0, field) == memo_step(
            bytes,
            state,
            field,
        ),
{
}

/// A decided field stays decided, with the same answer, whatever is asked
/// next; and a query for it starts no scan: the position stays.
pub proof fn lemma_decided_is_final(
    bytes: Seq<u8>,
    state: MemoState,
    asked: FieldName,
    field: FieldName,
)
    requires
        state.decided.contains_key(field),
    ensures
        memo_step(bytes, state, asked).0.decided.contains_key(field),
        memo_step(bytes, state, asked).0.decided[field] == state.decided[field],
        memo_step(bytes, state, field) == (state, state.decided[field]),
{
}

/// A decided field keeps its answer through any sequence of queries.
pub proof fn lemma_run_keeps_decisions(
    bytes: Seq<u8>,
    state: MemoState,
    fields: Seq<FieldName>,
    field: FieldName,
)
    requires
        state.decided.contains_key(field),
    ensures
        memo_run(bytes, state, fields).decided.contains_key(field),
        memo_run(bytes, state, fields).decided[field] == state.decided[field],
    decreases fields.len(),
{
    if fields.len() > 0 {
        lemma_run_keeps_decisions(bytes, state, fields.drop_last(), field);
    }
}

/// A field that is asked for first when every one of its delimiter lines
/// has been passed is held to be absent, whether the buffer has a block of
/// it or not; so is every field asked for first when all lines have been
/// passed.
pub proof fn lemma_passed_field_is_absent(bytes: Seq<u8>, state: MemoState, field: FieldName)
    requires
        state.position <= line_count(bytes),
        !state.decided.contains_key(field),
        forall|n: nat|
            state.position <= n < line_count(bytes) ==> !names(#[trigger] line(bytes, n), field),
    ensures
        memo_step(bytes, state, field).1 is None,
        memo_step(bytes, state, field).0.position == line_count(bytes),
        memo_step(bytes, state, field).0.decided[field] is None,
{
    lemma_found_iff_delimiter(bytes, state.position, field);
}

/// Whatever is asked, the scans together pass each line at most once: the
/// position never moves back and never passes the number of lines.
pub proof fn lemma_one_pass(bytes: Seq<u8>, state: MemoState, fields: Seq<FieldName>)
    requires
        state.position <= line_count(bytes),
    ensures
        state.position <= memo_run(bytes, state, fields).position <= line_count(bytes),
    decreases fields.len(),
{
    if fields.len() > 0 {
        lemma_one_pass(bytes, state, fields.drop_last());
        let before = memo_run(bytes, state, fields.drop_last());
        lemma_locate_moves_forward(bytes, before.position, fields.last());
    }
}

} // verus!
