//! Hexadecimal text decoded into integers of fixed width.
//!
//! Decoding starts at the end of the text and moves towards its start. One
//! element takes the hex digits that stand directly before the text decoded
//! so far, as many as the element holds at most, and is the number they
//! write. Text that runs out leaves the element short, and the elements after
//! it zero. A character that is no hex digit ends the decoding: it is passed
//! over, the element is the number of the digits taken so far, and the
//! elements after it are zero.

use crate::lines::lemma_boundary_at_ascii;
use vstd::prelude::*;
use vstd::string::*;
use vstd::utf8::*;

verus! {

/// The value of a hex digit, in either case; `None` for any other character.
pub open spec fn hex_digit(digit: char) -> Option<u8> {
    if '0' <= digit <= '9' {
        Some((digit as u32 - '0' as u32) as u8)
    } else if 'a' <= digit <= 'f' {
        Some((0xA + digit as u32 - 'a' as u32) as u8)
    } else if 'A' <= digit <= 'F' {
        Some((0xA + digit as u32 - 'A' as u32) as u8)
    } else {
        None
    }
}

/// The value of the hex digit that `byte` encodes; 0 for any other byte.
pub open spec fn digit_value(byte: u8) -> nat {
    match hex_digit(byte as char) {
        Some(value) => value as nat,
        None => 0,
    }
}

/// Whether `byte` encodes a hex digit.
pub open spec fn is_hex(byte: u8) -> bool {
    hex_digit(byte as char) is Some
}

/// The number that the digits of `digits` write, the most significant first.
pub open spec fn hex_number(digits: Seq<u8>) -> nat
    decreases digits.len(),
{
    if digits.len() == 0 {
        0
    } else {
        16 * hex_number(digits.drop_last()) + digit_value(digits.last())
    }
}

/// Number of hex digits that stand directly before offset `end`, as far as
/// there are no more than `limit`.
pub open spec fn digits_before(bytes: Seq<u8>, end: int, limit: nat) -> nat
    decreases limit,
{
    if limit == 0 || end <= 0 || !is_hex(bytes[end - 1]) {
        0
    } else {
        1 + digits_before(bytes, end - 1, (limit - 1) as nat)
    }
}

/// Offset at which the character that ends at offset `end` starts.
pub open spec fn char_start(bytes: Seq<u8>, end: int) -> int
    decreases end,
{
    if end <= 0 {
        0
    } else if is_char_boundary(bytes, end - 1) {
        end - 1
    } else {
        char_start(bytes, end - 1)
    }
}

/// Sixteen to the power of `n`.
pub open spec fn pow16(n: nat) -> nat
    decreases n,
{
    if n == 0 {
        1
    } else {
        16 * pow16((n - 1) as nat)
    }
}

/// One element decoded from the end of a text: its value, the length of the
/// text that is left before it, and whether a character that is no hex digit
/// ended it.
pub struct Decoded {
    pub value: nat,
    pub rest: int,
    pub ended: bool,
}

/// The element of at most `limit` digits decoded from the end of `bytes`.
///
/// Its value is the number written by the hex digits at the end of `bytes`,
/// at most `limit` of them. Where fewer than `limit` digits stand there and
/// a character stands before them, that character ends the element and is
/// passed over.
pub open spec fn decode_value(bytes: Seq<u8>, limit: nat) -> Decoded {
    let end = bytes.len() as int;
    let start = end - digits_before(bytes, end, limit);
    let ended = end - start < limit && start > 0;
    Decoded {
        value: hex_number(bytes.subrange(start, end)),
        rest: if ended {
            char_start(bytes, start)
        } else {
            start
        },
        ended,
    }
}

/// How far decoding has come: the text that is left, and whether a character
/// that is no hex digit has ended the decoding.
pub struct Progress {
    pub rest: Seq<u8>,
    pub ended: bool,
}

/// How far the decoding of `bytes` has come after `count` elements of at
/// most `limit` digits each. Once it has ended, nothing more is taken from
/// the text.
pub open spec fn progress(bytes: Seq<u8>, count: nat, limit: nat) -> Progress
    decreases count,
{
    if count == 0 {
        Progress { rest: bytes, ended: false }
    } else {
        let before = progress(bytes, (count - 1) as nat, limit);
        if before.ended {
            before
        } else {
            let element = decode_value(before.rest, limit);
            Progress { rest: before.rest.take(element.rest), ended: element.ended }
        }
    }
}

/// The value of the element decoded after `count` others: zero once the
/// decoding has ended.
pub open spec fn element(bytes: Seq<u8>, count: nat, limit: nat) -> nat {
    let before = progress(bytes, count, limit);
    if before.ended {
        0
    } else {
        decode_value(before.rest, limit).value
    }
}

/// The text that is left of `bytes` when `count` elements of at most `limit`
/// digits each have been decoded from its end.
pub open spec fn remainder_after(bytes: Seq<u8>, count: nat, limit: nat) -> Seq<u8> {
    progress(bytes, count, limit).rest
}

/// The values of `count` elements of at most `limit` digits each, decoded
/// from the end of `bytes`: the last one of the sequence is decoded first.
pub open spec fn decoded_numbers(bytes: Seq<u8>, count: nat, limit: nat) -> Seq<nat> {
    Seq::new(count, |i: int| element(bytes, (count - 1 - i) as nat, limit))
}

/// A number of `n` hex digits is below sixteen to the power of `n`.
pub proof fn lemma_hex_number_bound(digits: Seq<u8>)
    ensures
        hex_number(digits) < pow16(digits.len()),
    decreases digits.len(),
{
    if digits.len() > 0 {
        lemma_hex_number_bound(digits.drop_last());
    }
}

/// Powers of sixteen grow with the exponent.
pub proof fn lemma_pow16_grows(low: nat, high: nat)
    requires
        low <= high,
    ensures
        pow16(low) <= pow16(high),
    decreases high - low,
{
    if low < high {
        lemma_pow16_grows(low, (high - 1) as nat);
    }
}

/// The run of digits that `digits_before` counts: it is made of hex digits,
/// and it ends at the limit, at the start of the text, or after a byte that
/// is no hex digit.
pub proof fn lemma_digits_before(bytes: Seq<u8>, end: int, limit: nat)
    requires
        0 <= end <= bytes.len(),
    ensures
        digits_before(bytes, end, limit) <= limit,
        digits_before(bytes, end, limit) <= end,
        forall|k: int| end - digits_before(bytes, end, limit) <= k < end ==> is_hex(bytes[k]),
        digits_before(bytes, end, limit) < limit && digits_before(bytes, end, limit) < end
            ==> !is_hex(bytes[end - digits_before(bytes, end, limit) - 1]),
    decreases limit,
{
    if limit > 0 && end > 0 && is_hex(bytes[end - 1]) {
        lemma_digits_before(bytes, end - 1, (limit - 1) as nat);
    }
}

/// Parses one hex digit.
pub fn parse_hex_digit(digit: char) -> (value: Option<u8>)
    ensures
        value == hex_digit(digit),
{
    let code: u32 = if '0' <= digit && digit <= '9' {
        digit as u32 - '0' as u32
    } else if 'a' <= digit && digit <= 'f' {
        0xA + digit as u32 - 'a' as u32
    } else if 'A' <= digit && digit <= 'F' {
        0xA + digit as u32 - 'A' as u32
    } else {
        return None;
    };
    Some(code as u8)
}

/// Decodes one element of `SIZE` bytes, two hex digits to the byte, from the
/// end of `input`. Returns the text that is left, the element's value, and
/// whether a character that is no hex digit ended the element.
pub fn parse_hex_value<'a, const SIZE: usize>(input: &'a str) -> (parsed: (&'a str, u128, bool))
    requires
        SIZE <= 16,
    ensures
        parsed.0.spec_bytes() == input.spec_bytes().take(
            decode_value(input.spec_bytes(), 2 * SIZE as nat).rest,
        ),
        parsed.1 == decode_value(input.spec_bytes(), 2 * SIZE as nat).value,
        parsed.2 == decode_value(input.spec_bytes(), 2 * SIZE as nat).ended,
        parsed.1 < pow16(2 * SIZE as nat),
{
    let bytes = input.as_bytes();
    let len: usize = bytes.len();
    let limit: usize = 2 * SIZE;
    let mut count: usize = 0;
    loop
        invariant_except_break
            count <= limit,
            count <= len,
            len == bytes@.len(),
            digits_before(bytes@, len as int, limit as nat) == count + digits_before(
                bytes@,
                len - count,
                (limit - count) as nat,
            ),
        ensures
            count <= limit,
            count <= len,
            len == bytes@.len(),
            count == digits_before(bytes@, len as int, limit as nat),
        decreases limit - count,
    {
        if count >= limit || count >= len {
            break;
        }
        if parse_hex_digit(bytes[len - 1 - count] as char).is_none() {
            break;
        }
        count += 1;
    }
    let start: usize = len - count;
    proof {
        lemma_digits_before(bytes@, len as int, limit as nat);
        encode_utf8_valid_utf8(input@);
    }
    let mut value: u128 = 0;
    let mut at: usize = start;
    while at < len
        invariant
            start <= at <= len,
            len == bytes@.len(),
            len - start <= 32,
            forall|k: int| start <= k < len ==> is_hex(bytes@[k]),
            value == hex_number(bytes@.subrange(start as int, at as int)),
        decreases len - at,
    {
        let digit: u8 = match parse_hex_digit(bytes[at] as char) {
            Some(digit) => digit,
            None => 0,
        };
        proof {
            let done = bytes@.subrange(start as int, at as int);
            let more = bytes@.subrange(start as int, at + 1);
            assert(more.drop_last() =~= done);
            assert(more.last() == bytes@[at as int]);
            lemma_hex_number_bound(done);
            lemma_pow16_grows(done.len(), 31);
            lemma_pow16_values();
        }
        value = value * 16 + digit as u128;
        at += 1;
    }
    proof {
        lemma_hex_number_bound(bytes@.subrange(start as int, len as int));
        lemma_pow16_grows(count as nat, limit as nat);
    }
    let mut rest: usize = start;
    let ended = count < limit && start > 0;
    if ended {
        rest = start - 1;
        while !input.is_char_boundary(rest)
            invariant
                rest < start <= bytes@.len(),
                bytes@ == input.spec_bytes(),
                valid_utf8(bytes@),
                char_start(bytes@, start as int) == char_start(bytes@, rest + 1),
            decreases rest,
        {
            rest -= 1;
        }
    } else {
        proof {
            lemma_boundary_at_ascii(bytes@, start as int);
        }
    }
    let (left, _) = input.split_at(rest);
    (left, value, ended)
}

/// The powers of sixteen that bound the integers of 1, 2, 4, 8 and 16 bytes.
pub proof fn lemma_pow16_values()
    ensures
        pow16(2) == 0x100,
        pow16(4) == 0x1_0000,
        pow16(8) == 0x1_0000_0000,
        pow16(16) == 0x1_0000_0000_0000_0000,
        pow16(31) == 0x1000_0000_0000_0000_0000_0000_0000_0000,
        pow16(32) == 0x1_0000_0000_0000_0000_0000_0000_0000_0000,
{
    reveal_with_fuel(pow16, 33);
}

/// Decodes `LEN` elements of `SIZE` bytes each from the end of `input`, the
/// last element first. Returns the text that is left and the elements.
pub fn parse_hex_values<'a, const LEN: usize, const SIZE: usize>(input: &'a str) -> (parsed: (
    &'a str,
    [u128; LEN],
))
    requires
        SIZE <= 16,
    ensures
        parsed.0.spec_bytes() == remainder_after(input.spec_bytes(), LEN as nat, 2 * SIZE as nat),
        forall|i: int|
            0 <= i < LEN ==> #[trigger] parsed.1@[i] == element(
                input.spec_bytes(),
                (LEN - 1 - i) as nat,
                2 * SIZE as nat,
            ),
        forall|i: int| 0 <= i < LEN ==> #[trigger] parsed.1@[i] < pow16(2 * SIZE as nat),
{
    let ghost bytes = input.spec_bytes();
    let ghost limit = 2 * SIZE as nat;
    let mut rest = input;
    let mut ended = false;
    let mut array: [u128; LEN] = [0;LEN];
    let mut index: usize = LEN;
    proof {
        lemma_pow16_grows(0, limit);
    }
    while index > 0 && !ended
        invariant
            index <= LEN,
            SIZE <= 16,
            bytes == input.spec_bytes(),
            limit == 2 * SIZE as nat,
            progress(bytes, (LEN - index) as nat, limit) == (Progress {
                rest: rest.spec_bytes(),
                ended,
            }),
            forall|i: int|
                index <= i < LEN ==> array@[i] == element(bytes, (LEN - 1 - i) as nat, limit),
            forall|i: int| 0 <= i < index ==> array@[i] == 0,
            forall|i: int| 0 <= i < LEN ==> #[trigger] array@[i] < pow16(limit),
        decreases index,
    {
        index -= 1;
        let (left, value, end) = parse_hex_value::<SIZE>(rest);
        array[index] = value;
        rest = left;
        ended = end;
    }
    proof {
        assert forall|i: int| 0 <= i < index implies array@[i] == element(
            bytes,
            (LEN - 1 - i) as nat,
            limit,
        ) by {
            lemma_decoding_ended(bytes, (LEN - index) as nat, (index - 1 - i) as nat, limit);
        }
        if index > 0 {
            lemma_decoding_ended(bytes, (LEN - index) as nat, index as nat, limit);
        }
    }
    (rest, array)
}

/// Once the decoding has ended, the text that is left stays as it is, and
/// every further element is zero.
pub proof fn lemma_decoding_ended(bytes: Seq<u8>, count: nat, more: nat, limit: nat)
    requires
        progress(bytes, count, limit).ended,
    ensures
        progress(bytes, count + more, limit) == progress(bytes, count, limit),
        element(bytes, count + more, limit) == 0,
    decreases more,
{
    if more > 0 {
        lemma_decoding_ended(bytes, count, (more - 1) as nat, limit);
    }
}

/// Integers, alone or in an array, that hexadecimal text decodes into.
pub trait ParseHex: Sized {
    /// Number of elements of the type.
    spec fn slots() -> nat;

    /// Number of hex digits that one element holds.
    spec fn digits() -> nat;

    /// The elements as numbers, in their order.
    spec fn numbers(&self) -> Seq<nat>;

    /// Decodes the end of `input`: the last element takes the last digits.
    /// Returns the text that is left before the part decoded, and the value.
    fn parse_hex(input: &str) -> (parsed: (&'_ str, Self))
        ensures
            parsed.0.spec_bytes() == remainder_after(
                input.spec_bytes(),
                Self::slots(),
                Self::digits(),
            ),
            parsed.1.numbers() == decoded_numbers(
                input.spec_bytes(),
                Self::slots(),
                Self::digits(),
            ),
    ;
}

impl<const LEN: usize> ParseHex for [u8; LEN] {
    open spec fn slots() -> nat {
        LEN as nat
    }

    open spec fn digits() -> nat {
        2
    }

    open spec fn numbers(&self) -> Seq<nat> {
        Seq::new(LEN as nat, |i: int| self@[i] as nat)
    }

    fn parse_hex(input: &str) -> (parsed: (&str, Self))
        ensures
            forall|i: int|
                0 <= i < LEN ==> #[trigger] parsed.1@[i] == element(
                    input.spec_bytes(),
                    (LEN - 1 - i) as nat,
                    2,
                ),
    {
        let (rest, values) = parse_hex_values::<LEN, 1>(input);
        let mut array: [u8; LEN] = [0;LEN];
        let mut index: usize = 0;
        while index < LEN
            invariant
                index <= LEN,
                forall|i: int| 0 <= i < LEN ==> #[trigger] values@[i] < pow16(2),
                forall|i: int| 0 <= i < index ==> array@[i] == values@[i],
            decreases LEN - index,
        {
            proof {
                lemma_pow16_values();
            }
            array[index] = values[index] as u8;
            index += 1;
        }
        assert(array.numbers() =~= decoded_numbers(input.spec_bytes(), LEN as nat, 2));
        (rest, array)
    }
}

impl<const LEN: usize> ParseHex for [u16; LEN] {
    open spec fn slots() -> nat {
        LEN as nat
    }

    open spec fn digits() -> nat {
        4
    }

    open spec fn numbers(&self) -> Seq<nat> {
        Seq::new(LEN as nat, |i: int| self@[i] as nat)
    }

    fn parse_hex(input: &str) -> (parsed: (&str, Self))
        ensures
            forall|i: int|
                0 <= i < LEN ==> #[trigger] parsed.1@[i] == element(
                    input.spec_bytes(),
                    (LEN - 1 - i) as nat,
                    4,
                ),
    {
        let (rest, values) = parse_hex_values::<LEN, 2>(input);
        let mut array: [u16; LEN] = [0;LEN];
        let mut index: usize = 0;
        while index < LEN
            invariant
                index <= LEN,
                forall|i: int| 0 <= i < LEN ==> #[trigger] values@[i] < pow16(4),
                forall|i: int| 0 <= i < index ==> array@[i] == values@[i],
            decreases LEN - index,
        {
            proof {
                lemma_pow16_values();
            }
            array[index] = values[index] as u16;
            index += 1;
        }
        assert(array.numbers() =~= decoded_numbers(input.spec_bytes(), LEN as nat, 4));
        (rest, array)
    }
}

impl<const LEN: usize> ParseHex for [u32; LEN] {
    open spec fn slots() -> nat {
        LEN as nat
    }

    open spec fn digits() -> nat {
        8
    }

    open spec fn numbers(&self) -> Seq<nat> {
        Seq::new(LEN as nat, |i: int| self@[i] as nat)
    }

    fn parse_hex(input: &str) -> (parsed: (&str, Self))
        ensures
            forall|i: int|
                0 <= i < LEN ==> #[trigger] parsed.1@[i] == element(
                    input.spec_bytes(),
                    (LEN - 1 - i) as nat,
                    8,
                ),
    {
        let (rest, values) = parse_hex_values::<LEN, 4>(input);
        let mut array: [u32; LEN] = [0;LEN];
        let mut index: usize = 0;
        while index < LEN
            invariant
                index <= LEN,
                forall|i: int| 0 <= i < LEN ==> #[trigger] values@[i] < pow16(8),
                forall|i: int| 0 <= i < index ==> array@[i] == values@[i],
            decreases LEN - index,
        {
            proof {
                lemma_pow16_values();
            }
            array[index] = values[index] as u32;
            index += 1;
        }
        assert(array.numbers() =~= decoded_numbers(input.spec_bytes(), LEN as nat, 8));
        (rest, array)
    }
}

impl<const LEN: usize> ParseHex for [u64; LEN] {
    open spec fn slots() -> nat {
        LEN as nat
    }

    open spec fn digits() -> nat {
        16
    }

    open spec fn numbers(&self) -> Seq<nat> {
        Seq::new(LEN as nat, |i: int| self@[i] as nat)
    }

    fn parse_hex(input: &str) -> (parsed: (&str, Self))
        ensures
            forall|i: int|
                0 <= i < LEN ==> #[trigger] parsed.1@[i] == element(
                    input.spec_bytes(),
                    (LEN - 1 - i) as nat,
                    16,
                ),
    {
        let (rest, values) = parse_hex_values::<LEN, 8>(input);
        let mut array: [u64; LEN] = [0;LEN];
        let mut index: usize = 0;
        while index < LEN
            invariant
                index <= LEN,
                forall|i: int| 0 <= i < LEN ==> #[trigger] values@[i] < pow16(16),
                forall|i: int| 0 <= i < index ==> array@[i] == values@[i],
            decreases LEN - index,
        {
            proof {
                lemma_pow16_values();
            }
            array[index] = values[index] as u64;
            index += 1;
        }
        assert(array.numbers() =~= decoded_numbers(input.spec_bytes(), LEN as nat, 16));
        (rest, array)
    }
}

impl<const LEN: usize> ParseHex for [u128; LEN] {
    open spec fn slots() -> nat {
        LEN as nat
    }

    open spec fn digits() -> nat {
        32
    }

    open spec fn numbers(&self) -> Seq<nat> {
        Seq::new(LEN as nat, |i: int| self@[i] as nat)
    }

    fn parse_hex(input: &str) -> (parsed: (&str, Self))
        ensures
            forall|i: int|
                0 <= i < LEN ==> #[trigger] parsed.1@[i] == element(
                    input.spec_bytes(),
                    (LEN - 1 - i) as nat,
                    32,
                ),
    {
        let (rest, array) = parse_hex_values::<LEN, 16>(input);
        assert(array.numbers() =~= decoded_numbers(input.spec_bytes(), LEN as nat, 32));
        (rest, array)
    }
}

impl ParseHex for u128 {
    open spec fn slots() -> nat {
        1
    }

    open spec fn digits() -> nat {
        32
    }

    open spec fn numbers(&self) -> Seq<nat> {
        seq![*self as nat]
    }

    fn parse_hex(input: &str) -> (parsed: (&str, Self))
        ensures
            parsed.1 == decode_value(input.spec_bytes(), 32).value,
            parsed.0.spec_bytes() == input.spec_bytes().take(
                decode_value(input.spec_bytes(), 32).rest,
            ),
    {
        let (rest, value, _) = parse_hex_value::<16>(input);
        proof {
            reveal_with_fuel(progress, 2);
        }
        assert(seq![value as nat] =~= decoded_numbers(input.spec_bytes(), 1, 32));
        (rest, value)
    }
}

/// Whether every byte of `bytes` encodes a hex digit.
pub open spec fn all_hex(bytes: Seq<u8>) -> bool {
    forall|k: int| 0 <= k < bytes.len() ==> is_hex(#[trigger] bytes[k])
}

/// The length that is left of a text of `len` hex digits when `count`
/// elements of `limit` digits each are taken from its end.
pub open spec fn left_of(len: nat, count: nat, limit: nat) -> int {
    if count * limit >= len {
        0
    } else {
        len - count * limit
    }
}

/// Text that has run out decodes to zero.
pub proof fn lemma_empty_text_is_zero(limit: nat)
    ensures
        decode_value(Seq::<u8>::empty(), limit) == (Decoded { value: 0, rest: 0, ended: false }),
{
    let empty = Seq::<u8>::empty();
    assert(empty.subrange(0, 0) =~= empty);
}

/// Once the text has run out, it stays so, and every further element is
/// zero: the elements that no text is left for are filled with zeros.
pub proof fn lemma_text_run_out(bytes: Seq<u8>, count: nat, more: nat, limit: nat)
    requires
        remainder_after(bytes, count, limit).len() == 0,
    ensures
        remainder_after(bytes, count + more, limit).len() == 0,
        element(bytes, count + more, limit) == 0,
    decreases more,
{
    lemma_empty_text_is_zero(limit);
    if more > 0 {
        lemma_text_run_out(bytes, count, (more - 1) as nat, limit);
        let before = progress(bytes, (count + more - 1) as nat, limit);
        assert(before.rest =~= Seq::<u8>::empty());
        assert(progress(bytes, count + more, limit).rest =~= Seq::<u8>::empty());
    } else {
        assert(progress(bytes, count, limit).rest =~= Seq::<u8>::empty());
    }
}

/// In a text of hex digits only, the digits before an offset are as many as
/// the limit, or as the text has.
proof fn lemma_digits_before_all_hex(bytes: Seq<u8>, end: int, limit: nat)
    requires
        all_hex(bytes),
        0 <= end <= bytes.len(),
    ensures
        digits_before(bytes, end, limit) == if end < limit {
            end
        } else {
            limit as int
        },
    decreases limit,
{
    if limit > 0 && end > 0 {
        assert(is_hex(bytes[end - 1]));
        lemma_digits_before_all_hex(bytes, end - 1, (limit - 1) as nat);
    }
}

/// Of a text of hex digits only, every element takes the `limit` digits
/// before the one decoded before it: digits beyond what the elements hold
/// are left over at the start of the text, and the elements hold the last
/// digits of the text.
pub proof fn lemma_digits_only(bytes: Seq<u8>, count: nat, limit: nat)
    requires
        all_hex(bytes),
        limit > 0,
    ensures
        progress(bytes, count, limit) == (Progress {
            rest: bytes.take(left_of(bytes.len(), count, limit)),
            ended: false,
        }),
        element(bytes, count, limit) == hex_number(
            bytes.subrange(
                left_of(bytes.len(), count + 1, limit),
                left_of(bytes.len(), count, limit),
            ),
        ),
    decreases count,
{
    let len = bytes.len();
    let here = left_of(len, count, limit);
    let next = left_of(len, count + 1, limit);
    assert((count + 1) * limit == count * limit + limit) by (nonlinear_arith);
    assert(count * limit >= 0) by (nonlinear_arith);
    if count > 0 {
        let before = (count - 1) as nat;
        assert(count * limit == before * limit + limit) by (nonlinear_arith)
            requires
                before == count - 1,
        ;
        assert(before * limit >= 0) by (nonlinear_arith);
        lemma_digits_only(bytes, before, limit);
        let prior = progress(bytes, before, limit).rest;
        let end = left_of(len, before, limit);
        assert(prior == bytes.take(end));
        assert(all_hex(prior));
        lemma_digits_before_all_hex(prior, end, limit);
        assert(decode_value(prior, limit).rest == here);
        assert(!decode_value(prior, limit).ended);
        assert(prior.take(here) =~= bytes.take(here));
    } else {
        assert(count * limit == 0) by (nonlinear_arith)
            requires
                count == 0,
        ;
        assert(bytes.take(len as int) =~= bytes);
    }
    let text = bytes.take(here);
    assert(all_hex(text));
    lemma_digits_before_all_hex(text, here, limit);
    assert(text.subrange(next, here) =~= bytes.subrange(next, here));
}

} // verus!
