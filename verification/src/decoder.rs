//! The decoder: executable functions that read an encoded value from a buffer
//! at a cursor, each proved to compute what the grammar says.

use crate::error::MalformedInput;
use crate::grammar::{
    all_digits, decimal_value, dictionary_of, find_byte, is_digit, lemma_decimal_value_prefix,
    lemma_find_byte_absent, lemma_find_byte_first, lemma_parse_byte_string_advances,
    lemma_parse_value_advances, parse_byte_string, parse_dictionary, parse_integer, parse_items,
    parse_list, parse_pairs, parse_value, sign_len, COLON, DICTIONARY, END, INTEGER, LIST, MINUS,
    NINE, PLUS, ZERO,
};
use crate::model::Bencode;
use crate::value::{view_of_items, Dictionary, Value};
use vstd::prelude::*;
use vstd::slice::{slice_subrange, slice_to_vec};

verus! {

/// The nesting of lists and dictionaries that `decode_command` and
/// `decode_torrent` accept.
pub const MAX_NESTING_DEPTH: usize = 512;

/// Tests whether `byte` is a decimal digit.
fn digit(byte: u8) -> (yes: bool)
    ensures
        yes == is_digit(byte),
{
    ZERO <= byte && byte <= NINE
}

/// Searches `input` from `from` onwards for `byte`.
fn find(input: &[u8], from: usize, byte: u8) -> (found: Option<usize>)
    ensures
        match found {
            Some(index) => find_byte(input@, from as int, byte) == Some(index as int),
            None => find_byte(input@, from as int, byte) is None,
        },
{
    let mut i: usize = from;
    while i < input.len()
        invariant
            from <= i,
            forall|j: int| from <= j < i && j < input.len() ==> #[trigger] input@[j] != byte,
        decreases input.len() - i,
    {
        if input[i] == byte {
            proof {
                lemma_find_byte_first(input@, from as int, byte, i as int);
            }
            return Some(i);
        }
        i += 1;
    }
    proof {
        lemma_find_byte_absent(input@, from as int, byte);
    }
    None
}

/// Tests whether `input` holds nothing but decimal digits from `from` up to
/// `to`.
fn digits_only(input: &[u8], from: usize, to: usize) -> (only: bool)
    requires
        from <= to <= input.len(),
    ensures
        only == all_digits(input@.subrange(from as int, to as int)),
{
    let ghost text = input@.subrange(from as int, to as int);
    let mut i: usize = from;
    while i < to
        invariant
            from <= i <= to <= input.len(),
            text == input@.subrange(from as int, to as int),
            forall|j: int| 0 <= j < i - from ==> is_digit(#[trigger] text[j]),
        decreases to - i,
    {
        if !digit(input[i]) {
            assert(!is_digit(text[i - from]));
            return false;
        }
        i += 1;
    }
    true
}

/// Reads the decimal number that stands in `input` from `from` up to `to`,
/// unless it is larger than `limit`.
fn decimal_up_to(input: &[u8], from: usize, to: usize, limit: u64) -> (number: Option<u64>)
    requires
        from <= to <= input.len(),
        all_digits(input@.subrange(from as int, to as int)),
    ensures
        match number {
            Some(n) => n == decimal_value(input@.subrange(from as int, to as int)),
            None => true,
        },
        number is Some <==> decimal_value(input@.subrange(from as int, to as int)) <= limit,
{
    let ghost text = input@.subrange(from as int, to as int);
    let mut value: u64 = 0;
    let mut i: usize = from;
    assert(text.subrange(0, 0) =~= Seq::<u8>::empty());
    while i < to
        invariant
            from <= i <= to <= input.len(),
            text == input@.subrange(from as int, to as int),
            all_digits(text),
            value == decimal_value(text.subrange(0, i - from)),
            value <= limit,
        decreases to - i,
    {
        let ghost longer = text.subrange(0, i - from + 1);
        proof {
            assert(longer.drop_last() =~= text.subrange(0, i - from));
            assert(longer.last() == input@[i as int]);
            assert(is_digit(text[i - from]));
            lemma_decimal_value_prefix(text, i - from + 1);
        }
        let digit: u64 = (input[i] - ZERO) as u64;
        if digit > limit || value > (limit - digit) / 10 {
            assert(decimal_value(longer) > limit);
            return None;
        }
        value = value * 10 + digit;
        i += 1;
    }
    assert(text.subrange(0, to - from) =~= text);
    Some(value)
}

/// Reads the byte string `<length>:<payload>` that stands at `pos` and gives
/// the payload and the position behind it.
pub fn handle_string(input: &[u8], pos: usize) -> (result: Result<(Vec<u8>, usize), MalformedInput>)
    ensures
        match result {
            Ok((bytes, next)) => parse_byte_string(input@, pos as int) == Ok::<
                (Seq<u8>, int),
                MalformedInput,
            >((bytes@, next as int)),
            Err(e) => parse_byte_string(input@, pos as int) == Err::<(Seq<u8>, int), MalformedInput>(
                e,
            ),
        },
{
    if pos >= input.len() {
        return Err(MalformedInput::UnexpectedEnd);
    }
    let colon = match find(input, pos, COLON) {
        Some(colon) => colon,
        None => {
            return Err(MalformedInput::MissingDelimiter);
        },
    };
    if colon == pos || !digits_only(input, pos, colon) {
        return Err(MalformedInput::InvalidLength);
    }
    let start = colon + 1;
    let room = input.len() - start;
    match decimal_up_to(input, pos, colon, room as u64) {
        None => Err(MalformedInput::TruncatedPayload),
        Some(length) => {
            let end = start + length as usize;
            Ok((slice_to_vec(slice_subrange(input, start, end)), end))
        },
    }
}

/// Reads the integer `i<number>e` that stands at `pos` and gives the number
/// and the position behind the `e`.
pub fn handle_number(input: &[u8], pos: usize) -> (result: Result<(i64, usize), MalformedInput>)
    ensures
        match result {
            Ok((number, next)) => parse_integer(input@, pos as int) == Ok::<
                (int, int),
                MalformedInput,
            >((number as int, next as int)),
            Err(e) => parse_integer(input@, pos as int) == Err::<(int, int), MalformedInput>(e),
        },
{
    if pos >= input.len() {
        return Err(MalformedInput::UnexpectedEnd);
    }
    if input[pos] != INTEGER {
        return Err(MalformedInput::UnrecognizedTag);
    }
    let first = pos + 1;
    let end = match find(input, first, END) {
        Some(end) => end,
        None => {
            return Err(MalformedInput::MissingTerminator);
        },
    };
    let negative = first < end && input[first] == MINUS;
    let signed = first < end && (input[first] == MINUS || input[first] == PLUS);
    let digits_from = if signed {
        first + 1
    } else {
        first
    };
    let ghost text = input@.subrange(first as int, end as int);
    proof {
        if first < end {
            assert(text[0] == input@[first as int]);
        }
        assert(sign_len(text) == digits_from - first);
        assert(text.subrange(sign_len(text), text.len() as int) =~= input@.subrange(
            digits_from as int,
            end as int,
        ));
    }
    if digits_from == end || !digits_only(input, digits_from, end) {
        return Err(MalformedInput::InvalidInteger);
    }
    let limit: u64 = if negative {
        0x8000_0000_0000_0000
    } else {
        0x7fff_ffff_ffff_ffff
    };
    match decimal_up_to(input, digits_from, end, limit) {
        None => Err(MalformedInput::IntegerOverflow),
        Some(magnitude) => {
            let number: i64 = if !negative {
                magnitude as i64
            } else if magnitude == 0x8000_0000_0000_0000 {
                i64::MIN
            } else {
                -(magnitude as i64)
            };
            Ok((number, end + 1))
        },
    }
}

/// What the items of a list come to when `front` has been read already and
/// `rest` is what reading on gives.
spec fn items_after(front: Seq<Bencode>, rest: Result<(Seq<Bencode>, int), MalformedInput>)
    -> Result<(Seq<Bencode>, int), MalformedInput> {
    match rest {
        Ok((items, end)) => Ok((front + items, end)),
        Err(e) => Err(e),
    }
}

/// What the entries of a dictionary come to when `front` has been read
/// already and `rest` is what reading on gives.
spec fn pairs_after(
    front: Seq<(Seq<u8>, Bencode)>,
    rest: Result<(Seq<(Seq<u8>, Bencode)>, int), MalformedInput>,
) -> Result<(Seq<(Seq<u8>, Bencode)>, int), MalformedInput> {
    match rest {
        Ok((pairs, end)) => Ok((front + pairs, end)),
        Err(e) => Err(e),
    }
}

/// Reads the value that stands at `pos` and gives it with the position behind
/// it. `depth` is the number of lists and dictionaries that may be opened
/// inside one another.
pub fn decode_bencoded_value(input: &[u8], pos: usize, depth: usize) -> (result: Result<
    (Value, usize),
    MalformedInput,
>)
    ensures
        match result {
            Ok((value, next)) => parse_value(input@, pos as int, depth as nat) == Ok::<
                (Bencode, int),
                MalformedInput,
            >((value@, next as int)),
            Err(e) => parse_value(input@, pos as int, depth as nat) == Err::<
                (Bencode, int),
                MalformedInput,
            >(e),
        },
    decreases depth, 1nat,
{
    if pos >= input.len() {
        return Err(MalformedInput::UnexpectedEnd);
    }
    let tag = input[pos];
    if digit(tag) {
        match handle_string(input, pos) {
            Ok((bytes, next)) => Ok((Value::ByteString(bytes), next)),
            Err(e) => Err(e),
        }
    } else if tag == INTEGER {
        match handle_number(input, pos) {
            Ok((number, next)) => Ok((Value::Integer(number), next)),
            Err(e) => Err(e),
        }
    } else if tag == LIST {
        match handle_list(input, pos, depth) {
            Ok((items, next)) => Ok((Value::List(items), next)),
            Err(e) => Err(e),
        }
    } else if tag == DICTIONARY {
        match handle_dictionary(input, pos, depth) {
            Ok((dict, next)) => Ok((Value::Dictionary(dict), next)),
            Err(e) => Err(e),
        }
    } else {
        Err(MalformedInput::UnrecognizedTag)
    }
}

/// Reads the list `l<value>*e` that stands at `pos` and gives its items with
/// the position behind the closing `e`. The list itself counts towards
/// `depth`.
pub fn handle_list(input: &[u8], pos: usize, depth: usize) -> (result: Result<
    (Vec<Value>, usize),
    MalformedInput,
>)
    ensures
        match result {
            Ok((items, next)) => parse_list(input@, pos as int, depth as nat) == Ok::<
                (Seq<Bencode>, int),
                MalformedInput,
            >((view_of_items(items@), next as int)),
            Err(e) => parse_list(input@, pos as int, depth as nat) == Err::<
                (Seq<Bencode>, int),
                MalformedInput,
            >(e),
        },
    decreases depth, 0nat,
{
    if pos >= input.len() {
        return Err(MalformedInput::UnexpectedEnd);
    }
    if input[pos] != LIST {
        return Err(MalformedInput::UnrecognizedTag);
    }
    if depth == 0 {
        return Err(MalformedInput::NestingTooDeep);
    }
    let inner = depth - 1;
    let mut items: Vec<Value> = Vec::new();
    let mut cur = pos + 1;
    assert(view_of_items(items@) + Seq::<Bencode>::empty() =~= Seq::<Bencode>::empty());
    loop
        invariant
            pos < cur <= input.len(),
            input@[pos as int] == LIST,
            inner == depth - 1,
            parse_items(input@, pos + 1, inner as nat) == items_after(
                view_of_items(items@),
                parse_items(input@, cur as int, inner as nat),
            ),
        decreases input.len() - cur,
    {
        if cur >= input.len() {
            return Err(MalformedInput::MissingTerminator);
        }
        if input[cur] == END {
            assert(view_of_items(items@) + Seq::<Bencode>::empty() =~= view_of_items(items@));
            return Ok((items, cur + 1));
        }
        match decode_bencoded_value(input, cur, inner) {
            Err(e) => {
                return Err(e);
            },
            Ok((item, next)) => {
                proof {
                    lemma_parse_value_advances(input@, cur as int, inner as nat);
                    let front = view_of_items(items@);
                    let longer = view_of_items(items@.push(item));
                    assert(longer =~= front.push(item@));
                    match parse_items(input@, next as int, inner as nat) {
                        Ok((rest, _)) => {
                            assert(front + (seq![item@] + rest) =~= longer + rest);
                        },
                        Err(_) => {},
                    }
                }
                items.push(item);
                cur = next;
            },
        }
    }
}

/// Reads the dictionary `d(<key><value>)*e` that stands at `pos` and gives it
/// with the position behind the closing `e`. Where a key stands twice, the
/// later value is kept in the place of the earlier one. The dictionary itself
/// counts towards `depth`.
pub fn handle_dictionary(input: &[u8], pos: usize, depth: usize) -> (result: Result<
    (Dictionary, usize),
    MalformedInput,
>)
    ensures
        match result {
            Ok((dict, next)) => parse_dictionary(input@, pos as int, depth as nat) == Ok::<
                (Seq<(Seq<u8>, Bencode)>, int),
                MalformedInput,
            >((dict@, next as int)),
            Err(e) => parse_dictionary(input@, pos as int, depth as nat) == Err::<
                (Seq<(Seq<u8>, Bencode)>, int),
                MalformedInput,
            >(e),
        },
    decreases depth, 0nat,
{
    if pos >= input.len() {
        return Err(MalformedInput::UnexpectedEnd);
    }
    if input[pos] != DICTIONARY {
        return Err(MalformedInput::UnrecognizedTag);
    }
    if depth == 0 {
        return Err(MalformedInput::NestingTooDeep);
    }
    let inner = depth - 1;
    let mut dict = Dictionary::new();
    let ghost mut pairs: Seq<(Seq<u8>, Bencode)> = Seq::empty();
    let mut cur = pos + 1;
    assert(pairs + Seq::<(Seq<u8>, Bencode)>::empty() =~= pairs);
    loop
        invariant
            pos < cur <= input.len(),
            input@[pos as int] == DICTIONARY,
            inner == depth - 1,
            dict@ == dictionary_of(pairs),
            parse_pairs(input@, pos + 1, inner as nat) == pairs_after(
                pairs,
                parse_pairs(input@, cur as int, inner as nat),
            ),
        decreases input.len() - cur,
    {
        if cur >= input.len() {
            return Err(MalformedInput::MissingTerminator);
        }
        let tag = input[cur];
        if tag == END {
            assert(pairs + Seq::<(Seq<u8>, Bencode)>::empty() =~= pairs);
            return Ok((dict, cur + 1));
        }
        if !digit(tag) {
            return Err(MalformedInput::KeyNotByteString);
        }
        let (key, after_key) = match handle_string(input, cur) {
            Ok(read) => read,
            Err(e) => {
                return Err(e);
            },
        };
        proof {
            lemma_parse_byte_string_advances(input@, cur as int);
        }
        match decode_bencoded_value(input, after_key, inner) {
            Err(e) => {
                return Err(e);
            },
            Ok((value, next)) => {
                proof {
                    lemma_parse_value_advances(input@, after_key as int, inner as nat);
                    let longer = pairs.push((key@, value@));
                    assert(longer.drop_last() =~= pairs);
                    match parse_pairs(input@, next as int, inner as nat) {
                        Ok((rest, _)) => {
                            assert(pairs + (seq![(key@, value@)] + rest) =~= longer + rest);
                        },
                        Err(_) => {},
                    }
                    pairs = longer;
                }
                dict.insert(key, value);
                cur = next;
            },
        }
    }
}

/// Reads the value at the front of `input`, with lists and dictionaries
/// nested up to `MAX_NESTING_DEPTH` deep. What follows the value is not
/// looked at.
pub fn decode_command(input: &[u8]) -> (result: Result<Value, MalformedInput>)
    ensures
        match result {
            Ok(value) => parse_value(input@, 0, MAX_NESTING_DEPTH as nat) matches Ok((v, _))
                && v == value@,
            Err(e) => parse_value(input@, 0, MAX_NESTING_DEPTH as nat) == Err::<
                (Bencode, int),
                MalformedInput,
            >(e),
        },
{
    match decode_bencoded_value(input, 0, MAX_NESTING_DEPTH) {
        Ok((value, _)) => Ok(value),
        Err(e) => Err(e),
    }
}

} // verus!
