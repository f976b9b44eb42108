//! The grammar of bencode as mathematical functions from bytes to values.
//!
//! A byte string is `<length>:<payload>`, an integer is `i<number>e`, a list is
//! `l<value>*e` and a dictionary is `d(<key><value>)*e`. Every function here
//! reads the input from a position onwards and, where it finds what it
//! describes, gives the value and the position just behind it.

use crate::error::MalformedInput;
use crate::model::{insert_entry, Bencode};
use vstd::prelude::*;

verus! {

/// The byte `:` that ends a length prefix.
pub const COLON: u8 = 0x3a;

/// The byte `e` that ends an integer, a list and a dictionary.
pub const END: u8 = 0x65;

/// The byte `i` that starts an integer.
pub const INTEGER: u8 = 0x69;

/// The byte `l` that starts a list.
pub const LIST: u8 = 0x6c;

/// The byte `d` that starts a dictionary.
pub const DICTIONARY: u8 = 0x64;

/// The byte `-`.
pub const MINUS: u8 = 0x2d;

/// The byte `+`.
pub const PLUS: u8 = 0x2b;

/// The byte `0`.
pub const ZERO: u8 = 0x30;

/// The byte `9`.
pub const NINE: u8 = 0x39;

/// True for the bytes `0` to `9`.
pub open spec fn is_digit(byte: u8) -> bool {
    ZERO <= byte <= NINE
}

/// True when every byte of `text` is a decimal digit.
pub open spec fn all_digits(text: Seq<u8>) -> bool {
    forall|i: int| 0 <= i < text.len() ==> is_digit(#[trigger] text[i])
}

/// The number that a run of decimal digits denotes, most significant digit
/// first; leading zeros count for nothing.
pub open spec fn decimal_value(digits: Seq<u8>) -> nat
    decreases digits.len(),
{
    if digits.len() == 0 {
        0
    } else {
        (decimal_value(digits.drop_last()) * 10 + (digits.last() - ZERO)) as nat
    }
}

/// True when `index` is the first place at or behind `from` where `input`
/// holds `byte`.
pub open spec fn is_first_at(input: Seq<u8>, from: int, byte: u8, index: int) -> bool {
    &&& 0 <= from <= index < input.len()
    &&& input[index] == byte
    &&& forall|j: int| from <= j < index ==> #[trigger] input[j] != byte
}

/// The first place at or behind `from` where `input` holds `byte`.
pub open spec fn find_byte(input: Seq<u8>, from: int, byte: u8) -> Option<int> {
    if exists|i: int| is_first_at(input, from, byte, i) {
        Some(choose|i: int| is_first_at(input, from, byte, i))
    } else {
        None
    }
}

/// The byte string `<length>:<payload>` at `pos`: the payload and the position
/// behind it. The length is every byte up to the first `:`, and has to be a run
/// of decimal digits; the payload is exactly that many bytes.
pub open spec fn parse_byte_string(input: Seq<u8>, pos: int) -> Result<(Seq<u8>, int), MalformedInput> {
    if !(0 <= pos < input.len()) {
        Err(MalformedInput::UnexpectedEnd)
    } else {
        match find_byte(input, pos, COLON) {
            None => Err(MalformedInput::MissingDelimiter),
            Some(colon) => {
                let length = input.subrange(pos, colon);
                let start = colon + 1;
                if length.len() == 0 || !all_digits(length) {
                    Err(MalformedInput::InvalidLength)
                } else if start + decimal_value(length) > input.len() {
                    Err(MalformedInput::TruncatedPayload)
                } else {
                    let end = start + decimal_value(length);
                    Ok((input.subrange(start, end), end))
                }
            },
        }
    }
}

/// The number of bytes that the sign takes at the front of `text`: one for a
/// leading `-` or `+`, none otherwise.
pub open spec fn sign_len(text: Seq<u8>) -> int {
    if text.len() > 0 && (text[0] == MINUS || text[0] == PLUS) {
        1
    } else {
        0
    }
}

/// True when `text` is an optional sign followed by at least one decimal digit
/// and nothing else.
pub open spec fn is_signed_decimal(text: Seq<u8>) -> bool {
    let digits = text.subrange(sign_len(text), text.len() as int);
    digits.len() > 0 && all_digits(digits)
}

/// The number that a signed decimal denotes.
pub open spec fn signed_value(text: Seq<u8>) -> int {
    let magnitude = decimal_value(text.subrange(sign_len(text), text.len() as int));
    if text.len() > 0 && text[0] == MINUS {
        -magnitude
    } else {
        magnitude as int
    }
}

/// The integer `i<number>e` at `pos`: the number and the position behind the
/// `e`. The number is every byte between the `i` and the first `e`, and has to
/// be a signed decimal that fits into 64 bits.
pub open spec fn parse_integer(input: Seq<u8>, pos: int) -> Result<(int, int), MalformedInput> {
    if !(0 <= pos < input.len()) {
        Err(MalformedInput::UnexpectedEnd)
    } else if input[pos] != INTEGER {
        Err(MalformedInput::UnrecognizedTag)
    } else {
        match find_byte(input, pos + 1, END) {
            None => Err(MalformedInput::MissingTerminator),
            Some(end) => {
                let text = input.subrange(pos + 1, end);
                if !is_signed_decimal(text) {
                    Err(MalformedInput::InvalidInteger)
                } else if !(i64::MIN <= signed_value(text) <= i64::MAX) {
                    Err(MalformedInput::IntegerOverflow)
                } else {
                    Ok((signed_value(text), end + 1))
                }
            },
        }
    }
}

/// The dictionary that results from inserting `pairs` one after the other: of
/// two pairs with the same key the later one gives the value, the earlier one
/// the place.
pub open spec fn dictionary_of(pairs: Seq<(Seq<u8>, Bencode)>) -> Seq<(Seq<u8>, Bencode)>
    decreases pairs.len(),
{
    if pairs.len() == 0 {
        Seq::empty()
    } else {
        insert_entry(dictionary_of(pairs.drop_last()), pairs.last().0, pairs.last().1)
    }
}

/// The value at `pos` and the position behind it. `depth` is the number of
/// lists and dictionaries that may still be opened inside one another.
///
/// The first byte decides: a digit starts a byte string, `i` an integer, `l` a
/// list and `d` a dictionary.
pub open spec fn parse_value(input: Seq<u8>, pos: int, depth: nat) -> Result<
    (Bencode, int),
    MalformedInput,
>
    decreases depth, input.len() - pos, 1nat,
{
    if !(0 <= pos < input.len()) {
        Err(MalformedInput::UnexpectedEnd)
    } else if is_digit(input[pos]) {
        match parse_byte_string(input, pos) {
            Ok((bytes, next)) => Ok((Bencode::Bytes(bytes), next)),
            Err(e) => Err(e),
        }
    } else if input[pos] == INTEGER {
        match parse_integer(input, pos) {
            Ok((number, next)) => Ok((Bencode::Int(number), next)),
            Err(e) => Err(e),
        }
    } else if input[pos] == LIST {
        match parse_list(input, pos, depth) {
            Ok((items, next)) => Ok((Bencode::List(items), next)),
            Err(e) => Err(e),
        }
    } else if input[pos] == DICTIONARY {
        match parse_dictionary(input, pos, depth) {
            Ok((entries, next)) => Ok((Bencode::Dict(entries), next)),
            Err(e) => Err(e),
        }
    } else {
        Err(MalformedInput::UnrecognizedTag)
    }
}

/// The list `l<value>*e` at `pos`: its items and the position behind the
/// closing `e`. The list itself counts towards `depth`.
pub open spec fn parse_list(input: Seq<u8>, pos: int, depth: nat) -> Result<
    (Seq<Bencode>, int),
    MalformedInput,
>
    decreases depth, input.len() - pos, 0nat,
{
    if !(0 <= pos < input.len()) {
        Err(MalformedInput::UnexpectedEnd)
    } else if input[pos] != LIST {
        Err(MalformedInput::UnrecognizedTag)
    } else if depth == 0 {
        Err(MalformedInput::NestingTooDeep)
    } else {
        parse_items(input, pos + 1, (depth - 1) as nat)
    }
}

/// The dictionary `d(<key><value>)*e` at `pos`: its entries and the position
/// behind the closing `e`. Where a key stands twice, the later value is kept
/// in the place of the earlier one. The dictionary itself counts towards
/// `depth`.
pub open spec fn parse_dictionary(input: Seq<u8>, pos: int, depth: nat) -> Result<
    (Seq<(Seq<u8>, Bencode)>, int),
    MalformedInput,
>
    decreases depth, input.len() - pos, 0nat,
{
    if !(0 <= pos < input.len()) {
        Err(MalformedInput::UnexpectedEnd)
    } else if input[pos] != DICTIONARY {
        Err(MalformedInput::UnrecognizedTag)
    } else if depth == 0 {
        Err(MalformedInput::NestingTooDeep)
    } else {
        match parse_pairs(input, pos + 1, (depth - 1) as nat) {
            Ok((pairs, next)) => Ok((dictionary_of(pairs), next)),
            Err(e) => Err(e),
        }
    }
}

/// The values from `pos` up to the `e` that closes the list, and the position
/// behind that `e`.
///
/// A value ends behind the place where it starts (`lemma_parse_value_advances`);
/// the test for it is here so that the recursion can be seen to end.
pub open spec fn parse_items(input: Seq<u8>, pos: int, depth: nat) -> Result<
    (Seq<Bencode>, int),
    MalformedInput,
>
    decreases depth, input.len() - pos, 2nat,
{
    if !(0 <= pos < input.len()) {
        Err(MalformedInput::MissingTerminator)
    } else if input[pos] == END {
        Ok((Seq::empty(), pos + 1))
    } else {
        match parse_value(input, pos, depth) {
            Err(e) => Err(e),
            Ok((item, next)) => if pos < next <= input.len() {
                match parse_items(input, next, depth) {
                    Ok((rest, end)) => Ok((seq![item] + rest, end)),
                    Err(e) => Err(e),
                }
            } else {
                Err(MalformedInput::MissingTerminator)
            },
        }
    }
}

/// The keys and values from `pos` up to the `e` that closes the dictionary, in
/// the order in which they stand, and the position behind that `e`. A key has
/// to be a byte string.
///
/// As in `parse_items`, the test on the position behind the value always holds.
pub open spec fn parse_pairs(input: Seq<u8>, pos: int, depth: nat) -> Result<
    (Seq<(Seq<u8>, Bencode)>, int),
    MalformedInput,
>
    decreases depth, input.len() - pos, 2nat,
{
    if !(0 <= pos < input.len()) {
        Err(MalformedInput::MissingTerminator)
    } else if input[pos] == END {
        Ok((Seq::empty(), pos + 1))
    } else if !is_digit(input[pos]) {
        Err(MalformedInput::KeyNotByteString)
    } else {
        match parse_byte_string(input, pos) {
            Err(e) => Err(e),
            Ok((key, after_key)) => match parse_value(input, after_key, depth) {
                Err(e) => Err(e),
                Ok((value, next)) => if pos < next <= input.len() {
                    match parse_pairs(input, next, depth) {
                        Ok((rest, end)) => Ok((seq![(key, value)] + rest, end)),
                        Err(e) => Err(e),
                    }
                } else {
                    Err(MalformedInput::MissingTerminator)
                },
            },
        }
    }
}

/// The first place at or behind `from` that holds `byte` is the one that
/// `find_byte` names.
pub proof fn lemma_find_byte_first(input: Seq<u8>, from: int, byte: u8, index: int)
    requires
        is_first_at(input, from, byte, index),
    ensures
        find_byte(input, from, byte) == Some(index),
{
    let chosen = choose|i: int| is_first_at(input, from, byte, i);
    assert(is_first_at(input, from, byte, chosen));
    if chosen < index {
        assert(input[chosen] != byte);
    } else if index < chosen {
        assert(input[index] != byte);
    }
}

/// A byte that does not occur at or behind `from` is not found.
pub proof fn lemma_find_byte_absent(input: Seq<u8>, from: int, byte: u8)
    requires
        forall|j: int| from <= j < input.len() ==> #[trigger] input[j] != byte,
    ensures
        find_byte(input, from, byte) is None,
{
    if exists|i: int| is_first_at(input, from, byte, i) {
        let i = choose|i: int| is_first_at(input, from, byte, i);
        assert(input[i] != byte);
    }
}

/// The digits in front give a number that is no larger than the whole run
/// gives.
pub proof fn lemma_decimal_value_prefix(digits: Seq<u8>, len: int)
    requires
        0 <= len <= digits.len(),
        all_digits(digits),
    ensures
        decimal_value(digits.subrange(0, len)) <= decimal_value(digits),
    decreases digits.len() - len,
{
    if len == digits.len() {
        assert(digits.subrange(0, len) =~= digits);
    } else {
        let shorter = digits.drop_last();
        assert(is_digit(digits[digits.len() - 1]));
        assert forall|i: int| 0 <= i < shorter.len() implies is_digit(#[trigger] shorter[i]) by {
            assert(shorter[i] == digits[i]);
        }
        lemma_decimal_value_prefix(shorter, len);
        assert(shorter.subrange(0, len) =~= digits.subrange(0, len));
    }
}

/// A byte string ends behind the place where it starts, and inside the input.
pub proof fn lemma_parse_byte_string_advances(input: Seq<u8>, pos: int)
    ensures
        parse_byte_string(input, pos) matches Ok((_, next)) ==> pos < next <= input.len(),
{
}

/// An integer ends behind the place where it starts, and inside the input.
pub proof fn lemma_parse_integer_advances(input: Seq<u8>, pos: int)
    ensures
        parse_integer(input, pos) matches Ok((_, next)) ==> pos < next <= input.len(),
{
}

/// A value ends behind the place where it starts, and inside the input.
pub proof fn lemma_parse_value_advances(input: Seq<u8>, pos: int, depth: nat)
    ensures
        parse_value(input, pos, depth) matches Ok((_, next)) ==> pos < next <= input.len(),
    decreases depth, input.len() - pos, 1nat,
{
    if 0 <= pos < input.len() {
        if is_digit(input[pos]) {
            lemma_parse_byte_string_advances(input, pos);
        } else if input[pos] == INTEGER {
            lemma_parse_integer_advances(input, pos);
        } else if input[pos] == LIST {
            if depth > 0 {
                lemma_parse_items_advances(input, pos + 1, (depth - 1) as nat);
            }
        } else if input[pos] == DICTIONARY {
            if depth > 0 {
                lemma_parse_pairs_advances(input, pos + 1, (depth - 1) as nat);
            }
        }
    }
}

/// The items of a list end behind the place where they start, and inside the
/// input.
pub proof fn lemma_parse_items_advances(input: Seq<u8>, pos: int, depth: nat)
    ensures
        parse_items(input, pos, depth) matches Ok((_, next)) ==> pos < next <= input.len(),
    decreases depth, input.len() - pos, 2nat,
{
    if 0 <= pos < input.len() && input[pos] != END {
        lemma_parse_value_advances(input, pos, depth);
        if let Ok((_, next)) = parse_value(input, pos, depth) {
            lemma_parse_items_advances(input, next, depth);
        }
    }
}

/// The entries of a dictionary end behind the place where they start, and
/// inside the input.
pub proof fn lemma_parse_pairs_advances(input: Seq<u8>, pos: int, depth: nat)
    ensures
        parse_pairs(input, pos, depth) matches Ok((_, next)) ==> pos < next <= input.len(),
    decreases depth, input.len() - pos, 2nat,
{
    if 0 <= pos < input.len() && input[pos] != END && is_digit(input[pos]) {
        lemma_parse_byte_string_advances(input, pos);
        if let Ok((_, after_key)) = parse_byte_string(input, pos) {
            lemma_parse_value_advances(input, after_key, depth);
            if let Ok((_, next)) = parse_value(input, after_key, depth) {
                lemma_parse_pairs_advances(input, next, depth);
            }
        }
    }
}

} // verus!
