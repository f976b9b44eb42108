//! What holds of the grammar for every input: canonical encodings decode to
//! what they encode, a value reads the same wherever it stands, lists are made
//! of their items' encodings, and a dictionary gives each key its last value.

use crate::error::MalformedInput;
use crate::grammar::{
    all_digits, decimal_value, dictionary_of, find_byte, is_digit, is_first_at, is_signed_decimal,
    lemma_find_byte_first, lemma_parse_items_advances, lemma_parse_pairs_advances,
    lemma_parse_value_advances, parse_byte_string, parse_dictionary, parse_integer, parse_items,
    parse_pairs, parse_value, sign_len, signed_value, COLON, END, INTEGER, LIST, MINUS, PLUS,
    ZERO,
};
use crate::model::{
    keys_unique, lemma_index_of_absent, lemma_insert_keeps_keys_unique, lemma_lookup_after_insert,
    lookup, Bencode,
};
use vstd::prelude::*;

verus! {

/// The decimal digits of `n`, without leading zeros.
pub open spec fn decimal_text(n: nat) -> Seq<u8>
    decreases n,
{
    if n < 10 {
        seq![(ZERO + n) as u8]
    } else {
        decimal_text(n / 10).push((ZERO + n % 10) as u8)
    }
}

/// The decimal digits of `n`, with `-` in front where `n` is negative.
pub open spec fn signed_text(n: int) -> Seq<u8> {
    if n < 0 {
        seq![MINUS] + decimal_text((-n) as nat)
    } else {
        decimal_text(n as nat)
    }
}

/// The digits of a number are digits, at least one, and denote the number.
pub proof fn lemma_decimal_text(n: nat)
    ensures
        decimal_text(n).len() > 0,
        all_digits(decimal_text(n)),
        decimal_value(decimal_text(n)) == n,
    decreases n,
{
    let text = decimal_text(n);
    if n < 10 {
        assert(text.drop_last() =~= Seq::<u8>::empty());
        assert(decimal_value(text.drop_last()) == 0);
    } else {
        let front = decimal_text(n / 10);
        lemma_decimal_text(n / 10);
        assert(text.drop_last() =~= front);
        assert forall|i: int| 0 <= i < text.len() implies is_digit(#[trigger] text[i]) by {
            if i < front.len() {
                assert(text[i] == front[i]);
            }
        }
    }
}

/// The byte string `<length>:<payload>` reads as its payload, whatever digits
/// spell the length and whatever follows the payload.
pub proof fn lemma_byte_string_reads(length: Seq<u8>, payload: Seq<u8>, rest: Seq<u8>)
    requires
        length.len() > 0,
        all_digits(length),
        decimal_value(length) == payload.len(),
    ensures
        parse_byte_string(length + seq![COLON] + payload + rest, 0) == Ok::<
            (Seq<u8>, int),
            MalformedInput,
        >((payload, (length.len() + 1 + payload.len()) as int)),
{
    let input = length + seq![COLON] + payload + rest;
    let colon = length.len() as int;
    assert(is_first_at(input, 0, COLON, colon)) by {
        assert forall|j: int| 0 <= j < colon implies #[trigger] input[j] != COLON by {
            assert(input[j] == length[j]);
            assert(is_digit(length[j]));
        }
    }
    lemma_find_byte_first(input, 0, COLON, colon);
    assert(input.subrange(0, colon) =~= length);
    assert(input.subrange(colon + 1, colon + 1 + payload.len()) =~= payload);
}

/// For every number `n` and every payload of `n` bytes, `<n>:<payload>` decodes
/// to the payload, and nothing of the input is left over.
pub proof fn theorem_byte_string_round_trip(payload: Seq<u8>, depth: nat)
    ensures
        ({
            let input = decimal_text(payload.len()) + seq![COLON] + payload;
            parse_value(input, 0, depth) == Ok::<(Bencode, int), MalformedInput>(
                (Bencode::Bytes(payload), input.len() as int),
            )
        }),
{
    let length = decimal_text(payload.len());
    let input = length + seq![COLON] + payload;
    lemma_decimal_text(payload.len());
    lemma_byte_string_reads(length, payload, Seq::empty());
    assert(input + Seq::<u8>::empty() =~= input);
    assert(input[0] == length[0]);
    assert(is_digit(length[0]));
}

/// For every number `n` that fits into 64 bits, `i<n>e` decodes to `n`, and
/// nothing of the input is left over.
pub proof fn theorem_integer_round_trip(n: int, depth: nat)
    requires
        i64::MIN <= n <= i64::MAX,
    ensures
        ({
            let input = seq![INTEGER] + signed_text(n) + seq![END];
            parse_value(input, 0, depth) == Ok::<(Bencode, int), MalformedInput>(
                (Bencode::Int(n), input.len() as int),
            )
        }),
{
    let text = signed_text(n);
    let input = seq![INTEGER] + text + seq![END];
    let magnitude: nat = if n < 0 {
        (-n) as nat
    } else {
        n as nat
    };
    let digits = decimal_text(magnitude);
    lemma_decimal_text(magnitude);
    let end = text.len() as int + 1;
    assert(digits[0] != MINUS && digits[0] != PLUS) by {
        assert(is_digit(digits[0]));
    }
    assert(sign_len(text) == text.len() - digits.len());
    assert(text.subrange(sign_len(text), text.len() as int) =~= digits);
    assert(is_signed_decimal(text));
    assert(signed_value(text) == n);
    assert(is_first_at(input, 1, END, end)) by {
        assert forall|j: int| 1 <= j < end implies #[trigger] input[j] != END by {
            assert(input[j] == text[j - 1]);
            if n < 0 && j == 1 {
            } else {
                assert(is_digit(digits[j - 1 - sign_len(text)]));
            }
        }
    }
    lemma_find_byte_first(input, 1, END, end);
    assert(input.subrange(1, end) =~= text);
}

/// The value that the last pair with `key` holds.
pub open spec fn last_value(pairs: Seq<(Seq<u8>, Bencode)>, key: Seq<u8>) -> Option<Bencode>
    decreases pairs.len(),
{
    if pairs.len() == 0 {
        None
    } else if pairs.last().0 == key {
        Some(pairs.last().1)
    } else {
        last_value(pairs.drop_last(), key)
    }
}

/// The dictionary made of `pairs` holds no key twice, and gives every key the
/// value of the last pair that has it.
pub proof fn lemma_dictionary_of_pairs(pairs: Seq<(Seq<u8>, Bencode)>, key: Seq<u8>)
    ensures
        keys_unique(dictionary_of(pairs)),
        lookup(dictionary_of(pairs), key) == last_value(pairs, key),
    decreases pairs.len(),
{
    if pairs.len() == 0 {
        let none = Seq::<(Seq<u8>, Bencode)>::empty();
        assert(lookup(none, key) is None) by {
            lemma_index_of_absent(none, key);
        }
    } else {
        let front = pairs.drop_last();
        lemma_dictionary_of_pairs(front, key);
        lemma_insert_keeps_keys_unique(dictionary_of(front), pairs.last().0, pairs.last().1);
        lemma_lookup_after_insert(dictionary_of(front), pairs.last().0, pairs.last().1, key);
    }
}

/// A decoded dictionary holds no key twice, and gives every key the value
/// that stands with the key's last occurrence in the input.
pub proof fn theorem_dictionary_last_value_wins(
    input: Seq<u8>,
    pos: int,
    depth: nat,
    key: Seq<u8>,
)
    requires
        parse_dictionary(input, pos, depth) is Ok,
    ensures
        depth > 0,
        parse_pairs(input, pos + 1, (depth - 1) as nat) is Ok,
        ({
            let entries = parse_dictionary(input, pos, depth)->Ok_0.0;
            let pairs = parse_pairs(input, pos + 1, (depth - 1) as nat)->Ok_0.0;
            keys_unique(entries) && lookup(entries, key) == last_value(pairs, key)
        }),
{
    let pairs = parse_pairs(input, pos + 1, (depth - 1) as nat)->Ok_0.0;
    lemma_dictionary_of_pairs(pairs, key);
}

/// True when `left` from `at` and `right` from `to` hold the same `count`
/// bytes.
pub open spec fn same_bytes(left: Seq<u8>, at: int, right: Seq<u8>, to: int, count: int) -> bool {
    &&& 0 <= at
    &&& 0 <= to
    &&& 0 <= count
    &&& at + count <= left.len()
    &&& to + count <= right.len()
    &&& left.subrange(at, at + count) == right.subrange(to, to + count)
}

/// Where two inputs hold the same bytes, they hold the same byte at each place
/// among them.
pub proof fn lemma_same_byte(left: Seq<u8>, at: int, right: Seq<u8>, to: int, count: int, i: int)
    requires
        same_bytes(left, at, right, to, count),
        0 <= i < count,
    ensures
        left[at + i] == right[to + i],
{
    assert(left.subrange(at, at + count)[i] == left[at + i]);
    assert(right.subrange(to, to + count)[i] == right[to + i]);
}

/// Where two inputs hold the same bytes, they hold the same bytes in each part
/// of them.
pub proof fn lemma_same_part(
    left: Seq<u8>,
    at: int,
    right: Seq<u8>,
    to: int,
    count: int,
    from: int,
    upto: int,
)
    requires
        same_bytes(left, at, right, to, count),
        0 <= from <= upto <= count,
    ensures
        same_bytes(left, at + from, right, to + from, upto - from),
        left.subrange(at + from, at + upto) == right.subrange(to + from, to + upto),
{
    assert(left.subrange(at + from, at + upto) =~= left.subrange(at, at + count).subrange(
        from,
        upto,
    ));
    assert(right.subrange(to + from, to + upto) =~= right.subrange(to, to + count).subrange(
        from,
        upto,
    ));
}

/// A byte that is found among bytes that two inputs share is found in both, at
/// the same distance.
pub proof fn lemma_find_byte_elsewhere(
    left: Seq<u8>,
    at: int,
    right: Seq<u8>,
    to: int,
    count: int,
    byte: u8,
)
    requires
        same_bytes(left, at, right, to, count),
        find_byte(left, at, byte) matches Some(found) && found < at + count,
    ensures
        find_byte(right, to, byte) == Some(find_byte(left, at, byte)->Some_0 - at + to),
{
    let found = find_byte(left, at, byte)->Some_0;
    assert(is_first_at(left, at, byte, found));
    let there = found - at + to;
    assert(is_first_at(right, to, byte, there)) by {
        lemma_same_byte(left, at, right, to, count, found - at);
        assert forall|j: int| to <= j < there implies #[trigger] right[j] != byte by {
            lemma_same_byte(left, at, right, to, count, j - to);
            assert(left[at + (j - to)] != byte);
        }
    }
    lemma_find_byte_first(right, to, byte, there);
}

/// A byte string reads the same wherever its bytes stand.
pub proof fn lemma_byte_string_elsewhere(left: Seq<u8>, at: int, right: Seq<u8>, to: int)
    requires
        parse_byte_string(left, at) matches Ok((_, next)) && same_bytes(
            left,
            at,
            right,
            to,
            next - at,
        ),
    ensures
        parse_byte_string(right, to) == Ok::<(Seq<u8>, int), MalformedInput>(
            (
                parse_byte_string(left, at)->Ok_0.0,
                parse_byte_string(left, at)->Ok_0.1 - at + to,
            ),
        ),
{
    let next = parse_byte_string(left, at)->Ok_0.1;
    let count = next - at;
    let colon = find_byte(left, at, COLON)->Some_0;
    assert(is_first_at(left, at, COLON, colon));
    lemma_find_byte_elsewhere(left, at, right, to, count, COLON);
    lemma_same_part(left, at, right, to, count, 0, colon - at);
    lemma_same_part(left, at, right, to, count, colon + 1 - at, count);
}

/// An integer reads the same wherever its bytes stand.
pub proof fn lemma_integer_elsewhere(left: Seq<u8>, at: int, right: Seq<u8>, to: int)
    requires
        parse_integer(left, at) matches Ok((_, next)) && same_bytes(left, at, right, to, next - at),
    ensures
        parse_integer(right, to) == Ok::<(int, int), MalformedInput>(
            (parse_integer(left, at)->Ok_0.0, parse_integer(left, at)->Ok_0.1 - at + to),
        ),
{
    let next = parse_integer(left, at)->Ok_0.1;
    let count = next - at;
    let end = find_byte(left, at + 1, END)->Some_0;
    assert(is_first_at(left, at + 1, END, end));
    lemma_same_byte(left, at, right, to, count, 0);
    lemma_same_part(left, at, right, to, count, 1, count);
    lemma_find_byte_elsewhere(left, at + 1, right, to + 1, count - 1, END);
    lemma_same_part(left, at, right, to, count, 1, end - at);
}

/// A value reads the same wherever its bytes stand: what follows them and
/// what stands in front of them does not matter.
pub proof fn lemma_value_elsewhere(left: Seq<u8>, at: int, right: Seq<u8>, to: int, depth: nat)
    requires
        parse_value(left, at, depth) matches Ok((_, next)) && same_bytes(
            left,
            at,
            right,
            to,
            next - at,
        ),
    ensures
        parse_value(right, to, depth) == Ok::<(Bencode, int), MalformedInput>(
            (parse_value(left, at, depth)->Ok_0.0, parse_value(left, at, depth)->Ok_0.1 - at + to),
        ),
    decreases depth, left.len() - at, 1nat,
{
    let next = parse_value(left, at, depth)->Ok_0.1;
    let count = next - at;
    lemma_parse_value_advances(left, at, depth);
    lemma_same_byte(left, at, right, to, count, 0);
    if is_digit(left[at]) {
        lemma_byte_string_elsewhere(left, at, right, to);
    } else if left[at] == INTEGER {
        lemma_integer_elsewhere(left, at, right, to);
    } else if left[at] == LIST {
        lemma_same_part(left, at, right, to, count, 1, count);
        lemma_items_elsewhere(left, at + 1, right, to + 1, (depth - 1) as nat);
    } else {
        lemma_same_part(left, at, right, to, count, 1, count);
        lemma_pairs_elsewhere(left, at + 1, right, to + 1, (depth - 1) as nat);
    }
}

/// The items of a list read the same wherever their bytes stand.
pub proof fn lemma_items_elsewhere(left: Seq<u8>, at: int, right: Seq<u8>, to: int, depth: nat)
    requires
        parse_items(left, at, depth) matches Ok((_, end)) && same_bytes(
            left,
            at,
            right,
            to,
            end - at,
        ),
    ensures
        parse_items(right, to, depth) == Ok::<(Seq<Bencode>, int), MalformedInput>(
            (parse_items(left, at, depth)->Ok_0.0, parse_items(left, at, depth)->Ok_0.1 - at + to),
        ),
    decreases depth, left.len() - at, 2nat,
{
    let end = parse_items(left, at, depth)->Ok_0.1;
    let count = end - at;
    lemma_parse_items_advances(left, at, depth);
    lemma_same_byte(left, at, right, to, count, 0);
    if left[at] != END {
        let next = parse_value(left, at, depth)->Ok_0.1;
        lemma_parse_items_advances(left, next, depth);
        lemma_same_part(left, at, right, to, count, 0, next - at);
        lemma_value_elsewhere(left, at, right, to, depth);
        lemma_same_part(left, at, right, to, count, next - at, count);
        lemma_items_elsewhere(left, next, right, next - at + to, depth);
    }
}

/// The entries of a dictionary read the same wherever their bytes stand.
pub proof fn lemma_pairs_elsewhere(left: Seq<u8>, at: int, right: Seq<u8>, to: int, depth: nat)
    requires
        parse_pairs(left, at, depth) matches Ok((_, end)) && same_bytes(
            left,
            at,
            right,
            to,
            end - at,
        ),
    ensures
        parse_pairs(right, to, depth) == Ok::<(Seq<(Seq<u8>, Bencode)>, int), MalformedInput>(
            (parse_pairs(left, at, depth)->Ok_0.0, parse_pairs(left, at, depth)->Ok_0.1 - at + to),
        ),
    decreases depth, left.len() - at, 2nat,
{
    let end = parse_pairs(left, at, depth)->Ok_0.1;
    let count = end - at;
    lemma_parse_pairs_advances(left, at, depth);
    lemma_same_byte(left, at, right, to, count, 0);
    if left[at] != END {
        let after_key = parse_byte_string(left, at)->Ok_0.1;
        let next = parse_value(left, after_key, depth)->Ok_0.1;
        lemma_parse_value_advances(left, after_key, depth);
        lemma_parse_pairs_advances(left, next, depth);
        lemma_same_part(left, at, right, to, count, 0, after_key - at);
        lemma_byte_string_elsewhere(left, at, right, to);
        lemma_same_part(left, at, right, to, count, after_key - at, next - at);
        lemma_value_elsewhere(left, after_key, right, after_key - at + to, depth);
        lemma_same_part(left, at, right, to, count, next - at, count);
        lemma_pairs_elsewhere(left, next, right, next - at + to, depth);
    }
}

/// A value that decodes within some nesting allowance decodes to the same
/// with every larger one.
pub proof fn lemma_value_with_more_depth(input: Seq<u8>, pos: int, depth: nat, more: nat)
    requires
        parse_value(input, pos, depth) is Ok,
        depth <= more,
    ensures
        parse_value(input, pos, more) == parse_value(input, pos, depth),
    decreases depth, input.len() - pos, 1nat,
{
    if !is_digit(input[pos]) && input[pos] != INTEGER {
        if input[pos] == LIST {
            lemma_items_with_more_depth(input, pos + 1, (depth - 1) as nat, (more - 1) as nat);
        } else {
            lemma_pairs_with_more_depth(input, pos + 1, (depth - 1) as nat, (more - 1) as nat);
        }
    }
}

/// The items of a list that decode within some nesting allowance decode to
/// the same with every larger one.
pub proof fn lemma_items_with_more_depth(input: Seq<u8>, pos: int, depth: nat, more: nat)
    requires
        parse_items(input, pos, depth) is Ok,
        depth <= more,
    ensures
        parse_items(input, pos, more) == parse_items(input, pos, depth),
    decreases depth, input.len() - pos, 2nat,
{
    if input[pos] != END {
        let next = parse_value(input, pos, depth)->Ok_0.1;
        lemma_value_with_more_depth(input, pos, depth, more);
        lemma_items_with_more_depth(input, next, depth, more);
    }
}

/// The entries of a dictionary that decode within some nesting allowance
/// decode to the same with every larger one.
pub proof fn lemma_pairs_with_more_depth(input: Seq<u8>, pos: int, depth: nat, more: nat)
    requires
        parse_pairs(input, pos, depth) is Ok,
        depth <= more,
    ensures
        parse_pairs(input, pos, more) == parse_pairs(input, pos, depth),
    decreases depth, input.len() - pos, 2nat,
{
    if input[pos] != END {
        let after_key = parse_byte_string(input, pos)->Ok_0.1;
        let next = parse_value(input, after_key, depth)->Ok_0.1;
        lemma_value_with_more_depth(input, after_key, depth, more);
        lemma_pairs_with_more_depth(input, next, depth, more);
    }
}

/// Decoding is compositional: where `first` and `second` are encodings of two
/// values, `l`, `first`, `second`, `e` in a row decode to the list of the two
/// values, and nothing of the input is left over. The list needs a nesting
/// allowance larger than the one within which its items decode.
pub proof fn theorem_list_of_two(first: Seq<u8>, second: Seq<u8>, depth: nat, more: nat)
    requires
        parse_value(first, 0, depth) matches Ok((_, next)) && next == first.len(),
        parse_value(second, 0, depth) matches Ok((_, next)) && next == second.len(),
        depth < more,
    ensures
        ({
            let input = seq![LIST] + first + second + seq![END];
            let one = parse_value(first, 0, depth)->Ok_0.0;
            let two = parse_value(second, 0, depth)->Ok_0.0;
            parse_value(input, 0, more) == Ok::<(Bencode, int), MalformedInput>(
                (Bencode::List(seq![one, two]), input.len() as int),
            )
        }),
{
    let input = seq![LIST] + first + second + seq![END];
    let one = parse_value(first, 0, depth)->Ok_0.0;
    let two = parse_value(second, 0, depth)->Ok_0.0;
    let inner = (more - 1) as nat;
    let middle = 1 + first.len() as int;
    let last = middle + second.len() as int;
    lemma_value_with_more_depth(first, 0, depth, inner);
    lemma_value_with_more_depth(second, 0, depth, inner);
    lemma_parse_value_advances(first, 0, inner);
    lemma_parse_value_advances(second, 0, inner);
    assert(same_bytes(first, 0, input, 1, first.len() as int)) by {
        assert(first.subrange(0, first.len() as int) =~= input.subrange(1, middle));
    }
    assert(same_bytes(second, 0, input, middle, second.len() as int)) by {
        assert(second.subrange(0, second.len() as int) =~= input.subrange(middle, last));
    }
    lemma_value_elsewhere(first, 0, input, 1, inner);
    lemma_value_elsewhere(second, 0, input, middle, inner);
    assert(input[1] == first[0]);
    assert(input[middle] == second[0]);
    assert(input[last] == END);
    assert(parse_items(input, last, inner) == Ok::<(Seq<Bencode>, int), MalformedInput>(
        (Seq::empty(), last + 1),
    ));
    assert(parse_items(input, middle, inner) == Ok::<(Seq<Bencode>, int), MalformedInput>(
        (seq![two] + Seq::empty(), last + 1),
    ));
    assert(parse_items(input, 1, inner) == Ok::<(Seq<Bencode>, int), MalformedInput>(
        (seq![one] + (seq![two] + Seq::empty()), last + 1),
    ));
    assert(seq![one] + (seq![two] + Seq::<Bencode>::empty()) =~= seq![one, two]);
}

} // verus!
