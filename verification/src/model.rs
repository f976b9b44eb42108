//! The mathematical model of decoded nodes: the values that contracts speak
//! of, and dictionaries as sequences of entries with distinct keys.

use vstd::prelude::*;

verus! {

/// The mathematical value of a decoded node.
pub enum Bencode {
    /// A sequence of raw bytes; not necessarily text.
    Bytes(Seq<u8>),
    /// A whole number.
    Int(int),
    /// An ordered sequence of values.
    List(Seq<Bencode>),
    /// Key and value pairs, in the order in which their keys first appeared.
    Dict(Seq<(Seq<u8>, Bencode)>),
}

/// True when `index` is the first place in `entries` that holds `key`.
pub open spec fn is_first_index(entries: Seq<(Seq<u8>, Bencode)>, key: Seq<u8>, index: int) -> bool {
    &&& 0 <= index < entries.len()
    &&& entries[index].0 == key
    &&& forall|j: int| 0 <= j < index ==> (#[trigger] entries[j]).0 != key
}

/// The first place in `entries` that holds `key`.
pub open spec fn index_of(entries: Seq<(Seq<u8>, Bencode)>, key: Seq<u8>) -> Option<int> {
    if exists|i: int| is_first_index(entries, key, i) {
        Some(choose|i: int| is_first_index(entries, key, i))
    } else {
        None
    }
}

/// The value that `entries` associates with `key`.
pub open spec fn lookup(entries: Seq<(Seq<u8>, Bencode)>, key: Seq<u8>) -> Option<Bencode> {
    match index_of(entries, key) {
        Some(i) => Some(entries[i].1),
        None => None,
    }
}

/// `entries` after `key` has been associated with `value`: a key that is
/// already there keeps its place and gets the new value, a new key goes to
/// the end.
pub open spec fn insert_entry(
    entries: Seq<(Seq<u8>, Bencode)>,
    key: Seq<u8>,
    value: Bencode,
) -> Seq<(Seq<u8>, Bencode)> {
    match index_of(entries, key) {
        Some(i) => entries.update(i, (key, value)),
        None => entries.push((key, value)),
    }
}

/// True when no key occurs twice in `entries`.
pub open spec fn keys_unique(entries: Seq<(Seq<u8>, Bencode)>) -> bool {
    forall|i: int, j: int|
        0 <= i < j < entries.len() ==> (#[trigger] entries[i]).0 != (#[trigger] entries[j]).0
}

/// The first index that holds a key is the only one that `index_of` names.
pub proof fn lemma_index_of_first(entries: Seq<(Seq<u8>, Bencode)>, key: Seq<u8>, index: int)
    requires
        is_first_index(entries, key, index),
    ensures
        index_of(entries, key) == Some(index),
{
    let chosen = choose|i: int| is_first_index(entries, key, i);
    assert(is_first_index(entries, key, chosen));
    if chosen < index {
        assert(entries[chosen].0 != key);
    } else if index < chosen {
        assert(entries[index].0 != key);
    }
}

/// A key that no entry holds has no index.
pub proof fn lemma_index_of_absent(entries: Seq<(Seq<u8>, Bencode)>, key: Seq<u8>)
    requires
        forall|j: int| 0 <= j < entries.len() ==> (#[trigger] entries[j]).0 != key,
    ensures
        index_of(entries, key) is None,
{
    if exists|i: int| is_first_index(entries, key, i) {
        let i = choose|i: int| is_first_index(entries, key, i);
        assert(entries[i].0 == key);
    }
}

/// A key without an index occurs nowhere.
pub proof fn lemma_absent_everywhere(entries: Seq<(Seq<u8>, Bencode)>, key: Seq<u8>)
    requires
        index_of(entries, key) is None,
    ensures
        forall|j: int| 0 <= j < entries.len() ==> (#[trigger] entries[j]).0 != key,
{
    if exists|j: int| 0 <= j < entries.len() && (#[trigger] entries[j]).0 == key {
        let j = choose|j: int| 0 <= j < entries.len() && (#[trigger] entries[j]).0 == key;
        lemma_first_index_exists(entries, key, j);
    }
}

/// Where a key occurs at all, it has a first index.
pub proof fn lemma_first_index_exists(entries: Seq<(Seq<u8>, Bencode)>, key: Seq<u8>, at: int)
    requires
        0 <= at < entries.len(),
        entries[at].0 == key,
    ensures
        exists|i: int| is_first_index(entries, key, i),
    decreases at,
{
    if exists|j: int| 0 <= j < at && (#[trigger] entries[j]).0 == key {
        let j = choose|j: int| 0 <= j < at && (#[trigger] entries[j]).0 == key;
        lemma_first_index_exists(entries, key, j);
    } else {
        assert(is_first_index(entries, key, at));
    }
}

/// What `entries` associates with a key after an insertion: the new value
/// with the inserted key, and with every other key what it had before.
pub proof fn lemma_lookup_after_insert(
    entries: Seq<(Seq<u8>, Bencode)>,
    key: Seq<u8>,
    value: Bencode,
    other: Seq<u8>,
)
    ensures
        lookup(insert_entry(entries, key, value), other) == if other == key {
            Some(value)
        } else {
            lookup(entries, other)
        },
{
    let after = insert_entry(entries, key, value);
    match index_of(entries, key) {
        Some(i) => {
            assert(is_first_index(entries, key, i));
            assert(after.len() == entries.len());
            assert forall|j: int| 0 <= j < after.len() implies (#[trigger] after[j]).0
                == entries[j].0 by {}
            if other == key {
                assert(is_first_index(after, key, i)) by {
                    assert forall|j: int| 0 <= j < i implies (#[trigger] after[j]).0 != key by {
                        assert(entries[j].0 != key);
                    }
                }
                lemma_index_of_first(after, key, i);
            } else {
                lemma_same_keys_same_index(entries, after, other);
                match index_of(entries, other) {
                    Some(x) => {
                        assert(is_first_index(entries, other, x));
                    },
                    None => {},
                }
            }
        },
        None => {
            lemma_absent_everywhere(entries, key);
            let last = entries.len() as int;
            if other == key {
                assert(is_first_index(after, key, last)) by {
                    assert forall|j: int| 0 <= j < last implies (#[trigger] after[j]).0 != key by {
                        assert(entries[j].0 != key);
                    }
                }
                lemma_index_of_first(after, key, last);
            } else {
                match index_of(entries, other) {
                    Some(x) => {
                        assert(is_first_index(entries, other, x));
                        assert(is_first_index(after, other, x)) by {
                            assert forall|j: int| 0 <= j < x implies (#[trigger] after[j]).0
                                != other by {
                                assert(entries[j].0 != other);
                            }
                        }
                        lemma_index_of_first(after, other, x);
                    },
                    None => {
                        lemma_absent_everywhere(entries, other);
                        assert forall|j: int| 0 <= j < after.len() implies (#[trigger] after[j]).0
                            != other by {
                            if j < last {
                                assert(entries[j].0 != other);
                            }
                        }
                        lemma_index_of_absent(after, other);
                    },
                }
            }
        },
    }
}

/// Two runs of entries with the same keys in the same places give every key
/// the same index.
pub proof fn lemma_same_keys_same_index(
    left: Seq<(Seq<u8>, Bencode)>,
    right: Seq<(Seq<u8>, Bencode)>,
    key: Seq<u8>,
)
    requires
        left.len() == right.len(),
        forall|j: int| 0 <= j < left.len() ==> (#[trigger] left[j]).0 == right[j].0,
    ensures
        index_of(left, key) == index_of(right, key),
{
    match index_of(left, key) {
        Some(x) => {
            assert(is_first_index(left, key, x));
            assert(is_first_index(right, key, x)) by {
                assert(left[x].0 == right[x].0);
                assert forall|j: int| 0 <= j < x implies (#[trigger] right[j]).0 != key by {
                    assert(left[j].0 != key);
                }
            }
            lemma_index_of_first(right, key, x);
        },
        None => {
            lemma_absent_everywhere(left, key);
            assert forall|j: int| 0 <= j < right.len() implies (#[trigger] right[j]).0 != key by {
                assert(left[j].0 != key);
            }
            lemma_index_of_absent(right, key);
        },
    }
}

/// An insertion into entries with distinct keys leaves the keys distinct.
pub proof fn lemma_insert_keeps_keys_unique(
    entries: Seq<(Seq<u8>, Bencode)>,
    key: Seq<u8>,
    value: Bencode,
)
    requires
        keys_unique(entries),
    ensures
        keys_unique(insert_entry(entries, key, value)),
{
    let after = insert_entry(entries, key, value);
    match index_of(entries, key) {
        Some(i) => {
            assert(is_first_index(entries, key, i));
        },
        None => {
            lemma_absent_everywhere(entries, key);
        },
    }
    assert forall|a: int, b: int| 0 <= a < b < after.len() implies (#[trigger] after[a]).0 != (
    #[trigger] after[b]).0 by {
        if b < entries.len() {
            assert(entries[a].0 != entries[b].0);
        } else {
            assert(entries[a].0 != key);
        }
    }
}

} // verus!
