//! Decoded nodes as executable data: values, dictionaries and the projections
//! onto the four shapes.

use crate::error::TypeMismatch;
use crate::model::{
    index_of, insert_entry, keys_unique, lemma_absent_everywhere, lemma_index_of_absent,
    lemma_index_of_first, lookup, Bencode,
};
use vstd::prelude::*;

verus! {

/// A decoded node.
#[derive(Debug, PartialEq, Eq)]
pub enum Value {
    /// A sequence of raw bytes of known length.
    ByteString(Vec<u8>),
    /// A signed 64-bit number.
    Integer(i64),
    /// An ordered sequence of values.
    List(Vec<Value>),
    /// A mapping from byte-string keys to values.
    Dictionary(Dictionary),
}

/// A mapping from byte-string keys to values that keeps its keys in the order
/// in which they were first inserted. Two dictionaries are equal when they
/// hold the same entries in the same order.
#[derive(Debug, PartialEq, Eq)]
pub struct Dictionary {
    entries: Vec<(Vec<u8>, Value)>,
}

impl View for Value {
    type V = Bencode;

    open spec fn view(&self) -> Bencode
        decreases self,
    {
        match self {
            Value::ByteString(bytes) => Bencode::Bytes(bytes@),
            Value::Integer(n) => Bencode::Int(*n as int),
            Value::List(items) => Bencode::List(view_of_items(items@)),
            Value::Dictionary(dict) => Bencode::Dict(dict.view()),
        }
    }
}

/// The mathematical values of a run of decoded nodes.
pub open spec fn view_of_items(items: Seq<Value>) -> Seq<Bencode>
    decreases items,
{
    Seq::new(
        items.len(),
        |i: int|
            if 0 <= i < items.len() {
                items[i].view()
            } else {
                arbitrary()
            },
    )
}

impl View for Dictionary {
    type V = Seq<(Seq<u8>, Bencode)>;

    closed spec fn view(&self) -> Seq<(Seq<u8>, Bencode)>
        decreases self,
    {
        Seq::new(
            self.entries.len() as nat,
            |i: int|
                if 0 <= i < self.entries.len() {
                    (self.entries[i].0@, self.entries[i].1.view())
                } else {
                    arbitrary()
                },
        )
    }
}

/// Compares two byte strings.
pub fn bytes_equal(left: &[u8], right: &[u8]) -> (equal: bool)
    ensures
        equal == (left@ == right@),
{
    if left.len() != right.len() {
        return false;
    }
    let mut i: usize = 0;
    while i < left.len()
        invariant
            left.len() == right.len(),
            i <= left.len(),
            forall|j: int| 0 <= j < i ==> left@[j] == right@[j],
        decreases left.len() - i,
    {
        if left[i] != right[i] {
            return false;
        }
        i += 1;
    }
    assert(left@ =~= right@);
    true
}

impl Dictionary {
    #[verifier::type_invariant]
    spec fn keys_are_unique(self) -> bool {
        keys_unique(self@)
    }

    /// An empty dictionary.
    pub fn new() -> (dict: Dictionary)
        ensures
            dict@ == Seq::<(Seq<u8>, Bencode)>::empty(),
    {
        let dict = Dictionary { entries: Vec::new() };
        assert(dict@ =~= Seq::<(Seq<u8>, Bencode)>::empty());
        dict
    }

    /// The number of entries.
    pub fn len(&self) -> (n: usize)
        ensures
            n == self@.len(),
    {
        self.entries.len()
    }

    /// The entries in the order in which their keys were first inserted; no
    /// key occurs twice among them.
    pub fn entries(&self) -> (entries: &Vec<(Vec<u8>, Value)>)
        ensures
            keys_unique(self@),
            entries.len() == self@.len(),
            forall|i: int|
                0 <= i < entries.len() ==> (#[trigger] entries[i]).0@ == self@[i].0
                    && entries[i].1@ == self@[i].1,
    {
        proof {
            use_type_invariant(self);
        }
        &self.entries
    }

    /// The place of `key` among the entries.
    fn position(&self, key: &[u8]) -> (found: Option<usize>)
        ensures
            match found {
                Some(i) => index_of(self@, key@) == Some(i as int),
                None => index_of(self@, key@) is None,
            },
    {
        let mut i: usize = 0;
        while i < self.entries.len()
            invariant
                i <= self.entries.len(),
                self@.len() == self.entries.len(),
                forall|j: int| 0 <= j < i ==> (#[trigger] self@[j]).0 != key@,
            decreases self.entries.len() - i,
        {
            if bytes_equal(self.entries[i].0.as_slice(), key) {
                proof {
                    lemma_index_of_first(self@, key@, i as int);
                }
                return Some(i);
            }
            i += 1;
        }
        proof {
            lemma_index_of_absent(self@, key@);
        }
        None
    }

    /// Associates `key` with `value`. A key that is already there keeps its
    /// place and gets the new value; a new key goes to the end.
    pub fn insert(&mut self, key: Vec<u8>, value: Value)
        ensures
            final(self)@ == insert_entry(old(self)@, key@, value@),
    {
        proof {
            use_type_invariant(&*self);
        }
        let ghost before = self@;
        let found = self.position(key.as_slice());
        let mut entries: Vec<(Vec<u8>, Value)> = Vec::new();
        core::mem::swap(&mut self.entries, &mut entries);
        match found {
            Some(i) => {
                entries.set(i, (key, value));
            },
            None => {
                proof {
                    lemma_absent_everywhere(before, key@);
                }
                entries.push((key, value));
            },
        }
        let ghost after = insert_entry(before, key@, value@);
        proof {
            let now = Dictionary { entries }@;
            assert(now =~= after);
            assert forall|a: int, b: int| 0 <= a < b < after.len() implies (#[trigger] after[a]).0
                != (#[trigger] after[b]).0 by {
                if b < before.len() {
                    assert(before[a].0 != before[b].0);
                } else {
                    assert(before[a].0 != key@);
                }
            }
        }
        core::mem::swap(&mut self.entries, &mut entries);
    }

    /// The value stored under `key`.
    pub fn get(&self, key: &[u8]) -> (found: Option<&Value>)
        ensures
            match found {
                Some(value) => lookup(self@, key@) == Some(value@),
                None => lookup(self@, key@) is None,
            },
    {
        match self.position(key) {
            Some(i) => Some(&self.entries[i].1),
            None => None,
        }
    }
}

impl Value {
    /// The number, where the value is an integer.
    pub fn as_integer(&self) -> (number: Result<i64, TypeMismatch>)
        ensures
            match number {
                Ok(n) => self@ == Bencode::Int(n as int),
                Err(_) => !(self@ is Int),
            },
    {
        match self {
            Value::Integer(n) => Ok(*n),
            _ => Err(TypeMismatch),
        }
    }

    /// The bytes, where the value is a byte string.
    pub fn as_string(&self) -> (bytes: Result<&Vec<u8>, TypeMismatch>)
        ensures
            match bytes {
                Ok(b) => self@ == Bencode::Bytes(b@),
                Err(_) => !(self@ is Bytes),
            },
    {
        match self {
            Value::ByteString(bytes) => Ok(bytes),
            _ => Err(TypeMismatch),
        }
    }

    /// The items, where the value is a list.
    pub fn as_list(&self) -> (items: Result<&Vec<Value>, TypeMismatch>)
        ensures
            match items {
                Ok(v) => self@ == Bencode::List(view_of_items(v@)),
                Err(_) => !(self@ is List),
            },
    {
        match self {
            Value::List(items) => Ok(items),
            _ => Err(TypeMismatch),
        }
    }

    /// The dictionary, where the value is one.
    pub fn as_dictionary(&self) -> (dict: Result<&Dictionary, TypeMismatch>)
        ensures
            match dict {
                Ok(d) => self@ == Bencode::Dict(d@),
                Err(_) => !(self@ is Dict),
            },
    {
        match self {
            Value::Dictionary(dict) => Ok(dict),
            _ => Err(TypeMismatch),
        }
    }
}

} // verus!
