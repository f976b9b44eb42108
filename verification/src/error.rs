//! The conditions under which decoding, projecting and extracting fail.

use vstd::prelude::*;

verus! {

/// Why a byte stream is not an encoded value at the position where one was
/// expected.
#[derive(Debug, Clone, Copy, PartialEq, Eq, Structural)]
pub enum MalformedInput {
    /// The input ends where a value has to begin.
    UnexpectedEnd,
    /// The byte at the position is no digit and none of `i`, `l`, `d`.
    UnrecognizedTag,
    /// No `:` follows the length of a byte string.
    MissingDelimiter,
    /// The text in front of the `:` is not a run of decimal digits.
    InvalidLength,
    /// The length prefix announces more bytes than the input still holds.
    TruncatedPayload,
    /// No `e` closes an integer, a list or a dictionary.
    MissingTerminator,
    /// The text between `i` and `e` is not a signed decimal integer.
    InvalidInteger,
    /// The integer does not fit into 64 bits.
    IntegerOverflow,
    /// A dictionary key is not a byte string.
    KeyNotByteString,
    /// Lists and dictionaries are nested deeper than the caller allows.
    NestingTooDeep,
}

/// A value was asked for a shape that it does not have.
#[derive(Debug, Clone, Copy, PartialEq, Eq, Structural)]
pub struct TypeMismatch;

/// Why a decoded value does not describe a torrent.
#[derive(Debug, Clone, Copy, PartialEq, Eq, Structural)]
pub enum SchemaMismatch {
    /// The root value is not a dictionary.
    RootNotDictionary,
    /// The key `announce` is absent, or its value is not a byte string that
    /// holds text.
    Announce,
    /// The key `info` is absent, or its value is not a dictionary.
    Info,
    /// The key `length` of `info` is absent, or its value is not a
    /// non-negative integer.
    Length,
}

/// What can go wrong between an encoded torrent description and its metadata.
#[derive(Debug, Clone, Copy, PartialEq, Eq, Structural)]
pub enum Error {
    /// The bytes are not an encoded value.
    MalformedInput(MalformedInput),
    /// The value is not shaped like a torrent description.
    SchemaMismatch(SchemaMismatch),
}

} // verus!
