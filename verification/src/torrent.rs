//! The metadata of a torrent description: the tracker's address and the size
//! of the content, read from a decoded dictionary.

use crate::decoder::{decode_bencoded_value, MAX_NESTING_DEPTH};
use crate::error::{Error, MalformedInput, SchemaMismatch};
use crate::grammar::parse_value;
use crate::model::{lookup, Bencode};
use crate::value::Value;
use vstd::prelude::*;
use vstd::utf8::{decode_utf8, encode_utf8, encode_utf8_decode_utf8, valid_utf8};

verus! {

/// The bytes of the key `announce`.
pub open spec fn announce_key() -> Seq<u8> {
    seq![0x61u8, 0x6e, 0x6e, 0x6f, 0x75, 0x6e, 0x63, 0x65]
}

/// The bytes of the key `info`.
pub open spec fn info_key() -> Seq<u8> {
    seq![0x69u8, 0x6e, 0x66, 0x6f]
}

/// The bytes of the key `length`.
pub open spec fn length_key() -> Seq<u8> {
    seq![0x6cu8, 0x65, 0x6e, 0x67, 0x74, 0x68]
}

/// The metadata of a torrent.
#[derive(Debug, Clone, PartialEq, Eq)]
pub struct Torrent {
    /// The address of the tracker.
    pub announce: String,
    /// The size of the content in bytes.
    pub length: u64,
}

/// The mathematical value of a `Torrent`.
pub struct TorrentView {
    /// The address of the tracker.
    pub announce: Seq<char>,
    /// The size of the content in bytes.
    pub length: nat,
}

impl View for Torrent {
    type V = TorrentView;

    open spec fn view(&self) -> TorrentView {
        TorrentView { announce: self.announce@, length: self.length as nat }
    }
}

/// The metadata that a decoded value describes. The value has to be a
/// dictionary in which `announce` is a byte string that holds UTF-8 text and
/// `info` is a dictionary in which `length` is an integer from 0 to
/// 2^64 - 1. Nothing else in the value is looked at.
pub open spec fn torrent_of(value: Bencode) -> Result<TorrentView, SchemaMismatch> {
    match value {
        Bencode::Dict(root) => match lookup(root, announce_key()) {
            Some(Bencode::Bytes(address)) if valid_utf8(address) => match lookup(root, info_key()) {
                Some(Bencode::Dict(info)) => match lookup(info, length_key()) {
                    Some(Bencode::Int(length)) if 0 <= length <= u64::MAX => Ok(
                        TorrentView { announce: decode_utf8(address), length: length as nat },
                    ),
                    _ => Err(SchemaMismatch::Length),
                },
                _ => Err(SchemaMismatch::Info),
            },
            _ => Err(SchemaMismatch::Announce),
        },
        _ => Err(SchemaMismatch::RootNotDictionary),
    }
}

/// Calls `std::str::from_utf8`: gives the text where `bytes` are well-formed
/// UTF-8, and nothing where they are not. The text is the one whose UTF-8
/// encoding is `bytes`.
#[verifier::external_body]
fn text_from_utf8(bytes: &[u8]) -> (text: Option<String>)
    ensures
        text is Some <==> valid_utf8(bytes@),
        text matches Some(t) ==> encode_utf8(t@) == bytes@,
{
    match std::str::from_utf8(bytes) {
        Ok(text) => Some(String::from(text)),
        Err(_) => None,
    }
}

/// Reads the tracker's address and the size of the content from a decoded
/// torrent description.
pub fn extract(value: &Value) -> (result: Result<Torrent, SchemaMismatch>)
    ensures
        match result {
            Ok(torrent) => torrent_of(value@) == Ok::<TorrentView, SchemaMismatch>(torrent@),
            Err(e) => torrent_of(value@) == Err::<TorrentView, SchemaMismatch>(e),
        },
{
    let root = match value.as_dictionary() {
        Ok(root) => root,
        Err(_) => {
            return Err(SchemaMismatch::RootNotDictionary);
        },
    };
    let announce_name: [u8; 8] = [0x61, 0x6e, 0x6e, 0x6f, 0x75, 0x6e, 0x63, 0x65];
    let info_name: [u8; 4] = [0x69, 0x6e, 0x66, 0x6f];
    let length_name: [u8; 6] = [0x6c, 0x65, 0x6e, 0x67, 0x74, 0x68];
    assert(announce_name@ =~= announce_key());
    assert(info_name@ =~= info_key());
    assert(length_name@ =~= length_key());
    let address = match root.get(announce_name.as_slice()) {
        Some(Value::ByteString(address)) => address,
        _ => {
            return Err(SchemaMismatch::Announce);
        },
    };
    let announce = match text_from_utf8(address.as_slice()) {
        Some(announce) => announce,
        None => {
            return Err(SchemaMismatch::Announce);
        },
    };
    proof {
        encode_utf8_decode_utf8(announce@);
    }
    let info = match root.get(info_name.as_slice()) {
        Some(Value::Dictionary(info)) => info,
        _ => {
            return Err(SchemaMismatch::Info);
        },
    };
    match info.get(length_name.as_slice()) {
        Some(Value::Integer(length)) => {
            if *length < 0 {
                Err(SchemaMismatch::Length)
            } else {
                Ok(Torrent { announce, length: *length as u64 })
            }
        },
        _ => Err(SchemaMismatch::Length),
    }
}

/// Decodes a torrent description and reads its metadata. Lists and
/// dictionaries may be nested up to `MAX_NESTING_DEPTH` deep; what follows the
/// first value is not looked at.
pub fn decode_torrent(input: &[u8]) -> (result: Result<Torrent, Error>)
    ensures
        match parse_value(input@, 0, MAX_NESTING_DEPTH as nat) {
            Err(e) => result == Err::<Torrent, Error>(Error::MalformedInput(e)),
            Ok((value, _)) => match torrent_of(value) {
                Err(e) => result == Err::<Torrent, Error>(Error::SchemaMismatch(e)),
                Ok(torrent) => result matches Ok(t) && t@ == torrent,
            },
        },
{
    match decode_bencoded_value(input, 0, MAX_NESTING_DEPTH) {
        Err(e) => Err(Error::MalformedInput(e)),
        Ok((value, _)) => match extract(&value) {
            Err(e) => Err(Error::SchemaMismatch(e)),
            Ok(torrent) => Ok(torrent),
        },
    }
}

} // verus!
