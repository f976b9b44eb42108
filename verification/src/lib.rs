//! Decoder for bencode, the length-prefixed format of torrent descriptions,
//! with a verified grammar and a small metadata extractor.
//!
//! `grammar` says what the bytes mean, `decoder` reads values from a buffer
//! and is proved against it, `torrent` reads the tracker's address and the
//! content's size from a decoded description, and `theorems` holds what is
//! true of the grammar for every input.

pub mod decoder;
pub mod error;
pub mod grammar;
pub mod model;
pub mod theorems;
pub mod torrent;
pub mod value;

pub use decoder::{
    decode_bencoded_value, decode_command, handle_dictionary, handle_list, handle_number,
    handle_string, MAX_NESTING_DEPTH,
};
pub use error::{Error, MalformedInput, SchemaMismatch, TypeMismatch};
pub use torrent::{decode_torrent, extract, Torrent};
pub use value::{bytes_equal, Dictionary, Value};
