//! A codec for Bencode, the wire format of BitTorrent metainfo files and
//! peer messages: byte strings, integers, lists and key-sorted dictionaries.
//!
//! The decoder pulls bytes from a [`read::Read`] source, either a slice in
//! memory (from which byte strings are borrowed, never copied) or a stream.
//! It can hand back a value's exact source bytes instead of its meaning, which
//! is what an info-hash is computed over. The encoder writes dictionaries in
//! ascending key order whatever order the entries arrived in.
//!
//! Every contract is stated over the wire grammar in [`grammar`].

pub mod bstring;
pub mod de;
pub mod error;
pub mod grammar;
pub mod laws;
pub mod order;
pub mod read;
pub mod ser;
pub mod value;
pub mod write;

pub use bstring::ByteString;
pub use de::{from_reader, from_slice, Deserializer};
pub use error::{Error, ErrorKind, Failure};
pub use ser::{to_vec, to_writer, Serializer};
pub use value::{Dict, Number, Value};
