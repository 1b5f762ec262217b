//! Byte strings: what Bencode calls a string, which need not be UTF-8.

use crate::order::{bytes_before, bytes_equal, bytes_lt};
use core::cmp::Ordering;
use vstd::prelude::*;
use vstd::std_specs::cmp::{PartialEqSpecImpl, PartialOrdSpecImpl};
use vstd::slice::slice_to_vec;
use vstd::string::StringSliceAdditionalSpecFns;
use vstd::std_specs::convert::FromSpecImpl;
use vstd::utf8::{encode_scalar, encode_utf8};

verus! {

/// A sequence of bytes. Equality and order go byte by byte.
#[derive(Debug, Eq, Ord, Hash)]
pub struct ByteString(Vec<u8>);

impl Clone for ByteString {
    fn clone(&self) -> (r: Self)
        ensures
            r@ == self@,
    {
        ByteString(slice_to_vec(self.0.as_slice()))
    }
}

impl PartialEq for ByteString {
    fn eq(&self, other: &ByteString) -> (r: bool) {
        bytes_equal(self.0.as_slice(), other.0.as_slice())
    }
}

impl PartialEqSpecImpl for ByteString {
    open spec fn obeys_eq_spec() -> bool {
        true
    }

    open spec fn eq_spec(&self, other: &ByteString) -> bool {
        self@ == other@
    }
}

impl PartialOrd for ByteString {
    fn partial_cmp(&self, other: &ByteString) -> (r: Option<Ordering>) {
        if bytes_before(self.0.as_slice(), other.0.as_slice()) {
            Some(Ordering::Less)
        } else if bytes_before(other.0.as_slice(), self.0.as_slice()) {
            Some(Ordering::Greater)
        } else {
            Some(Ordering::Equal)
        }
    }
}

impl PartialOrdSpecImpl for ByteString {
    open spec fn obeys_partial_cmp_spec() -> bool {
        true
    }

    open spec fn partial_cmp_spec(&self, other: &ByteString) -> Option<Ordering> {
        if bytes_lt(self@, other@) {
            Some(Ordering::Less)
        } else if bytes_lt(other@, self@) {
            Some(Ordering::Greater)
        } else {
            Some(Ordering::Equal)
        }
    }
}

impl View for ByteString {
    type V = Seq<u8>;

    closed spec fn view(&self) -> Seq<u8> {
        self.0@
    }
}

impl ByteString {
    /// A byte string that owns `bytes`.
    pub fn from_vec(bytes: Vec<u8>) -> (r: Self)
        ensures
            r@ == bytes@,
    {
        ByteString(bytes)
    }

    /// A byte string with a copy of `bytes`.
    pub fn from_slice(bytes: &[u8]) -> (r: Self)
        ensures
            r@ == bytes@,
    {
        ByteString(slice_to_vec(bytes))
    }

    /// A byte string with the UTF-8 bytes of `text`.
    pub fn from_str(text: &str) -> (r: Self)
        ensures
            r@ == text.spec_bytes(),
    {
        ByteString(slice_to_vec(text.as_bytes()))
    }

    /// The bytes.
    pub fn as_slice(&self) -> (r: &[u8])
        ensures
            r@ == self@,
    {
        self.0.as_slice()
    }

    /// The bytes, to be changed in place.
    pub fn as_mut_vec(&mut self) -> (r: &mut Vec<u8>)
        ensures
            r@ == old(self)@,
            final(self)@ == final(r)@,
    {
        &mut self.0
    }

    /// The number of bytes.
    pub fn len(&self) -> (r: usize)
        ensures
            r == self@.len(),
    {
        self.0.len()
    }

    /// Whether there are no bytes.
    pub fn is_empty(&self) -> (r: bool)
        ensures
            r == (self@.len() == 0),
    {
        self.0.len() == 0
    }

    /// Returns the inner vector.
    pub fn into_vec(self) -> (r: Vec<u8>)
        ensures
            r@ == self@,
    {
        self.0
    }
}

/// Calls `char::encode_utf8`, which writes a character as UTF-8. Trusted:
/// the bytes are taken to be the UTF-8 encoding of the character's scalar
/// value.
#[verifier::external_body]
pub(crate) fn char_utf8(c: char) -> (r: Vec<u8>)
    ensures
        r@ == encode_scalar(c as u32),
{
    let mut buf = [0u8; 4];
    c.encode_utf8(&mut buf).as_bytes().to_vec()
}

impl ByteString {
    /// A byte string with the UTF-8 bytes of `c`.
    pub fn from_char(c: char) -> (r: Self)
        ensures
            r@ == encode_scalar(c as u32),
    {
        ByteString(char_utf8(c))
    }
}

impl<'a> From<&'a [u8]> for ByteString {
    fn from(bytes: &'a [u8]) -> (r: ByteString)
        ensures
            r@ == bytes@,
    {
        ByteString::from_slice(bytes)
    }
}

impl<'a> FromSpecImpl<&'a [u8]> for ByteString {
    open spec fn obeys_from_spec() -> bool {
        false
    }

    open spec fn from_spec(bytes: &'a [u8]) -> ByteString {
        arbitrary()
    }
}

impl<'a> From<&'a str> for ByteString {
    fn from(text: &'a str) -> (r: ByteString)
        ensures
            r@ == text.spec_bytes(),
    {
        ByteString::from_str(text)
    }
}

impl<'a> FromSpecImpl<&'a str> for ByteString {
    open spec fn obeys_from_spec() -> bool {
        false
    }

    open spec fn from_spec(text: &'a str) -> ByteString {
        arbitrary()
    }
}

impl From<String> for ByteString {
    fn from(text: String) -> (r: ByteString)
        ensures
            r@ == encode_utf8(text@),
    {
        ByteString::from_str(text.as_str())
    }
}

impl FromSpecImpl<String> for ByteString {
    open spec fn obeys_from_spec() -> bool {
        false
    }

    open spec fn from_spec(text: String) -> ByteString {
        arbitrary()
    }
}

impl From<Vec<u8>> for ByteString {
    fn from(bytes: Vec<u8>) -> (r: ByteString)
        ensures
            r@ == bytes@,
    {
        ByteString::from_vec(bytes)
    }
}

impl FromSpecImpl<Vec<u8>> for ByteString {
    open spec fn obeys_from_spec() -> bool {
        false
    }

    open spec fn from_spec(bytes: Vec<u8>) -> ByteString {
        arbitrary()
    }
}

} // verus!
