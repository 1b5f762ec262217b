//! Values from the types of the language.

use crate::bstring::ByteString;
use crate::error::Error;
use crate::grammar::Tree;
use crate::value::{Number, Value};
use vstd::prelude::*;
use vstd::std_specs::convert::FromSpecImpl;
use vstd::string::StringSliceAdditionalSpecFns;
use vstd::utf8::encode_utf8;

verus! {

impl From<isize> for Number {
    fn from(value: isize) -> (r: Number) {
        Number::Signed(value as i64)
    }
}

impl FromSpecImpl<isize> for Number {
    open spec fn obeys_from_spec() -> bool {
        true
    }

    open spec fn from_spec(value: isize) -> Number {
        Number::Signed(value as i64)
    }
}

impl From<i64> for Number {
    fn from(value: i64) -> (r: Number) {
        Number::Signed(value)
    }
}

impl FromSpecImpl<i64> for Number {
    open spec fn obeys_from_spec() -> bool {
        true
    }

    open spec fn from_spec(value: i64) -> Number {
        Number::Signed(value)
    }
}

impl From<i32> for Number {
    fn from(value: i32) -> (r: Number) {
        Number::Signed(value as i64)
    }
}

impl FromSpecImpl<i32> for Number {
    open spec fn obeys_from_spec() -> bool {
        true
    }

    open spec fn from_spec(value: i32) -> Number {
        Number::Signed(value as i64)
    }
}

impl From<i16> for Number {
    fn from(value: i16) -> (r: Number) {
        Number::Signed(value as i64)
    }
}

impl FromSpecImpl<i16> for Number {
    open spec fn obeys_from_spec() -> bool {
        true
    }

    open spec fn from_spec(value: i16) -> Number {
        Number::Signed(value as i64)
    }
}

impl From<i8> for Number {
    fn from(value: i8) -> (r: Number) {
        Number::Signed(value as i64)
    }
}

impl FromSpecImpl<i8> for Number {
    open spec fn obeys_from_spec() -> bool {
        true
    }

    open spec fn from_spec(value: i8) -> Number {
        Number::Signed(value as i64)
    }
}

impl From<usize> for Number {
    fn from(value: usize) -> (r: Number) {
        Number::Unsigned(value as u64)
    }
}

impl FromSpecImpl<usize> for Number {
    open spec fn obeys_from_spec() -> bool {
        true
    }

    open spec fn from_spec(value: usize) -> Number {
        Number::Unsigned(value as u64)
    }
}

impl From<u64> for Number {
    fn from(value: u64) -> (r: Number) {
        Number::Unsigned(value)
    }
}

impl FromSpecImpl<u64> for Number {
    open spec fn obeys_from_spec() -> bool {
        true
    }

    open spec fn from_spec(value: u64) -> Number {
        Number::Unsigned(value)
    }
}

impl From<u32> for Number {
    fn from(value: u32) -> (r: Number) {
        Number::Unsigned(value as u64)
    }
}

impl FromSpecImpl<u32> for Number {
    open spec fn obeys_from_spec() -> bool {
        true
    }

    open spec fn from_spec(value: u32) -> Number {
        Number::Unsigned(value as u64)
    }
}

impl From<u16> for Number {
    fn from(value: u16) -> (r: Number) {
        Number::Unsigned(value as u64)
    }
}

impl FromSpecImpl<u16> for Number {
    open spec fn obeys_from_spec() -> bool {
        true
    }

    open spec fn from_spec(value: u16) -> Number {
        Number::Unsigned(value as u64)
    }
}

impl From<u8> for Number {
    fn from(value: u8) -> (r: Number) {
        Number::Unsigned(value as u64)
    }
}

impl FromSpecImpl<u8> for Number {
    open spec fn obeys_from_spec() -> bool {
        true
    }

    open spec fn from_spec(value: u8) -> Number {
        Number::Unsigned(value as u64)
    }
}

impl From<isize> for Value {
    fn from(value: isize) -> (r: Value) {
        Value::Int(Number::Signed(value as i64))
    }
}

impl FromSpecImpl<isize> for Value {
    open spec fn obeys_from_spec() -> bool {
        true
    }

    open spec fn from_spec(value: isize) -> Value {
        Value::Int(Number::Signed(value as i64))
    }
}

impl From<i64> for Value {
    fn from(value: i64) -> (r: Value) {
        Value::Int(Number::Signed(value))
    }
}

impl FromSpecImpl<i64> for Value {
    open spec fn obeys_from_spec() -> bool {
        true
    }

    open spec fn from_spec(value: i64) -> Value {
        Value::Int(Number::Signed(value))
    }
}

impl From<i32> for Value {
    fn from(value: i32) -> (r: Value) {
        Value::Int(Number::Signed(value as i64))
    }
}

impl FromSpecImpl<i32> for Value {
    open spec fn obeys_from_spec() -> bool {
        true
    }

    open spec fn from_spec(value: i32) -> Value {
        Value::Int(Number::Signed(value as i64))
    }
}

impl From<i16> for Value {
    fn from(value: i16) -> (r: Value) {
        Value::Int(Number::Signed(value as i64))
    }
}

impl FromSpecImpl<i16> for Value {
    open spec fn obeys_from_spec() -> bool {
        true
    }

    open spec fn from_spec(value: i16) -> Value {
        Value::Int(Number::Signed(value as i64))
    }
}

impl From<i8> for Value {
    fn from(value: i8) -> (r: Value) {
        Value::Int(Number::Signed(value as i64))
    }
}

impl FromSpecImpl<i8> for Value {
    open spec fn obeys_from_spec() -> bool {
        true
    }

    open spec fn from_spec(value: i8) -> Value {
        Value::Int(Number::Signed(value as i64))
    }
}

impl From<usize> for Value {
    fn from(value: usize) -> (r: Value) {
        Value::Int(Number::Unsigned(value as u64))
    }
}

impl FromSpecImpl<usize> for Value {
    open spec fn obeys_from_spec() -> bool {
        true
    }

    open spec fn from_spec(value: usize) -> Value {
        Value::Int(Number::Unsigned(value as u64))
    }
}

impl From<u64> for Value {
    fn from(value: u64) -> (r: Value) {
        Value::Int(Number::Unsigned(value))
    }
}

impl FromSpecImpl<u64> for Value {
    open spec fn obeys_from_spec() -> bool {
        true
    }

    open spec fn from_spec(value: u64) -> Value {
        Value::Int(Number::Unsigned(value))
    }
}

impl From<u32> for Value {
    fn from(value: u32) -> (r: Value) {
        Value::Int(Number::Unsigned(value as u64))
    }
}

impl FromSpecImpl<u32> for Value {
    open spec fn obeys_from_spec() -> bool {
        true
    }

    open spec fn from_spec(value: u32) -> Value {
        Value::Int(Number::Unsigned(value as u64))
    }
}

impl From<u16> for Value {
    fn from(value: u16) -> (r: Value) {
        Value::Int(Number::Unsigned(value as u64))
    }
}

impl FromSpecImpl<u16> for Value {
    open spec fn obeys_from_spec() -> bool {
        true
    }

    open spec fn from_spec(value: u16) -> Value {
        Value::Int(Number::Unsigned(value as u64))
    }
}

impl From<u8> for Value {
    fn from(value: u8) -> (r: Value) {
        Value::Int(Number::Unsigned(value as u64))
    }
}

impl FromSpecImpl<u8> for Value {
    open spec fn obeys_from_spec() -> bool {
        true
    }

    open spec fn from_spec(value: u8) -> Value {
        Value::Int(Number::Unsigned(value as u64))
    }
}

impl<'a> From<&'a str> for Value {
    /// The byte string of the UTF-8 bytes of `text`.
    fn from(text: &'a str) -> (r: Value)
        ensures
            r@ == Tree::ByteStr(text.spec_bytes()),
    {
        Value::ByteStr(ByteString::from_str(text))
    }
}

impl<'a> FromSpecImpl<&'a str> for Value {
    open spec fn obeys_from_spec() -> bool {
        false
    }

    open spec fn from_spec(text: &'a str) -> Value {
        arbitrary()
    }
}

impl From<String> for Value {
    /// The byte string of the UTF-8 bytes of `text`.
    fn from(text: String) -> (r: Value)
        ensures
            r@ == Tree::ByteStr(encode_utf8(text@)),
    {
        Value::ByteStr(ByteString::from_str(text.as_str()))
    }
}

impl FromSpecImpl<String> for Value {
    open spec fn obeys_from_spec() -> bool {
        false
    }

    open spec fn from_spec(text: String) -> Value {
        arbitrary()
    }
}

impl From<Vec<Value>> for Value {
    fn from(items: Vec<Value>) -> (r: Value) {
        Value::List(items)
    }
}

impl FromSpecImpl<Vec<Value>> for Value {
    open spec fn obeys_from_spec() -> bool {
        true
    }

    open spec fn from_spec(items: Vec<Value>) -> Value {
        Value::List(items)
    }
}

impl core::str::FromStr for Value {
    type Err = Error;

    /// The byte string of the UTF-8 bytes of `text`. This does not decode:
    /// `from_slice` does.
    fn from_str(text: &str) -> (r: Result<Value, Error>)
        ensures
            r matches Ok(v) && v@ == Tree::ByteStr(text.spec_bytes()),
    {
        Ok(Value::ByteStr(ByteString::from_str(text)))
    }
}

} // verus!
