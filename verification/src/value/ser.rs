//! Building a value piece by piece, as an encoder is driven: scalars become
//! values at once, lists and dictionaries are collected item by item.

use crate::bstring::ByteString;
use crate::error::{Error, ErrorKind, Failure};
use crate::grammar::Tree;
use crate::order::put;
use crate::value::{lemma_view_dict, lemma_view_list, trees_of, Dict, Number, Value};
use vstd::prelude::*;
use vstd::string::StringSliceAdditionalSpecFns;
use vstd::utf8::encode_scalar;

verus! {

/// That a result is the refusal of a type which Bencode cannot express.
pub open spec fn unsupported<T>(r: Result<T, Error>) -> bool {
    r matches Err(e) && e@ == (Failure { kind: ErrorKind::UnsupportedType, offset: 0 })
}

/// Turns what an encoder is handed into values.
pub struct Serializer;

impl Serializer {
    /// Booleans cannot be expressed.
    pub fn serialize_bool(self, _value: bool) -> (r: Result<Value, Error>)
        ensures
            unsupported(r),
    {
        Err(Error::with_kind(ErrorKind::UnsupportedType))
    }

    /// A signed number.
    pub fn serialize_i8(self, value: i8) -> (r: Result<Value, Error>)
        ensures
            r matches Ok(v) && v == Value::Int(Number::Signed(value as i64)),
    {
        self.serialize_i64(value as i64)
    }

    /// A signed number.
    pub fn serialize_i16(self, value: i16) -> (r: Result<Value, Error>)
        ensures
            r matches Ok(v) && v == Value::Int(Number::Signed(value as i64)),
    {
        self.serialize_i64(value as i64)
    }

    /// A signed number.
    pub fn serialize_i32(self, value: i32) -> (r: Result<Value, Error>)
        ensures
            r matches Ok(v) && v == Value::Int(Number::Signed(value as i64)),
    {
        self.serialize_i64(value as i64)
    }

    /// A signed number.
    pub fn serialize_i64(self, value: i64) -> (r: Result<Value, Error>)
        ensures
            r matches Ok(v) && v == Value::Int(Number::Signed(value)),
    {
        Ok(Value::Int(Number::Signed(value)))
    }

    /// An unsigned number.
    pub fn serialize_u8(self, value: u8) -> (r: Result<Value, Error>)
        ensures
            r matches Ok(v) && v == Value::Int(Number::Unsigned(value as u64)),
    {
        self.serialize_u64(value as u64)
    }

    /// An unsigned number.
    pub fn serialize_u16(self, value: u16) -> (r: Result<Value, Error>)
        ensures
            r matches Ok(v) && v == Value::Int(Number::Unsigned(value as u64)),
    {
        self.serialize_u64(value as u64)
    }

    /// An unsigned number.
    pub fn serialize_u32(self, value: u32) -> (r: Result<Value, Error>)
        ensures
            r matches Ok(v) && v == Value::Int(Number::Unsigned(value as u64)),
    {
        self.serialize_u64(value as u64)
    }

    /// An unsigned number.
    pub fn serialize_u64(self, value: u64) -> (r: Result<Value, Error>)
        ensures
            r matches Ok(v) && v == Value::Int(Number::Unsigned(value)),
    {
        Ok(Value::Int(Number::Unsigned(value)))
    }

    /// A character, as the byte string of its UTF-8 bytes.
    pub fn serialize_char(self, value: char) -> (r: Result<Value, Error>)
        ensures
            r matches Ok(v) && v@ == Tree::ByteStr(encode_scalar(value as u32)),
    {
        Ok(Value::ByteStr(ByteString::from_char(value)))
    }

    /// Text, as the byte string of its UTF-8 bytes.
    pub fn serialize_str(self, value: &str) -> (r: Result<Value, Error>)
        ensures
            r matches Ok(v) && v@ == Tree::ByteStr(value.spec_bytes()),
    {
        Ok(Value::ByteStr(ByteString::from_str(value)))
    }

    /// A byte string.
    pub fn serialize_bytes(self, value: &[u8]) -> (r: Result<Value, Error>)
        ensures
            r matches Ok(v) && v@ == Tree::ByteStr(value@),
    {
        Ok(Value::ByteStr(ByteString::from_slice(value)))
    }

    /// An absent value cannot be expressed.
    pub fn serialize_none(self) -> (r: Result<Value, Error>)
        ensures
            unsupported(r),
    {
        self.serialize_unit()
    }

    /// A value that is present, as the value itself.
    pub fn serialize_some(self, value: Value) -> (r: Result<Value, Error>)
        ensures
            r matches Ok(v) && v == value,
    {
        Ok(value)
    }

    /// The unit value cannot be expressed.
    pub fn serialize_unit(self) -> (r: Result<Value, Error>)
        ensures
            unsupported(r),
    {
        Err(Error::with_kind(ErrorKind::UnsupportedType))
    }

    /// A unit struct cannot be expressed.
    pub fn serialize_unit_struct(self, _name: &str) -> (r: Result<Value, Error>)
        ensures
            unsupported(r),
    {
        self.serialize_unit()
    }

    /// A variant of an enum cannot be expressed.
    pub fn serialize_unit_variant(self, _name: &str, _variant_index: u32, _variant: &str) -> (r:
        Result<Value, Error>)
        ensures
            unsupported(r),
    {
        Err(Error::with_kind(ErrorKind::UnsupportedType))
    }

    /// A struct of one field, as the field itself.
    pub fn serialize_newtype_struct(self, _name: &str, value: Value) -> (r: Result<Value, Error>)
        ensures
            r matches Ok(v) && v == value,
    {
        Ok(value)
    }

    /// A variant of an enum cannot be expressed.
    pub fn serialize_newtype_variant(
        self,
        _name: &str,
        _variant_index: u32,
        _variant: &str,
        _value: Value,
    ) -> (r: Result<Value, Error>)
        ensures
            unsupported(r),
    {
        Err(Error::with_kind(ErrorKind::UnsupportedType))
    }

    /// Starts a list.
    pub fn serialize_seq(self, len: Option<usize>) -> (r: Result<SerializeList, Error>)
        ensures
            r matches Ok(list) && list@ == Seq::<Tree>::empty(),
    {
        let list: Vec<Value> = match len {
            Some(n) => Vec::with_capacity(n),
            None => Vec::new(),
        };
        assert(trees_of(list@) =~= Seq::empty());
        Ok(SerializeList { list })
    }

    /// A tuple cannot be expressed.
    pub fn serialize_tuple(self, _len: usize) -> (r: Result<SerializeList, Error>)
        ensures
            unsupported(r),
    {
        Err(Error::with_kind(ErrorKind::UnsupportedType))
    }

    /// A tuple struct cannot be expressed.
    pub fn serialize_tuple_struct(self, _name: &str, _len: usize) -> (r: Result<
        SerializeList,
        Error,
    >)
        ensures
            unsupported(r),
    {
        Err(Error::with_kind(ErrorKind::UnsupportedType))
    }

    /// A variant of an enum cannot be expressed.
    pub fn serialize_tuple_variant(
        self,
        _name: &str,
        _variant_index: u32,
        _variant: &str,
        _len: usize,
    ) -> (r: Result<SerializeList, Error>)
        ensures
            unsupported(r),
    {
        Err(Error::with_kind(ErrorKind::UnsupportedType))
    }

    /// Starts a dictionary.
    pub fn serialize_map(self, _len: Option<usize>) -> (r: Result<SerializeDict, Error>)
        ensures
            r matches Ok(dict) && dict@ == Seq::<(Seq<u8>, Tree)>::empty() && dict.pending()
                is None,
    {
        Ok(SerializeDict { dict: Dict::new(), current_key: None })
    }

    /// Starts a dictionary for the fields of a struct.
    pub fn serialize_struct(self, _name: &str, len: usize) -> (r: Result<SerializeDict, Error>)
        ensures
            r matches Ok(dict) && dict@ == Seq::<(Seq<u8>, Tree)>::empty() && dict.pending()
                is None,
    {
        self.serialize_map(Some(len))
    }

    /// A variant of an enum cannot be expressed.
    pub fn serialize_struct_variant(
        self,
        _name: &str,
        _variant_index: u32,
        _variant: &str,
        _len: usize,
    ) -> (r: Result<SerializeDict, Error>)
        ensures
            unsupported(r),
    {
        Err(Error::with_kind(ErrorKind::UnsupportedType))
    }
}

/// A list that is being collected.
pub struct SerializeList {
    list: Vec<Value>,
}

impl View for SerializeList {
    type V = Seq<Tree>;

    closed spec fn view(&self) -> Seq<Tree> {
        trees_of(self.list@)
    }
}

impl SerializeList {
    /// Adds an item at the end.
    pub fn serialize_element(&mut self, value: Value) -> (r: Result<(), Error>)
        ensures
            r is Ok,
            final(self)@ == old(self)@.push(value@),
    {
        let ghost before = self.list@;
        self.list.push(value);
        assert(trees_of(self.list@) =~= trees_of(before).push(value@));
        Ok(())
    }

    /// The list.
    pub fn end(self) -> (r: Result<Value, Error>)
        ensures
            r matches Ok(v) && v@ == Tree::List(self@),
    {
        proof {
            lemma_view_list(self.list);
        }
        Ok(Value::List(self.list))
    }
}

/// A dictionary that is being collected: keys and values come in turn, in
/// any order of keys.
pub struct SerializeDict {
    dict: Dict,
    current_key: Option<ByteString>,
}

impl View for SerializeDict {
    type V = Seq<(Seq<u8>, Tree)>;

    closed spec fn view(&self) -> Seq<(Seq<u8>, Tree)> {
        self.dict@
    }
}

impl SerializeDict {
    /// The key that waits for its value.
    pub closed spec fn pending(&self) -> Option<Seq<u8>> {
        match self.current_key {
            Some(k) => Some(k@),
            None => None,
        }
    }

    /// Whether the keys collected so far ascend strictly.
    pub closed spec fn wf(&self) -> bool {
        self.dict.wf()
    }

    /// Takes a key. A key that waits for its value must get it first.
    pub fn serialize_key(&mut self, key: ByteString) -> (r: Result<(), Error>)
        ensures
            final(self)@ == old(self)@,
            final(self).wf() == old(self).wf(),
            match r {
                Ok(()) => old(self).pending() is None && final(self).pending() == Some(key@),
                Err(e) => old(self).pending() is Some && final(self).pending()
                    == old(self).pending() && e@
                    == (Failure { kind: ErrorKind::KeyWithoutValue, offset: 0 }),
            },
    {
        if self.current_key.is_some() {
            return Err(Error::with_kind(ErrorKind::KeyWithoutValue));
        }
        self.current_key = Some(key);
        Ok(())
    }

    /// Takes the value of the key that waits, and binds the key to it.
    pub fn serialize_value(&mut self, value: Value) -> (r: Result<(), Error>)
        ensures
            final(self).pending() is None,
            old(self).wf() ==> final(self).wf(),
            match r {
                Ok(()) => old(self).pending() matches Some(key) && final(self)@ == put(
                    old(self)@,
                    key,
                    value@,
                ),
                Err(e) => old(self).pending() is None && final(self)@ == old(self)@ && e@ == (
                    Failure { kind: ErrorKind::ValueWithoutKey, offset: 0 }
                ),
            },
    {
        let key: Option<ByteString> = self.current_key.take();
        match key {
            Some(key) => {
                self.dict.insert(key, value);
                Ok(())
            },
            None => Err(Error::with_kind(ErrorKind::ValueWithoutKey)),
        }
    }

    /// Binds the name of a field to its value.
    pub fn serialize_field(&mut self, key: &str, value: Value) -> (r: Result<(), Error>)
        ensures
            r is Ok,
            final(self).pending() == old(self).pending(),
            old(self).wf() ==> final(self).wf(),
            final(self)@ == put(old(self)@, key.spec_bytes(), value@),
    {
        self.dict.insert(ByteString::from_str(key), value);
        Ok(())
    }

    /// The dictionary.
    pub fn end(self) -> (r: Result<Value, Error>)
        ensures
            r matches Ok(v) && v@ == Tree::Dict(self@),
    {
        proof {
            lemma_view_dict(self.dict);
        }
        Ok(Value::Dict(self.dict))
    }
}

/// Turns what an encoder is handed for a key into a byte string. Only text
/// and bytes can be keys.
pub struct DictKeySerializer;

impl DictKeySerializer {
    /// A boolean cannot be a key.
    pub fn serialize_bool(&mut self, _value: bool) -> (r: Result<ByteString, Error>)
        ensures
            unsupported(r),
    {
        Err(Error::with_kind(ErrorKind::UnsupportedType))
    }

    /// A number cannot be a key.
    pub fn serialize_i64(&mut self, _value: i64) -> (r: Result<ByteString, Error>)
        ensures
            unsupported(r),
    {
        Err(Error::with_kind(ErrorKind::UnsupportedType))
    }

    /// A number cannot be a key.
    pub fn serialize_u64(&mut self, _value: u64) -> (r: Result<ByteString, Error>)
        ensures
            unsupported(r),
    {
        Err(Error::with_kind(ErrorKind::UnsupportedType))
    }

    /// A character is a key: the byte string of its UTF-8 bytes.
    pub fn serialize_char(&mut self, value: char) -> (r: Result<ByteString, Error>)
        ensures
            r matches Ok(key) && key@ == encode_scalar(value as u32),
    {
        Ok(ByteString::from_char(value))
    }

    /// Text is a key: the byte string of its UTF-8 bytes.
    pub fn serialize_str(&mut self, value: &str) -> (r: Result<ByteString, Error>)
        ensures
            r matches Ok(key) && key@ == value.spec_bytes(),
    {
        Ok(ByteString::from_str(value))
    }

    /// Bytes are a key.
    pub fn serialize_bytes(&mut self, value: &[u8]) -> (r: Result<ByteString, Error>)
        ensures
            r matches Ok(key) && key@ == value@,
    {
        Ok(ByteString::from_slice(value))
    }

    /// The unit value cannot be a key.
    pub fn serialize_unit(&mut self) -> (r: Result<ByteString, Error>)
        ensures
            unsupported(r),
    {
        Err(Error::with_kind(ErrorKind::UnsupportedType))
    }

    /// An absent value cannot be a key.
    pub fn serialize_none(&mut self) -> (r: Result<ByteString, Error>)
        ensures
            unsupported(r),
    {
        Err(Error::with_kind(ErrorKind::UnsupportedType))
    }

    /// A list cannot be a key.
    pub fn serialize_seq(&mut self, _len: Option<usize>) -> (r: Result<ByteString, Error>)
        ensures
            unsupported(r),
    {
        Err(Error::with_kind(ErrorKind::UnsupportedType))
    }

    /// A dictionary cannot be a key.
    pub fn serialize_map(&mut self, _len: Option<usize>) -> (r: Result<ByteString, Error>)
        ensures
            unsupported(r),
    {
        Err(Error::with_kind(ErrorKind::UnsupportedType))
    }
}

} // verus!
