use bt_bencode::ser::MapKeySerializer;
use bt_bencode::value::ser::{DictKeySerializer, Serializer as ValueSerializer};
use bt_bencode::write::{ByteSink, IoWrite, Write};
use bt_bencode::{
    from_slice, to_vec, to_writer, ByteString, Dict, ErrorKind, Number, Serializer, Value,
};

fn text(s: &str) -> Value {
    Value::ByteStr(ByteString::from_str(s))
}

fn encoded<F: FnOnce(&mut Serializer<Vec<u8>>) -> Result<(), bt_bencode::Error>>(f: F) -> Vec<u8> {
    let mut ser = Serializer::new(Vec::new());
    f(&mut ser).unwrap();
    ser.into_inner()
}

fn is_unsupported<T: std::fmt::Debug>(r: Result<T, bt_bencode::Error>) -> bool {
    match r {
        Ok(_) => false,
        Err(e) => matches!(e.kind(), ErrorKind::UnsupportedType) && e.byte_offset() == 0,
    }
}

#[test]
fn ser_test_serialize_bool() {
    assert!(is_unsupported(ValueSerializer.serialize_bool(true)));
    let mut ser = Serializer::new(Vec::new());
    assert!(is_unsupported(ser.serialize_bool(true)));
    assert!(ser.into_inner().is_empty());
}

#[test]
fn ser_test_serialize_unit() {
    assert!(is_unsupported(ValueSerializer.serialize_unit()));
    let mut ser = Serializer::new(Vec::new());
    assert!(is_unsupported(ser.serialize_unit()));
}

#[test]
fn ser_test_serialize_none() {
    assert!(is_unsupported(ValueSerializer.serialize_none()));
    let mut ser = Serializer::new(Vec::new());
    assert!(is_unsupported(ser.serialize_none()));
}

#[test]
fn ser_test_serialize_i8() {
    assert_eq!(encoded(|s| s.serialize_i8(2)), b"i2e".to_vec());
    assert_eq!(encoded(|s| s.serialize_i8(-2)), b"i-2e".to_vec());
    assert_eq!(ValueSerializer.serialize_i8(-2).unwrap(), Value::Int(Number::Signed(-2)));
}

#[test]
fn ser_test_serialize_i16() {
    assert_eq!(encoded(|s| s.serialize_i16(2)), b"i2e".to_vec());
    assert_eq!(encoded(|s| s.serialize_i16(-2)), b"i-2e".to_vec());
    assert_eq!(ValueSerializer.serialize_i16(2).unwrap(), Value::Int(Number::Signed(2)));
}

#[test]
fn ser_test_serialize_i32() {
    assert_eq!(encoded(|s| s.serialize_i32(2)), b"i2e".to_vec());
    assert_eq!(encoded(|s| s.serialize_i32(-2)), b"i-2e".to_vec());
    assert_eq!(ValueSerializer.serialize_i32(-2).unwrap(), Value::Int(Number::Signed(-2)));
}

#[test]
fn ser_test_serialize_i64() {
    assert_eq!(encoded(|s| s.serialize_i64(2)), b"i2e".to_vec());
    assert_eq!(encoded(|s| s.serialize_i64(-2)), b"i-2e".to_vec());
    assert_eq!(ValueSerializer.serialize_i64(2).unwrap(), Value::Int(Number::Signed(2)));
    assert_eq!(encoded(|s| s.serialize_i64(i64::MIN)), b"i-9223372036854775808e".to_vec());
    assert_eq!(encoded(|s| s.serialize_i64(0)), b"i0e".to_vec());
}

#[test]
fn ser_test_serialize_u8() {
    assert_eq!(encoded(|s| s.serialize_u8(2)), b"i2e".to_vec());
    assert_eq!(ValueSerializer.serialize_u8(2).unwrap(), Value::Int(Number::Unsigned(2)));
}

#[test]
fn ser_test_serialize_u16() {
    assert_eq!(encoded(|s| s.serialize_u16(2)), b"i2e".to_vec());
    assert_eq!(ValueSerializer.serialize_u16(2).unwrap(), Value::Int(Number::Unsigned(2)));
}

#[test]
fn ser_test_serialize_u32() {
    assert_eq!(encoded(|s| s.serialize_u32(2)), b"i2e".to_vec());
    assert_eq!(ValueSerializer.serialize_u32(2).unwrap(), Value::Int(Number::Unsigned(2)));
}

#[test]
fn ser_test_serialize_u64() {
    assert_eq!(encoded(|s| s.serialize_u64(2)), b"i2e".to_vec());
    assert_eq!(ValueSerializer.serialize_u64(2).unwrap(), Value::Int(Number::Unsigned(2)));
}

#[test]
fn ser_test_serialize_u64_greater_than_i64_max() {
    let value: u64 = (i64::MAX as u64) + 1;
    assert_eq!(encoded(|s| s.serialize_u64(value)), format!("i{}e", value).into_bytes());
    assert_eq!(
        ValueSerializer.serialize_u64(value).unwrap(),
        Value::Int(Number::Unsigned(value))
    );
    assert_eq!(encoded(|s| s.serialize_u64(u64::MAX)), b"i18446744073709551615e".to_vec());
}

#[test]
fn ser_test_serialize_str() {
    let value: &str = "Hello world!";
    assert_eq!(encoded(|s| s.serialize_str(value)), b"12:Hello world!".to_vec());
    assert_eq!(ValueSerializer.serialize_str(value).unwrap(), text(value));
}

#[test]
fn ser_test_serialize_empty_str() {
    assert_eq!(encoded(|s| s.serialize_str("")), b"0:".to_vec());
    assert_eq!(ValueSerializer.serialize_str("").unwrap(), text(""));
}

#[test]
fn ser_test_serialize_bytes() {
    let value = String::from("123").into_bytes();
    assert_eq!(encoded(|s| s.serialize_bytes(&value)), b"3:123".to_vec());
    assert_eq!(
        ValueSerializer.serialize_bytes(&value).unwrap(),
        Value::ByteStr(ByteString::from_vec(value))
    );
}

#[test]
fn ser_test_serialize_unit_struct() {
    assert!(is_unsupported(ValueSerializer.serialize_unit_struct("Nothing")));
    let mut ser = Serializer::new(Vec::new());
    assert!(is_unsupported(ser.serialize_unit_struct("Nothing")));
}

#[test]
fn ser_test_serialize_unit_variant() {
    assert!(is_unsupported(ValueSerializer.serialize_unit_variant("Nothing", 0, "Case")));
    let mut ser = Serializer::new(Vec::new());
    assert!(is_unsupported(ser.serialize_unit_variant("Nothing", 0, "Case")));
}

#[test]
fn ser_test_serialize_seq() {
    let value = Value::List(vec![
        Value::Int(Number::Unsigned(1)),
        Value::Int(Number::Unsigned(2)),
        Value::Int(Number::Unsigned(3)),
    ]);
    assert_eq!(to_vec(&value).unwrap(), b"li1ei2ei3ee".to_vec());
    let mut list = ValueSerializer.serialize_seq(Some(3)).unwrap();
    for i in 1u64..=3 {
        list.serialize_element(Value::Int(Number::Unsigned(i))).unwrap();
    }
    assert_eq!(list.end().unwrap(), value);
    let bytes = encoded(|s| {
        s.serialize_seq(None)?;
        for i in 1u8..=3 {
            s.serialize_element(&Value::Int(Number::Unsigned(i as u64)))?;
        }
        s.end()
    });
    assert_eq!(bytes, b"li1ei2ei3ee".to_vec());
}

#[test]
fn ser_test_serialize_seq_empty() {
    assert_eq!(to_vec(&Value::List(vec![])).unwrap(), b"le".to_vec());
    assert_eq!(ValueSerializer.serialize_seq(None).unwrap().end().unwrap(), Value::List(vec![]));
}

#[test]
fn ser_test_serialize_tuple() {
    assert!(ValueSerializer.serialize_tuple(0).is_err());
    let mut ser = Serializer::new(Vec::new());
    assert!(is_unsupported(ser.serialize_tuple(0)));
}

#[test]
fn ser_test_serialize_tuple_struct() {
    assert!(ValueSerializer.serialize_tuple_struct("Tuple Struct", 2).is_err());
    let mut ser = Serializer::new(Vec::new());
    assert!(is_unsupported(ser.serialize_tuple_struct("Tuple Struct", 2)));
}

#[test]
fn ser_test_serialize_tuple_variant() {
    assert!(ValueSerializer.serialize_tuple_variant("Tuple Variant", 2, "Case", 1).is_err());
    let mut ser = Serializer::new(Vec::new());
    assert!(is_unsupported(ser.serialize_tuple_variant("Tuple Variant", 2, "Case", 1)));
}

#[test]
fn ser_test_serialize_struct_variant() {
    assert!(ValueSerializer.serialize_struct_variant("Struct Variant", 2, "Case", 1).is_err());
    let mut ser = Serializer::new(Vec::new());
    assert!(is_unsupported(ser.serialize_struct_variant("Struct Variant", 2, "Case", 1)));
}

#[test]
fn ser_test_serialize_struct() {
    let mut ser = Serializer::new(Vec::new());
    let mut map = ser.serialize_struct("Test", 2).unwrap();
    map.serialize_field("s", b"13:Hello, World!".to_vec()).unwrap();
    map.serialize_field("int", b"i3e".to_vec()).unwrap();
    map.end(&mut ser).unwrap();
    assert_eq!(ser.into_inner(), b"d3:inti3e1:s13:Hello, World!e".to_vec());

    let mut dict = ValueSerializer.serialize_struct("Test", 2).unwrap();
    dict.serialize_field("s", text("Hello, World!")).unwrap();
    dict.serialize_field("int", Value::Int(Number::Unsigned(3))).unwrap();
    let mut expected = Dict::new();
    expected.insert(ByteString::from_str("int"), Value::Int(Number::Unsigned(3)));
    expected.insert(ByteString::from_str("s"), text("Hello, World!"));
    assert_eq!(dict.end().unwrap(), Value::Dict(expected));
}

#[test]
fn test_serialize_string() {
    assert_eq!(to_vec(&text("spam")).unwrap(), b"4:spam".to_vec());
}

#[test]
fn test_serialize_integer_1() {
    assert_eq!(to_vec(&Value::Int(Number::Unsigned(3))).unwrap(), b"i3e".to_vec());
}

#[test]
fn test_serialize_integer_2() {
    assert_eq!(to_vec(&Value::Int(Number::Signed(-3))).unwrap(), b"i-3e".to_vec());
}

#[test]
fn test_serialize_integer_3() {
    assert_eq!(to_vec(&Value::Int(Number::Unsigned(0))).unwrap(), b"i0e".to_vec());
}

#[test]
fn test_serialize_list() {
    let v = Value::List(vec![text("spam"), text("eggs")]);
    assert_eq!(to_vec(&v).unwrap(), b"l4:spam4:eggse".to_vec());
}

#[test]
fn test_serialize_dict_1() {
    let mut dict = Dict::new();
    dict.insert(ByteString::from_str("cow"), text("moo"));
    dict.insert(ByteString::from_str("spam"), text("eggs"));
    assert_eq!(to_vec(&Value::Dict(dict)).unwrap(), b"d3:cow3:moo4:spam4:eggse".to_vec());
}

#[test]
fn test_serialize_dict_2() {
    let mut dict = Dict::new();
    dict.insert(ByteString::from_str("spam"), Value::List(vec![text("a"), text("b")]));
    assert_eq!(to_vec(&Value::Dict(dict)).unwrap(), b"d4:spaml1:a1:bee".to_vec());
}

#[test]
fn keys_are_written_in_order_whatever_order_they_came_in() {
    let mut a = Dict::new();
    a.insert(ByteString::from_str("spam"), text("eggs"));
    a.insert(ByteString::from_str("cow"), text("moo"));
    let mut b = Dict::new();
    b.insert(ByteString::from_str("cow"), text("moo"));
    b.insert(ByteString::from_str("spam"), text("eggs"));
    assert_eq!(a, b);
    let bytes = to_vec(&Value::Dict(a)).unwrap();
    assert_eq!(bytes, b"d3:cow3:moo4:spam4:eggse".to_vec());
    assert_eq!(bytes, to_vec(&Value::Dict(b)).unwrap());
}

#[test]
fn keys_are_ordered_byte_by_byte() {
    let mut d = Dict::new();
    for k in [&b"b"[..], b"ab", b"a", b"", b"\xff", b"a\x00", b"B"] {
        d.insert(ByteString::from_slice(k), Value::Int(Number::Unsigned(0)));
    }
    let keys: Vec<Vec<u8>> =
        (0..d.len()).map(|i| d.entry(i).unwrap().0.as_slice().to_vec()).collect();
    let expected: Vec<Vec<u8>> = [&b""[..], b"B", b"a", b"a\x00", b"ab", b"b", b"\xff"]
        .iter()
        .map(|k| k.to_vec())
        .collect();
    assert_eq!(keys, expected);
}

#[test]
fn a_key_bound_twice_keeps_the_later_value() {
    let mut d = Dict::new();
    d.insert(ByteString::from_str("k"), text("one"));
    d.insert(ByteString::from_str("k"), text("two"));
    assert_eq!(d.len(), 1);
    assert_eq!(d.get(b"k"), Some(&text("two")));
    assert_eq!(d.get(b"j"), None);
}

#[test]
fn collected_entries_are_written_in_key_order() {
    let mut ser = Serializer::new(Vec::new());
    let mut map = ser.serialize_map(None).unwrap();
    map.serialize_key(b"spam".to_vec()).unwrap();
    map.serialize_value(b"4:eggs".to_vec()).unwrap();
    map.serialize_key(b"cow".to_vec()).unwrap();
    map.serialize_value(b"3:moo".to_vec()).unwrap();
    map.serialize_key(b"cow".to_vec()).unwrap();
    map.serialize_value(b"3:baa".to_vec()).unwrap();
    map.end(&mut ser).unwrap();
    assert_eq!(ser.into_inner(), b"d3:cow3:baa4:spam4:eggse".to_vec());
}

#[test]
fn keys_and_values_must_come_in_turn() {
    let mut ser = Serializer::new(Vec::new());
    let mut map = ser.serialize_map(None).unwrap();
    let e = map.serialize_value(b"i1e".to_vec()).unwrap_err();
    assert!(matches!(e.kind(), ErrorKind::ValueWithoutKey));
    map.serialize_key(b"a".to_vec()).unwrap();
    let e = map.serialize_key(b"b".to_vec()).unwrap_err();
    assert!(matches!(e.kind(), ErrorKind::KeyWithoutValue));
    let e = map.end(&mut ser).unwrap_err();
    assert!(matches!(e.kind(), ErrorKind::KeyWithoutValue));
    assert_eq!(ser.into_inner(), b"d".to_vec());

    let mut dict = ValueSerializer.serialize_map(None).unwrap();
    let e = dict.serialize_value(text("v")).unwrap_err();
    assert!(matches!(e.kind(), ErrorKind::ValueWithoutKey));
    dict.serialize_key(ByteString::from_str("a")).unwrap();
    let e = dict.serialize_key(ByteString::from_str("b")).unwrap_err();
    assert!(matches!(e.kind(), ErrorKind::KeyWithoutValue));
    dict.serialize_value(text("v")).unwrap();
    let mut expected = Dict::new();
    expected.insert(ByteString::from_str("a"), text("v"));
    assert_eq!(dict.end().unwrap(), Value::Dict(expected));
}

#[test]
fn only_text_and_bytes_are_keys() {
    let mut k = MapKeySerializer;
    assert_eq!(k.serialize_str("cow").unwrap(), b"cow".to_vec());
    assert_eq!(k.serialize_bytes(b"\xff").unwrap(), b"\xff".to_vec());
    assert!(is_unsupported(k.serialize_bool(true)));
    assert!(is_unsupported(k.serialize_i64(1)));
    assert!(is_unsupported(k.serialize_u64(1)));
    assert!(is_unsupported(k.serialize_unit()));
    assert!(is_unsupported(k.serialize_none()));
    assert!(is_unsupported(k.serialize_seq(None)));
    assert!(is_unsupported(k.serialize_map(None)));
    let mut d = DictKeySerializer;
    assert_eq!(d.serialize_str("cow").unwrap(), ByteString::from_str("cow"));
    assert_eq!(d.serialize_bytes(b"\xff").unwrap(), ByteString::from_slice(b"\xff"));
    assert!(is_unsupported(d.serialize_bool(true)));
    assert!(is_unsupported(d.serialize_i64(1)));
    assert!(is_unsupported(d.serialize_u64(1)));
    assert!(is_unsupported(d.serialize_unit()));
    assert!(is_unsupported(d.serialize_none()));
    assert!(is_unsupported(d.serialize_seq(None)));
    assert!(is_unsupported(d.serialize_map(None)));
}

#[test]
fn what_is_encoded_decodes_to_itself() {
    let mut inner = Dict::new();
    inner.insert(ByteString::from_str("length"), Value::Int(Number::Unsigned(12)));
    inner.insert(ByteString::from_slice(b"\x00\xff"), Value::Int(Number::Signed(-7)));
    inner.insert(ByteString::from_str(""), Value::List(vec![]));
    let mut outer = Dict::new();
    outer.insert(ByteString::from_str("info"), Value::Dict(inner));
    outer.insert(
        ByteString::from_str("list"),
        Value::List(vec![text(""), text("0123456789ab"), Value::Int(Number::Unsigned(u64::MAX))]),
    );
    outer.insert(ByteString::from_str("min"), Value::Int(Number::Signed(i64::MIN)));
    let v = Value::Dict(outer);
    let bytes = to_vec(&v).unwrap();
    assert_eq!(from_slice(&bytes).unwrap(), v);
    assert_eq!(to_vec(&from_slice(&bytes).unwrap()).unwrap(), bytes);
}

#[test]
fn a_signed_number_that_is_not_negative_decodes_as_unsigned() {
    let bytes = to_vec(&Value::Int(Number::Signed(5))).unwrap();
    assert_eq!(bytes, b"i5e".to_vec());
    assert_eq!(from_slice(&bytes).unwrap(), Value::Int(Number::Unsigned(5)));
}

/// A sink in memory behind the stream interface, which fails when told to.
struct Pipe {
    taken: Vec<u8>,
    broken: bool,
}

impl ByteSink for Pipe {
    fn write_bytes(&mut self, buf: &[u8]) -> Result<(), std::io::Error> {
        if self.broken {
            return Err(std::io::Error::new(std::io::ErrorKind::Other, "broken"));
        }
        self.taken.extend_from_slice(buf);
        Ok(())
    }
}

#[test]
fn writing_to_a_stream() {
    let v = Value::List(vec![text("spam"), Value::Int(Number::Signed(-3))]);
    let w = to_writer(IoWrite::new(Pipe { taken: vec![], broken: false }), &v).unwrap();
    assert_eq!(w.into_inner().taken, b"l4:spami-3ee".to_vec());
    match to_writer(IoWrite::new(Pipe { taken: vec![], broken: true }), &v) {
        Ok(_) => panic!("a broken sink took bytes"),
        Err(e) => assert!(matches!(e.kind(), ErrorKind::Io(_))),
    }
    let mut sink: Vec<u8> = b"x".to_vec();
    sink.write_all(b"yz").unwrap();
    assert_eq!(sink, b"xyz".to_vec());
}

#[test]
fn ser_test_serialize_char() {
    assert_eq!(encoded(|s| s.serialize_char('a')), b"1:a".to_vec());
    assert_eq!(encoded(|s| s.serialize_char('\u{e9}')), b"2:\xc3\xa9".to_vec());
    assert_eq!(ValueSerializer.serialize_char('a').unwrap(), text("a"));
    assert_eq!(MapKeySerializer.serialize_char('\u{20ac}').unwrap(), "\u{20ac}".as_bytes().to_vec());
    assert_eq!(DictKeySerializer.serialize_char('a').unwrap(), ByteString::from_str("a"));
}

#[test]
fn a_borrowed_vector_is_a_sink() {
    let mut out: Vec<u8> = Vec::new();
    {
        let mut ser = Serializer::new(&mut out);
        ser.serialize_u8(7).unwrap();
    }
    assert_eq!(out, b"i7e".to_vec());
}

/// A sink that takes a number of writes and then fails.
struct Budget {
    taken: std::rc::Rc<std::cell::RefCell<Vec<u8>>>,
    writes_left: usize,
}

impl ByteSink for Budget {
    fn write_bytes(&mut self, buf: &[u8]) -> Result<(), std::io::Error> {
        if self.writes_left == 0 {
            return Err(std::io::Error::new(std::io::ErrorKind::Other, "full"));
        }
        self.writes_left -= 1;
        self.taken.borrow_mut().extend_from_slice(buf);
        Ok(())
    }
}

#[test]
fn a_sink_that_fails_holds_a_leading_part_of_the_encoding() {
    let mut d = Dict::new();
    d.insert(ByteString::from_str("b"), Value::List(vec![text("x"), Value::Int(Number::Signed(-1))]));
    d.insert(ByteString::from_str("a"), Value::Int(Number::Unsigned(1)));
    let v = Value::Dict(d);
    let whole = to_vec(&v).unwrap();
    assert_eq!(whole, b"d1:ai1e1:bl1:xi-1eee".to_vec());
    let mut seen_whole = false;
    for writes in 0..40 {
        let taken = std::rc::Rc::new(std::cell::RefCell::new(Vec::new()));
        let sink = IoWrite::new(Budget { taken: taken.clone(), writes_left: writes });
        let r = to_writer(sink, &v);
        let got = taken.borrow().clone();
        assert!(whole.starts_with(&got));
        match r {
            Ok(_) => {
                assert_eq!(got, whole);
                seen_whole = true;
            }
            Err(e) => {
                assert!(matches!(e.kind(), ErrorKind::Io(_)));
                assert!(got.len() < whole.len());
            }
        }
    }
    assert!(seen_whole);
}

#[test]
fn ser_test_serialize_isize() {
    let value: isize = 2;
    assert_eq!(to_vec(&Value::from(value)).unwrap(), b"i2e".to_vec());
    assert_eq!(Value::from(value), Value::Int(Number::Signed(2)));
    let value: isize = -2;
    assert_eq!(to_vec(&Value::from(value)).unwrap(), b"i-2e".to_vec());
    assert_eq!(Value::from(value), Value::Int(Number::Signed(-2)));
}

#[test]
fn ser_test_serialize_usize() {
    let value: usize = 2;
    assert_eq!(to_vec(&Value::from(value)).unwrap(), b"i2e".to_vec());
    assert_eq!(Value::from(value), Value::Int(Number::Unsigned(2)));
}

#[test]
fn ser_test_serialize_some() {
    let value = Value::Int(Number::Signed(2));
    assert_eq!(encoded(|s| s.serialize_some(&value)), b"i2e".to_vec());
    assert_eq!(ValueSerializer.serialize_some(value.clone()).unwrap(), value);
}

#[test]
fn ser_test_serialize_newtype_struct() {
    let value = Value::Int(Number::Signed(2));
    assert_eq!(encoded(|s| s.serialize_newtype_struct("Nothing", &value)), b"i2e".to_vec());
    ValueSerializer.serialize_newtype_struct("Nothing", value).unwrap();
}

#[test]
fn ser_test_serialize_newtype_variant() {
    let value = Value::Int(Number::Signed(2));
    let mut ser = Serializer::new(Vec::new());
    assert!(is_unsupported(ser.serialize_newtype_variant("Nothing", 0, "Case", &value)));
    assert!(is_unsupported(ValueSerializer.serialize_newtype_variant("Nothing", 0, "Case", value)));
}
