use bt_bencode::{from_slice, ByteString, Dict, Error, ErrorKind, Number, Value};

fn text(s: &str) -> Value {
    Value::ByteStr(ByteString::from_str(s))
}

#[test]
fn accessors_tell_the_kinds_apart() {
    let s = text("spam");
    let raw = Value::ByteStr(ByteString::from_slice(b"\xff\xfe"));
    let u = Value::Int(Number::Unsigned(3));
    let i = Value::Int(Number::Signed(-3));
    let l = Value::List(vec![text("a")]);
    let d = Value::Dict(Dict::new());

    assert!(s.is_byte_str() && s.is_string() && !s.is_u64() && !s.is_array() && !s.is_dict());
    assert!(raw.is_byte_str() && !raw.is_string());
    assert_eq!(raw.as_str(), None);
    assert_eq!(raw.as_byte_str().map(|b| b.as_slice().to_vec()), Some(b"\xff\xfe".to_vec()));
    assert!(u.is_u64() && !u.is_i64() && !u.is_byte_str());
    assert!(i.is_i64() && !i.is_u64());
    assert_eq!(u.as_u64(), Some(3));
    assert_eq!(u.as_i64(), None);
    assert_eq!(i.as_i64(), Some(-3));
    assert_eq!(i.as_u64(), None);
    assert_eq!(u.as_number(), Some(&Number::Unsigned(3)));
    assert_eq!(s.as_number(), None);
    assert!(l.is_array() && !l.is_dict());
    assert_eq!(l.as_array().map(|v| v.len()), Some(1));
    assert!(d.is_dict() && !d.is_array());
    assert_eq!(d.as_dict().map(|v| v.len()), Some(0));
    assert!(s.as_array().is_none() && s.as_dict().is_none() && l.as_byte_str().is_none());
}

#[test]
fn numbers_convert_where_they_fit() {
    assert_eq!(Number::Unsigned(3).to_i64(), Some(3));
    assert_eq!(Number::Unsigned(u64::MAX).to_i64(), None);
    assert_eq!(Number::Unsigned(i64::MAX as u64).to_i64(), Some(i64::MAX));
    assert_eq!(Number::Signed(-3).to_u64(), None);
    assert_eq!(Number::Signed(3).to_u64(), Some(3));
    assert_eq!(Number::Signed(-3).to_i64(), Some(-3));
    assert_eq!(Number::from(-1i64), Number::Signed(-1));
    assert_eq!(Number::from(1u64), Number::Unsigned(1));
    assert_eq!(Value::from(1u64), Value::Int(Number::Unsigned(1)));
    assert_eq!(Value::from(-1i64), Value::Int(Number::Signed(-1)));
    assert_eq!(Value::from("a"), text("a"));
}

#[test]
fn values_are_reached_by_position_and_by_key() {
    let v = from_slice(b"d8:announce3:url4:infod6:lengthi12ee4:listl1:a1:bee").unwrap();
    assert_eq!(v.get("announce").and_then(Value::as_str), Some("url"));
    assert_eq!(v.get("info").and_then(|i| i.get("length")).and_then(Value::as_u64), Some(12));
    assert_eq!(v.get("list").and_then(|l| l.get(1usize)).and_then(Value::as_str), Some("b"));
    assert!(v.get("list").and_then(|l| l.get(2usize)).is_none());
    assert!(v.get("missing").is_none());
    assert!(v.get(0usize).is_none());
    assert!(v.get("list").and_then(|l| l.get("a")).is_none());
    let key = String::from("announce");
    assert_eq!(v.get(key.as_str()).and_then(Value::as_str), Some("url"));
}

#[test]
fn values_are_changed_in_place() {
    let mut v = from_slice(b"d4:listl1:a1:be4:name3:isoe").unwrap();
    *v.get_mut("name").unwrap() = text("img");
    v.get_mut("list").unwrap().as_array_mut().unwrap().push(Value::Int(Number::Unsigned(7)));
    *v.get_mut("list").unwrap().get_mut(0usize).unwrap() = text("z");
    v.as_dict_mut().unwrap().insert(ByteString::from_str("a"), Value::List(vec![]));
    assert!(v.get_mut("nothing").is_none());
    assert_eq!(bt_bencode::to_vec(&v).unwrap(), b"d1:ale4:listl1:z1:bi7ee4:name3:imge".to_vec());
    let mut s = text("ab");
    s.as_byte_str_mut().unwrap().as_mut_vec().push(b'c');
    assert_eq!(s, text("abc"));
    assert!(s.as_array_mut().is_none() && s.as_dict_mut().is_none());
    assert!(v.as_byte_str_mut().is_none());
}

#[test]
fn byte_strings() {
    let b = ByteString::from_str("hello");
    assert_eq!(b.as_slice(), b"hello");
    assert_eq!(b.len(), 5);
    assert!(!b.is_empty());
    assert_eq!(b, ByteString::from_vec(b"hello".to_vec()));
    assert_eq!(b, ByteString::from_slice(b"hello"));
    assert_eq!(b.into_vec(), b"hello".to_vec());
    assert!(ByteString::from_str("").is_empty());
    assert!(ByteString::from_str("a") < ByteString::from_str("b"));
}

#[test]
fn errors_carry_kind_and_offset() {
    let e = Error::new(ErrorKind::InvalidList, 9);
    assert!(matches!(e.kind(), ErrorKind::InvalidList));
    assert_eq!(e.byte_offset(), 9);
    assert!(matches!(e.into_kind(), ErrorKind::InvalidList));
    let e = Error::with_kind(ErrorKind::TrailingData);
    assert_eq!(e.byte_offset(), 0);
}

#[test]
fn kinds_describe_themselves() {
    assert_eq!(ErrorKind::InvalidList.description(), "invalid list");
    assert_eq!(ErrorKind::EofWhileParsingValue.description(), "eof while parsing value");
    assert_eq!(ErrorKind::Deserialize(String::from("no")).description(), "no");
    assert_eq!(ErrorKind::UnsupportedType.description(), "unsupported type");
}

#[test]
fn values_are_copied_whole() {
    let v = from_slice(b"d1:ali1e1:xe1:bd1:c0:ee").unwrap();
    let w = v.clone();
    assert_eq!(v, w);
    assert_eq!(v.as_dict().unwrap().clone().len(), 2);
}

#[test]
fn values_from_the_types_of_the_language() {
    assert_eq!(Value::from(-3i8), Value::Int(Number::Signed(-3)));
    assert_eq!(Value::from(3u32), Value::Int(Number::Unsigned(3)));
    assert_eq!(Value::from(3usize), Value::Int(Number::Unsigned(3)));
    assert_eq!(Value::from(-3isize), Value::Int(Number::Signed(-3)));
    assert_eq!(Number::from(7u8), Number::Unsigned(7));
    assert_eq!(Number::from(-7i16), Number::Signed(-7));
    assert_eq!(Value::from(String::from("a")), text("a"));
    assert_eq!(Value::from(vec![text("a")]), Value::List(vec![text("a")]));
    assert_eq!("a".parse::<Value>().unwrap(), text("a"));
    assert_eq!(ByteString::from("a"), ByteString::from_slice(b"a"));
    assert_eq!(ByteString::from(String::from("a")), ByteString::from(&b"a"[..]));
    assert_eq!(ByteString::from(b"a".to_vec()).into_vec(), b"a".to_vec());
    assert_eq!(ByteString::from_char('\u{e9}').as_slice(), "\u{e9}".as_bytes());
    assert_eq!(ByteString::from_char('\u{10348}').as_slice(), "\u{10348}".as_bytes());
}

#[test]
fn text_is_changed_in_place() {
    let mut v = text("spam");
    v.as_str_mut().unwrap().make_ascii_uppercase();
    assert_eq!(v, text("SPAM"));
    let mut raw = Value::ByteStr(ByteString::from_slice(b"\xff"));
    assert!(raw.as_str_mut().is_none());
    assert!(Value::Int(Number::Unsigned(1)).as_str_mut().is_none());
}

#[test]
fn errors_say_what_went_wrong_and_where() {
    assert_eq!(Error::new(ErrorKind::InvalidInteger, 12).message(), "invalid integer at byte offset 12");
    assert_eq!(Error::new(ErrorKind::InvalidList, 1).message(), "invalid list at byte offset 1");
    assert_eq!(Error::new(ErrorKind::TrailingData, 0).message(), "trailing data error");
    assert_eq!(Error::with_kind(ErrorKind::UnsupportedType).message(), "unsupported type");
    assert_eq!(Error::with_kind(ErrorKind::UnsupportedType).place(), "");
    assert_eq!(Error::new(ErrorKind::InvalidDict, 10).place(), " at byte offset 10");
    assert_eq!(Error::new(ErrorKind::InvalidDict, 1005).place(), " at byte offset 1005");
    assert_eq!(
        Error::new(ErrorKind::InvalidDict, usize::MAX).place(),
        format!(" at byte offset {}", usize::MAX)
    );
    assert_eq!(
        Error::new(ErrorKind::Deserialize(String::from("no")), 9).message(),
        "no at byte offset 9"
    );
    let e = from_slice(b"i-e").unwrap_err();
    assert_eq!(e.message(), "invalid integer at byte offset 2");
}
