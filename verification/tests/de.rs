use bt_bencode::read::{ByteStream, IoRead, Read, Ref, SliceRead};
use bt_bencode::{from_reader, from_slice, ByteString, Deserializer, Dict, ErrorKind, Number, Value};
use std::hash::Hasher;

fn text(s: &str) -> Value {
    Value::ByteStr(ByteString::from_str(s))
}

fn dict(entries: Vec<(&str, Value)>) -> Value {
    let mut d = Dict::new();
    for (k, v) in entries {
        d.insert(ByteString::from_str(k), v);
    }
    Value::Dict(d)
}

/// A stream over bytes in memory, which fails once it has handed out `fail_at`
/// bytes, if that is set.
struct Cursor {
    data: Vec<u8>,
    pos: usize,
    fail_at: Option<usize>,
}

impl Cursor {
    fn new(data: &[u8]) -> Self {
        Cursor { data: data.to_vec(), pos: 0, fail_at: None }
    }
}

impl ByteStream for Cursor {
    fn next_byte(&mut self) -> Option<Result<u8, std::io::Error>> {
        if self.fail_at == Some(self.pos) {
            return Some(Err(std::io::Error::new(std::io::ErrorKind::Other, "broken")));
        }
        let b = self.data.get(self.pos).copied();
        if b.is_some() {
            self.pos += 1;
        }
        b.map(Ok)
    }
}

#[test]
fn test_deserialize_str() {
    let v = from_slice("4:spam".as_bytes()).unwrap();
    assert_eq!(v.as_str(), Some("spam"));
}

#[test]
fn de_test_deserialize_string() {
    let v = from_slice("4:spam".as_bytes()).unwrap();
    let s: String = String::from(v.as_str().unwrap());
    assert_eq!(s, "spam");
}

#[test]
fn de_test_deserialize_integer_1() {
    let input = "i3e";
    let mut de = Deserializer::from_slice(input.as_bytes());
    let i: u64 = de.deserialize_u64().unwrap().to_u64().unwrap();
    de.end().unwrap();
    assert_eq!(i, 3);
}

#[test]
fn de_test_deserialize_integer_2() {
    let input = "i-3e";
    let mut de = Deserializer::from_slice(input.as_bytes());
    let i: i64 = de.deserialize_i64().unwrap().to_i64().unwrap();
    de.end().unwrap();
    assert_eq!(i, -3);
}

#[test]
fn de_test_deserialize_integer_3() {
    let input = "i0e";
    let mut de = Deserializer::from_slice(input.as_bytes());
    let i: u64 = de.deserialize_u64().unwrap().to_u64().unwrap();
    de.end().unwrap();
    assert_eq!(i, 0);
}

#[test]
fn test_deserialize_integer_4() {
    let input = "i0e";
    let mut de = Deserializer::from_slice(input.as_bytes());
    let i: i64 = de.deserialize_i64().unwrap().to_i64().unwrap();
    de.end().unwrap();
    assert_eq!(i, 0);
}

#[test]
fn de_test_deserialize_list() {
    let input = "l4:spam4:eggse";
    let v = from_slice(input.as_bytes()).unwrap();
    let items: Vec<String> =
        v.as_array().unwrap().iter().map(|i| String::from(i.as_str().unwrap())).collect();
    assert_eq!(items, vec!["spam", "eggs"]);
}

#[test]
fn test_deserialize_list_str() {
    let input = "l4:spam4:eggse";
    let v = from_slice(input.as_bytes()).unwrap();
    let items: Vec<&str> = v.as_array().unwrap().iter().map(|i| i.as_str().unwrap()).collect();
    assert_eq!(items, vec!["spam", "eggs"]);
}

#[test]
fn test_deserialize_list_as_tuple() {
    let input = "li123e4:eggse";
    let v = from_slice(input.as_bytes()).unwrap();
    let items = v.as_array().unwrap();
    assert_eq!(items.len(), 2);
    let pair: (i64, &str) =
        (items[0].as_number().unwrap().to_i64().unwrap(), items[1].as_str().unwrap());
    assert_eq!(pair, (123, "eggs"));
}

#[test]
fn test_deserialize_list_as_struct_tuple() {
    let input = "li123e4:eggse";
    let mut de = Deserializer::from_slice(input.as_bytes());
    let items = de.deserialize_seq().unwrap();
    de.end().unwrap();
    assert_eq!(items, vec![Value::Int(Number::Unsigned(123)), text("eggs")]);
}

#[test]
fn de_test_deserialize_dict_1() {
    let input = "d3:cow3:moo4:spam4:eggse";
    let m = from_slice(input.as_bytes()).unwrap();
    let expected = dict(vec![("cow", text("moo")), ("spam", text("eggs"))]);
    assert_eq!(m, expected);
}

#[test]
fn test_deserialize_dict_1_str() {
    let input = "d3:cow3:moo4:spam4:eggse";
    let m = from_slice(input.as_bytes()).unwrap();
    let d = m.as_dict().unwrap();
    assert_eq!(d.len(), 2);
    assert_eq!(d.get(b"cow").and_then(|v| v.as_str()), Some("moo"));
    assert_eq!(d.get(b"spam").and_then(|v| v.as_str()), Some("eggs"));
}

#[test]
fn de_test_deserialize_dict_2() {
    let input = "d4:spaml1:a1:bee";
    let m = from_slice(input.as_bytes()).unwrap();
    let expected = dict(vec![("spam", Value::List(vec![text("a"), text("b")]))]);
    assert_eq!(m, expected);
}

#[test]
fn test_deserialize_dict_2_str() {
    let input = "d4:spaml1:a1:bee";
    let m = from_slice(input.as_bytes()).unwrap();
    let d = m.as_dict().unwrap();
    assert_eq!(d.len(), 1);
    let items: Vec<&str> = d
        .get(b"spam")
        .and_then(|v| v.as_array())
        .unwrap()
        .iter()
        .map(|i| i.as_str().unwrap())
        .collect();
    assert_eq!(items, vec!["a", "b"]);
}

#[test]
fn test_deserialize_struct() {
    let input = "d4:spaml1:a1:bee";
    let mut de = Deserializer::from_slice(input.as_bytes());
    let d = de.deserialize_map().unwrap();
    de.end().unwrap();
    assert_eq!(d.get(b"spam"), Some(&Value::List(vec![text("a"), text("b")])));
}

#[test]
fn test_deserialize_integer_as_raw_slice() {
    let input = "i-1234e";
    let mut de = Deserializer::from_slice(input.as_bytes());
    let raw = de.deserialize_bytes().unwrap();
    assert!(matches!(raw, Ref::Source(_)));
    assert_eq!(raw.deref(), input.as_bytes());
}

#[test]
fn test_deserialize_list_as_raw_slice() {
    let input = "l4:spam4:eggse";
    let mut de = Deserializer::from_slice(input.as_bytes());
    let raw = de.deserialize_bytes().unwrap();
    assert!(matches!(raw, Ref::Source(_)));
    assert_eq!(raw.deref(), input.as_bytes());
}

#[test]
fn test_deserialize_map_value_as_raw_slice() {
    let input = "d4:spamd1:a1:bee";
    let mut de = Deserializer::from_slice(input.as_bytes());
    assert_eq!(de.parse_next().unwrap(), b'd');
    assert_eq!(de.deserialize_bytes().unwrap().deref(), b"spam");
    let raw = de.deserialize_bytes().unwrap();
    assert!(matches!(raw, Ref::Source(_)));
    assert_eq!(raw.deref(), b"d1:a1:be");
    de.on_end_map().unwrap();
    de.end().unwrap();
}

#[test]
fn test_deserialize_map_as_raw_slice() {
    let input = "d4:spamd1:a1:bee";
    let mut de = Deserializer::from_slice(input.as_bytes());
    let raw = de.deserialize_bytes().unwrap();
    assert_eq!(raw.deref(), input.as_bytes());
}

#[test]
fn test_deserialize_integer_as_raw_bytes() {
    let input = "i-1234e";
    let mut de = Deserializer::from_slice(input.as_bytes());
    assert_eq!(de.deserialize_byte_buf().unwrap(), input.as_bytes().to_vec());
}

#[test]
fn test_deserialize_list_as_raw_bytes() {
    let input = "l4:spam4:eggse";
    let mut de = Deserializer::from_slice(input.as_bytes());
    assert_eq!(de.deserialize_byte_buf().unwrap(), input.as_bytes().to_vec());
}

#[test]
fn test_deserialize_map_value_as_raw_bytes() {
    let input = "d4:spamd1:a1:bee";
    let mut de = Deserializer::from_reader(Cursor::new(input.as_bytes()));
    assert_eq!(de.parse_next().unwrap(), b'd');
    assert_eq!(de.deserialize_byte_buf().unwrap(), b"spam".to_vec());
    assert_eq!(de.deserialize_byte_buf().unwrap(), b"d1:a1:be".to_vec());
    de.on_end_map().unwrap();
    de.end().unwrap();
}

#[test]
fn test_deserialize_map_as_raw_bytes() {
    let input = "d4:spamd1:a1:bee";
    let mut de = Deserializer::from_reader(Cursor::new(input.as_bytes()));
    assert_eq!(de.deserialize_byte_buf().unwrap(), input.as_bytes().to_vec());
}

#[test]
fn value_test_deserialize_string() {
    let v = from_slice("4:spam".as_bytes()).unwrap();
    assert_eq!(v, text("spam"));
}

#[test]
fn value_test_deserialize_integer_1() {
    let v = from_slice("i3e".as_bytes()).unwrap();
    assert_eq!(v, Value::Int(Number::Unsigned(3)));
}

#[test]
fn value_test_deserialize_integer_2() {
    let v = from_slice("i-3e".as_bytes()).unwrap();
    assert_eq!(v, Value::Int(Number::Signed(-3)));
}

#[test]
fn value_test_deserialize_integer_3() {
    let v = from_slice("i0e".as_bytes()).unwrap();
    assert_eq!(v, Value::Int(Number::Unsigned(0)));
}

#[test]
fn value_test_deserialize_list() {
    let v = from_slice("l4:spam4:eggse".as_bytes()).unwrap();
    assert_eq!(v, Value::List(vec![text("spam"), text("eggs")]));
}

#[test]
fn value_test_deserialize_dict_1() {
    let v = from_slice("d3:cow3:moo4:spam4:eggse".as_bytes()).unwrap();
    assert_eq!(v, dict(vec![("cow", text("moo")), ("spam", text("eggs"))]));
}

#[test]
fn value_test_deserialize_dict_2() {
    let v = from_slice("d4:spaml1:a1:bee".as_bytes()).unwrap();
    assert_eq!(v, dict(vec![("spam", Value::List(vec![text("a"), text("b")]))]));
}

fn failure(input: &[u8]) -> (String, usize) {
    let e = from_slice(input).unwrap_err();
    (format!("{:?}", e.kind()), e.byte_offset())
}

#[test]
fn integer_without_digits_is_invalid_where_the_digit_should_be() {
    assert_eq!(failure(b"ie"), ("InvalidInteger".to_string(), 1));
    assert_eq!(failure(b"i-e"), ("InvalidInteger".to_string(), 2));
    assert_eq!(failure(b"i12ae"), ("InvalidInteger".to_string(), 3));
    assert_eq!(failure(b"i--1e"), ("InvalidInteger".to_string(), 2));
}

#[test]
fn integer_that_ends_early_is_end_of_input() {
    assert_eq!(failure(b"i"), ("EofWhileParsingValue".to_string(), 1));
    assert_eq!(failure(b"i-"), ("EofWhileParsingValue".to_string(), 2));
    assert_eq!(failure(b"i12"), ("EofWhileParsingValue".to_string(), 3));
    assert_eq!(failure(b""), ("EofWhileParsingValue".to_string(), 0));
}

#[test]
fn integer_bounds() {
    assert_eq!(
        from_slice(b"i18446744073709551615e").unwrap(),
        Value::Int(Number::Unsigned(u64::MAX))
    );
    assert_eq!(failure(b"i18446744073709551616e"), ("ParseIntError".to_string(), 22));
    assert_eq!(
        from_slice(b"i-9223372036854775808e").unwrap(),
        Value::Int(Number::Signed(i64::MIN))
    );
    assert_eq!(failure(b"i-9223372036854775809e"), ("ParseIntError".to_string(), 22));
    assert_eq!(from_slice(b"i-0e").unwrap(), Value::Int(Number::Signed(0)));
    assert_eq!(from_slice(b"i007e").unwrap(), Value::Int(Number::Unsigned(7)));
}

#[test]
fn byte_string_lengths() {
    assert_eq!(from_slice(b"0:").unwrap(), text(""));
    assert_eq!(from_slice(b"03:abc").unwrap(), text("abc"));
    assert_eq!(failure(b"4:spa"), ("EofWhileParsingValue".to_string(), 5));
    assert_eq!(failure(b"4"), ("EofWhileParsingValue".to_string(), 1));
    assert_eq!(failure(b"4x"), ("InvalidByteStrLen".to_string(), 2));
    assert_eq!(
        failure(b"99999999999999999999999999999999:a"),
        ("ParseIntError".to_string(), 33)
    );
}

#[test]
fn list_failures() {
    assert_eq!(failure(b"l"), ("InvalidList".to_string(), 1));
    assert_eq!(failure(b"l4:spam"), ("InvalidList".to_string(), 7));
    assert_eq!(failure(b"lx"), ("InvalidList".to_string(), 1));
    assert_eq!(failure(b"li3"), ("EofWhileParsingValue".to_string(), 3));
    assert_eq!(from_slice(b"le").unwrap(), Value::List(vec![]));
}

#[test]
fn dict_failures() {
    assert_eq!(failure(b"d"), ("EofWhileParsingValue".to_string(), 1));
    assert_eq!(failure(b"di1e1:ae"), ("KeyMustBeAByteStr".to_string(), 1));
    assert_eq!(failure(b"d1:a"), ("EofWhileParsingValue".to_string(), 4));
    assert_eq!(failure(b"d1:ax"), ("ExpectedSomeValue".to_string(), 4));
    assert_eq!(from_slice(b"de").unwrap(), dict(vec![]));
}

#[test]
fn other_failures() {
    assert_eq!(failure(b"x"), ("ExpectedSomeValue".to_string(), 0));
    assert_eq!(failure(b"i1ei2e"), ("TrailingData".to_string(), 3));
    assert_eq!(failure(b"4:spameggs"), ("TrailingData".to_string(), 6));
}

#[test]
fn decoding_takes_keys_in_any_order_and_keeps_the_later_of_two() {
    let v = from_slice(b"d4:spam4:eggs3:cow3:moo3:cow3:baae").unwrap();
    assert_eq!(v, dict(vec![("cow", text("baa")), ("spam", text("eggs"))]));
    let d = v.as_dict().unwrap();
    assert_eq!(d.entry(0).map(|(k, _)| k.as_slice().to_vec()), Some(b"cow".to_vec()));
    assert_eq!(d.entry(1).map(|(k, _)| k.as_slice().to_vec()), Some(b"spam".to_vec()));
    assert!(d.entry(2).is_none());
}

#[test]
fn offset_after_a_value_tells_where_the_rest_starts() {
    let bytes = b"4:spameggs";
    let mut de = Deserializer::from_slice(bytes);
    assert_eq!(de.byte_offset(), 0);
    let v = de.deserialize_any().unwrap();
    assert_eq!(v.as_str(), Some("spam"));
    assert_eq!(de.byte_offset(), 6);
    assert_eq!(b"eggs", &bytes[de.byte_offset()..]);
    let e = de.end().unwrap_err();
    assert!(matches!(e.kind(), ErrorKind::TrailingData));
    assert_eq!(e.byte_offset(), 6);
}

#[test]
fn offset_counts_what_next_consumed_and_peek_leaves_it() {
    let mut r = SliceRead::new(b"ab");
    assert_eq!(r.byte_offset(), 0);
    assert_eq!(r.peek().unwrap().unwrap(), b'a');
    assert_eq!(r.peek().unwrap().unwrap(), b'a');
    assert_eq!(r.byte_offset(), 0);
    assert_eq!(r.next().unwrap().unwrap(), b'a');
    assert_eq!(r.byte_offset(), 1);
    assert_eq!(r.next().unwrap().unwrap(), b'b');
    assert_eq!(r.byte_offset(), 2);
    assert!(r.peek().is_none());
    assert!(r.next().is_none());
    assert_eq!(r.byte_offset(), 2);

    let mut s = IoRead::new(Cursor::new(b"ab"));
    assert_eq!(s.peek().unwrap().unwrap(), b'a');
    assert_eq!(s.peek().unwrap().unwrap(), b'a');
    assert_eq!(s.byte_offset(), 0);
    assert_eq!(s.next().unwrap().unwrap(), b'a');
    assert_eq!(s.byte_offset(), 1);
    assert_eq!(s.peek().unwrap().unwrap(), b'b');
    assert_eq!(s.next().unwrap().unwrap(), b'b');
    assert_eq!(s.byte_offset(), 2);
    assert!(s.next().is_none());
    assert_eq!(s.byte_offset(), 2);
}

#[test]
fn slice_reader_borrows_from_the_input() {
    let input = b"4:spam";
    let mut r = SliceRead::new(input);
    let mut buf = Vec::new();
    match r.parse_byte_str(&mut buf).unwrap() {
        Ref::Source(s) => {
            assert_eq!(s, b"spam");
            assert_eq!(s.as_ptr(), input[2..].as_ptr());
        }
        Ref::Buffer(_) => panic!("copied"),
    }
    assert!(buf.is_empty());
}

#[test]
fn stream_reader_copies_into_the_buffer() {
    let mut r = IoRead::new(Cursor::new(b"4:spam"));
    let mut buf = Vec::new();
    match r.parse_byte_str(&mut buf).unwrap() {
        Ref::Source(_) => panic!("borrowed"),
        Ref::Buffer(b) => assert_eq!(b, b"spam"),
    }
    assert_eq!(buf, b"spam".to_vec());
}

#[test]
fn readers_give_the_text_of_an_integer() {
    let mut buf = Vec::new();
    let mut r = SliceRead::new(b"-12e");
    assert_eq!(r.parse_integer(&mut buf).unwrap().deref(), b"-12");
    assert_eq!(r.byte_offset(), 4);
    let mut s = IoRead::new(Cursor::new(b"-12e"));
    assert_eq!(s.parse_integer(&mut buf).unwrap().deref(), b"-12");
    assert_eq!(s.byte_offset(), 4);
}

#[test]
fn stream_decodes_as_a_slice_does() {
    for input in [
        &b"d3:cow3:moo4:spaml1:ai-5eee"[..],
        b"i3e",
        b"0:",
        b"lllleeee",
        b"ie",
        b"i-e",
        b"l",
        b"d1:a",
        b"4:spa",
        b"i1ei2e",
        b"d1:ax",
        b"99999999999999999999999999999999:a",
    ] {
        let a = from_slice(input);
        let b = from_reader(Cursor::new(input));
        match (a, b) {
            (Ok(x), Ok(y)) => assert_eq!(x, y),
            (Err(x), Err(y)) => {
                assert_eq!(format!("{:?}", x.kind()), format!("{:?}", y.kind()));
                assert_eq!(x.byte_offset(), y.byte_offset());
            }
            _ => panic!("the readers differ"),
        }
    }
}

#[test]
fn raw_capture_of_a_stream_is_the_input_range() {
    let input = b"d4:infod6:lengthi12e4:name3:isoe5:other0:e";
    let mut de = Deserializer::from_reader(Cursor::new(input));
    assert_eq!(de.parse_next().unwrap(), b'd');
    assert_eq!(de.deserialize_byte_buf().unwrap(), b"info".to_vec());
    let start = de.byte_offset();
    let raw = de.deserialize_byte_buf().unwrap();
    let end = de.byte_offset();
    assert_eq!(raw, input[start..end].to_vec());
    assert_eq!(raw, b"d6:lengthi12e4:name3:isoe".to_vec());
}

#[test]
fn raw_capture_does_not_read_numbers() {
    let mut de = Deserializer::from_slice(b"i99999999999999999999999999e");
    assert_eq!(de.deserialize_bytes().unwrap().deref(), b"i99999999999999999999999999e");
    let mut de = Deserializer::from_slice(b"ie");
    let e = de.deserialize_bytes().unwrap_err();
    assert!(matches!(e.kind(), ErrorKind::InvalidInteger));
    assert_eq!(e.byte_offset(), 1);
    let mut de = Deserializer::from_slice(b"li1e");
    let e = de.deserialize_bytes().unwrap_err();
    assert!(matches!(e.kind(), ErrorKind::InvalidList));
    assert_eq!(e.byte_offset(), 4);
    let mut de = Deserializer::from_slice(b"d1:a?");
    let e = de.deserialize_bytes().unwrap_err();
    assert!(matches!(e.kind(), ErrorKind::InvalidDict));
    assert_eq!(e.byte_offset(), 4);
}

#[test]
fn a_failing_stream_is_an_io_error_at_the_offset() {
    let mut c = Cursor::new(b"l4:spam4:eggse");
    c.fail_at = Some(5);
    let e = from_reader(c).unwrap_err();
    assert!(matches!(e.kind(), ErrorKind::Io(_)));
    assert_eq!(e.byte_offset(), 5);
}

#[test]
fn asking_for_a_type_that_is_not_there() {
    let mut de = Deserializer::from_slice(b"4:spam");
    let e = de.deserialize_i64().unwrap_err();
    assert!(matches!(e.kind(), ErrorKind::Deserialize(_)));
    assert_eq!(
        e.kind().description(),
        "unexpected type error. invalid_type=byte array, expected_type=an integer"
    );
    assert_eq!(e.byte_offset(), 0);
    assert_eq!(de.byte_offset(), 6);
    let mut de = Deserializer::from_slice(b"d1:ai1ee");
    let e = de.deserialize_seq().unwrap_err();
    assert_eq!(
        e.kind().description(),
        "unexpected type error. invalid_type=map, expected_type=a list"
    );
    assert_eq!(de.byte_offset(), 0);
    let mut de = Deserializer::from_slice(b"4:sp");
    let e = de.deserialize_i64().unwrap_err();
    assert!(matches!(e.kind(), ErrorKind::EofWhileParsingValue));
    assert_eq!(e.byte_offset(), 4);
    let mut de = Deserializer::from_slice(b"i1e");
    let e = de.deserialize_seq().unwrap_err();
    assert!(matches!(e.kind(), ErrorKind::Deserialize(_)));
    let mut de = Deserializer::from_slice(b"le");
    let e = de.deserialize_map().unwrap_err();
    assert!(matches!(e.kind(), ErrorKind::Deserialize(_)));
    let mut de = Deserializer::from_slice(b"x");
    let e = de.deserialize_map().unwrap_err();
    assert!(matches!(e.kind(), ErrorKind::ExpectedSomeValue));
    let mut de = Deserializer::from_slice(b"lx");
    assert_eq!(de.parse_next().unwrap(), b'l');
    let e = de.on_end_seq().unwrap_err();
    assert!(matches!(e.kind(), ErrorKind::InvalidList));
    assert_eq!(e.byte_offset(), 1);
    let e = de.on_end_map().unwrap_err();
    assert!(matches!(e.kind(), ErrorKind::InvalidDict));
}

#[test]
fn a_failure_leaves_the_reader_at_its_offset() {
    for input in [
        &b"ie"[..],
        b"i-e",
        b"i12ae",
        b"i",
        b"4x",
        b"4:sp",
        b":",
        b"l4:spam",
        b"lx",
        b"d1:a",
        b"di1ee",
        b"d1:ax",
        b"x",
        b"",
        b"i18446744073709551616e",
    ] {
        let mut de = Deserializer::from_slice(input);
        let e = de.deserialize_any().unwrap_err();
        assert_eq!(de.byte_offset(), e.byte_offset());
        let mut de = Deserializer::from_reader(Cursor::new(input));
        let e = de.deserialize_any().unwrap_err();
        assert_eq!(de.byte_offset(), e.byte_offset());
        let mut slice = Deserializer::from_slice(input);
        let from_slice = slice.deserialize_bytes().map(|raw| raw.deref().to_vec());
        let mut stream = Deserializer::from_reader(Cursor::new(input));
        let from_stream = stream.deserialize_bytes().map(|raw| raw.deref().to_vec());
        match (from_slice, from_stream) {
            (Ok(a), Ok(b)) => assert_eq!(a, b),
            (Err(a), Err(b)) => {
                assert_eq!(a.byte_offset(), b.byte_offset());
                assert_eq!(slice.byte_offset(), a.byte_offset());
                assert_eq!(stream.byte_offset(), b.byte_offset());
            }
            _ => panic!("the readers differ"),
        }
    }
}

fn digest(bytes: &[u8]) -> u64 {
    let mut h = std::collections::hash_map::DefaultHasher::new();
    h.write(bytes);
    h.finish()
}

#[test]
fn a_digest_of_a_captured_value_is_that_of_its_bytes() {
    let info = b"d6:lengthi1331691520e4:name3:iso12:piece lengthi262144e6:pieces4:\x00\x01\xfe\xffe";
    let mut torrent: Vec<u8> = b"d8:announce3:url4:info".to_vec();
    torrent.extend_from_slice(info);
    torrent.extend_from_slice(b"e");

    let mut de = Deserializer::from_slice(&torrent);
    assert_eq!(de.parse_next().unwrap(), b'd');
    assert_eq!(de.deserialize_bytes().unwrap().deref(), b"announce");
    assert_eq!(de.deserialize_bytes().unwrap().deref(), b"url");
    assert_eq!(de.deserialize_bytes().unwrap().deref(), b"info");
    let captured = de.deserialize_bytes().unwrap().deref().to_vec();
    de.on_end_map().unwrap();
    de.end().unwrap();
    assert_eq!(digest(&captured), digest(info));
    assert_eq!(captured, info.to_vec());

    let value = from_slice(&captured).unwrap();
    assert!(value.is_dict());
    assert_eq!(value.get("piece length").and_then(Value::as_u64), Some(262_144));
    assert_eq!(value.get("length").and_then(Value::as_u64), Some(1_331_691_520));
    assert_eq!(value.get("pieces").and_then(Value::as_byte_str).map(|b| b.len()), Some(4));
    let again = bt_bencode::to_vec(&value).unwrap();
    assert_eq!(digest(&again), digest(info));
}

#[test]
fn a_list_is_walked_item_by_item() {
    let mut de = Deserializer::from_slice(b"li1e1:ae");
    assert_eq!(de.parse_next().unwrap(), b'l');
    let mut items = Vec::new();
    while de.has_next_element().unwrap() {
        items.push(de.deserialize_any().unwrap());
    }
    de.on_end_seq().unwrap();
    de.end().unwrap();
    assert_eq!(items, vec![Value::Int(Number::Unsigned(1)), text("a")]);

    let mut de = Deserializer::from_slice(b"l");
    assert_eq!(de.parse_next().unwrap(), b'l');
    let e = de.has_next_element().unwrap_err();
    assert!(matches!(e.kind(), ErrorKind::InvalidList));
    assert_eq!(e.byte_offset(), 1);
    let e = de.on_end_seq().unwrap_err();
    assert!(matches!(e.kind(), ErrorKind::InvalidList));
    assert_eq!(e.byte_offset(), 1);
    let mut de = Deserializer::from_slice(b"l?");
    assert_eq!(de.parse_next().unwrap(), b'l');
    let e = de.has_next_element().unwrap_err();
    assert!(matches!(e.kind(), ErrorKind::InvalidList));
    assert_eq!(e.byte_offset(), 1);
}

#[test]
fn a_dictionary_is_walked_entry_by_entry() {
    let mut de = Deserializer::from_reader(Cursor::new(b"d1:ai1e1:b0:e"));
    assert_eq!(de.parse_next().unwrap(), b'd');
    let mut entries = Vec::new();
    while de.has_next_key().unwrap() {
        let key = de.deserialize_byte_buf().unwrap();
        entries.push((key, de.deserialize_any().unwrap()));
    }
    de.on_end_map().unwrap();
    de.end().unwrap();
    assert_eq!(
        entries,
        vec![(b"a".to_vec(), Value::Int(Number::Unsigned(1))), (b"b".to_vec(), text(""))]
    );

    let mut de = Deserializer::from_slice(b"d");
    assert_eq!(de.parse_next().unwrap(), b'd');
    let e = de.has_next_key().unwrap_err();
    assert!(matches!(e.kind(), ErrorKind::EofWhileParsingValue));
    assert_eq!(e.byte_offset(), 1);
    let e = de.on_end_map().unwrap_err();
    assert!(matches!(e.kind(), ErrorKind::EofWhileParsingValue));
    let mut de = Deserializer::from_slice(b"dle");
    assert_eq!(de.parse_next().unwrap(), b'd');
    let e = de.has_next_key().unwrap_err();
    assert!(matches!(e.kind(), ErrorKind::KeyMustBeAByteStr));
    assert_eq!(e.byte_offset(), 1);
}

#[test]
fn raw_capture_holds_an_integer_to_the_grammar() {
    for (input, kind, offset) in [
        (&b"i-e"[..], "InvalidInteger", 2),
        (b"ie", "InvalidInteger", 1),
        (b"i--1e", "InvalidInteger", 2),
        (b"i1-e", "InvalidInteger", 2),
        (b"i12ae", "InvalidInteger", 3),
        (b"i-", "EofWhileParsingValue", 2),
        (b"i", "EofWhileParsingValue", 1),
        (b"i12", "EofWhileParsingValue", 3),
        (b"", "EofWhileParsingValue", 0),
    ] {
        let mut buf = Vec::new();
        let mut r = SliceRead::new(input);
        let e = r.parse_raw_integer(&mut buf).map(|_| ()).unwrap_err();
        assert_eq!((format!("{:?}", e.kind()), e.byte_offset()), (kind.to_string(), offset));
        assert_eq!(r.byte_offset(), offset);
        assert!(buf.is_empty());
        let mut s = IoRead::new(Cursor::new(input));
        let e = s.parse_raw_integer(&mut buf).map(|_| ()).unwrap_err();
        assert_eq!((format!("{:?}", e.kind()), e.byte_offset()), (kind.to_string(), offset));
        assert_eq!(s.byte_offset(), offset);
    }
    for input in [&b"i-1e"[..], b"i0e", b"i-0e", b"i007e", b"i99999999999999999999999999e"] {
        let mut buf = Vec::new();
        let mut r = SliceRead::new(input);
        assert_eq!(r.parse_raw_integer(&mut buf).unwrap().deref(), input);
        let mut s = IoRead::new(Cursor::new(input));
        assert_eq!(s.parse_raw_integer(&mut buf).unwrap().deref(), input);
        assert_eq!(buf, input.to_vec());
    }
    let mut de = Deserializer::from_slice(b"d1:ai-ee");
    let e = de.deserialize_bytes().unwrap_err();
    assert!(matches!(e.kind(), ErrorKind::InvalidInteger));
    assert_eq!(e.byte_offset(), 6);
}

#[test]
fn a_slice_reader_leaves_the_buffer_as_it_was() {
    let before = b"kept".to_vec();
    let mut buf = before.clone();
    assert_eq!(SliceRead::new(b"-12e").parse_integer(&mut buf).unwrap().deref(), b"-12");
    assert_eq!(buf, before);
    assert_eq!(SliceRead::new(b"4:spam").parse_byte_str(&mut buf).unwrap().deref(), b"spam");
    assert_eq!(buf, before);
    assert_eq!(SliceRead::new(b"4:spam").parse_raw_byte_str(&mut buf).unwrap().deref(), b"4:spam");
    assert_eq!(buf, before);
    assert_eq!(SliceRead::new(b"i-12e").parse_raw_integer(&mut buf).unwrap().deref(), b"i-12e");
    assert_eq!(buf, before);
    assert_eq!(SliceRead::new(b"li1e1:ae").parse_raw_list(&mut buf).unwrap().deref(), b"li1e1:ae");
    assert_eq!(buf, before);
    assert_eq!(SliceRead::new(b"d1:ali1eee").parse_raw_dict(&mut buf).unwrap().deref(), b"d1:ali1eee");
    assert_eq!(buf, before);
    assert!(SliceRead::new(b"d1:al").parse_raw_dict(&mut buf).is_err());
    assert_eq!(buf, before);
}

#[test]
fn a_stream_reader_copies_what_it_gives_into_the_buffer() {
    let mut buf = b"kept".to_vec();
    let mut r = IoRead::new(Cursor::new(b"-12e4:spam"));
    assert_eq!(r.parse_integer(&mut buf).unwrap().deref(), b"-12");
    assert_eq!(buf, b"kept-12".to_vec());
    assert_eq!(r.parse_byte_str(&mut buf).unwrap().deref(), b"spam");
    assert_eq!(buf, b"spam".to_vec());
    assert_eq!(r.byte_offset(), 10);
    let mut r = IoRead::new(Cursor::new(b"li1e1:aed1:ali1eee"));
    let mut buf = b"kept".to_vec();
    assert_eq!(r.parse_raw_list(&mut buf).unwrap().deref(), b"li1e1:ae");
    assert_eq!(buf, b"keptli1e1:ae".to_vec());
    assert_eq!(r.parse_raw_dict(&mut buf).unwrap().deref(), b"d1:ali1eee");
    assert_eq!(buf, b"keptli1e1:aed1:ali1eee".to_vec());
}

#[test]
fn what_the_stream_hands_out_is_what_the_reader_gives() {
    let mut r = IoRead::new(Cursor::new(b""));
    assert_eq!(r.took(Some(Ok(b'x')), true).unwrap().unwrap(), b'x');
    assert_eq!(r.byte_offset(), 0);
    assert_eq!(r.peek().unwrap().unwrap(), b'x');
    assert_eq!(r.next().unwrap().unwrap(), b'x');
    assert_eq!(r.byte_offset(), 1);
    assert_eq!(r.took(Some(Ok(b'y')), false).unwrap().unwrap(), b'y');
    assert_eq!(r.byte_offset(), 2);
    assert!(r.took(None, false).is_none());
    assert_eq!(r.byte_offset(), 2);
    let broken = std::io::Error::new(std::io::ErrorKind::TimedOut, "late");
    let e = r.took(Some(Err(broken)), true).unwrap().unwrap_err();
    assert_eq!(e.byte_offset(), 2);
    match e.kind() {
        ErrorKind::Io(inner) => assert_eq!(inner.kind(), std::io::ErrorKind::TimedOut),
        _ => panic!("not the failure of the stream"),
    }
    assert_eq!(r.byte_offset(), 2);
    assert!(r.next().is_none());
}
