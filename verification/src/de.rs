//! The decoder: from bytes to values.

use crate::bstring::ByteString;
use crate::error::{Error, ErrorKind, Failure};
use crate::grammar::{
    capture_at, decode, dict_end, dict_next, dict_tail, digits_value, extends, failed, found_at,
    is_digit, lemma_digits_end_bounds, lemma_digits_value_push, lemma_extends_subrange,
    lemma_extends_transitive, list_end, list_next, list_tail, mismatch, mismatch_text, number_at,
    number_of, unexpected_at, value_at, Span, Tree, DICT, END, INT, LIST, MINUS, ZERO,
};
use crate::read::{
    is_digit_byte, next_or_eof, peek_or_eof, stepped, ByteStream, IoRead, Read, Ref, Seen,
    SliceRead,
};
use crate::value::{lemma_view_dict, lemma_view_list, trees_of, Dict, Number, Value};
use vstd::prelude::*;
use vstd::slice::slice_to_vec;
use vstd::string::StringExecFns;

verus! {

/// Reads the digits of `text` from `from` on as an unsigned number, if it
/// fits.
fn digits_to_u64(text: &[u8], from: usize) -> (r: Option<u64>)
    requires
        from <= text@.len(),
        forall|i: int| from <= i < text@.len() ==> is_digit(#[trigger] text@[i]),
    ensures
        match r {
            Some(v) => v == digits_value(text@.subrange(from as int, text@.len() as int)),
            None => digits_value(text@.subrange(from as int, text@.len() as int)) > u64::MAX,
        },
{
    let mut n: u64 = 0;
    let mut overflow: bool = false;
    let mut i: usize = from;
    while i < text.len()
        invariant
            from <= i <= text@.len(),
            forall|k: int| from <= k < text@.len() ==> is_digit(#[trigger] text@[k]),
            !overflow ==> n == digits_value(text@.subrange(from as int, i as int)),
            overflow ==> digits_value(text@.subrange(from as int, i as int)) > u64::MAX,
        decreases text@.len() - i,
    {
        let d: u64 = (text[i] - ZERO) as u64;
        proof {
            lemma_digits_value_push(text@, from as int, i as int);
        }
        if !overflow {
            if n > (u64::MAX - d) / 10 {
                overflow = true;
            } else {
                n = n * 10 + d;
            }
        }
        i += 1;
    }
    if overflow {
        None
    } else {
        Some(n)
    }
}

/// The number that the text of an integer denotes, if it fits: signed where
/// the text starts with `-`, unsigned where it does not.
pub fn parse_number(text: &[u8]) -> (r: Option<Number>)
    requires
        text@.len() > 0,
        forall|i: int| 1 <= i < text@.len() ==> is_digit(#[trigger] text@[i]),
        text@[0] == MINUS || is_digit(text@[0]),
    ensures
        r == number_of(text@),
{
    if text[0] == MINUS {
        proof {
            assert(text@.skip(1) =~= text@.subrange(1, text@.len() as int));
        }
        match digits_to_u64(text, 1) {
            None => None,
            Some(v) => {
                if v > 0x8000_0000_0000_0000 {
                    None
                } else if v == 0x8000_0000_0000_0000 {
                    Some(Number::Signed(i64::MIN))
                } else {
                    Some(Number::Signed(-(v as i64)))
                }
            },
        }
    } else {
        proof {
            assert(text@ =~= text@.subrange(0, text@.len() as int));
        }
        match digits_to_u64(text, 0) {
            None => None,
            Some(v) => Some(Number::Unsigned(v)),
        }
    }
}

/// A decoder over a reader.
#[derive(Debug)]
pub struct Deserializer<R> {
    read: R,
    /// Scratch space for what a stream hands out.
    buf: Vec<u8>,
}

impl<R: View<V = Seen>> View for Deserializer<R> {
    type V = Seen;

    closed spec fn view(&self) -> Seen {
        self.read@
    }
}

impl<'a, R: Read<'a>> Deserializer<R> {
    /// The decoder's invariant: that of its reader.
    pub closed spec fn wf(&self) -> bool {
        self.read.wf()
    }

    /// The offset lies inside what was seen, and both fit in `usize`.
    pub proof fn lemma_bounds(&self)
        requires
            self.wf(),
        ensures
            0 <= self@.offset <= self@.input.len() <= usize::MAX,
    {
        self.read.lemma_bounds();
    }

    /// A decoder that reads from `read`.
    pub fn new(read: R) -> (r: Self)
        requires
            read.wf(),
        ensures
            r.wf(),
            r@ == read@,
    {
        Deserializer { read, buf: Vec::new() }
    }

    /// The number of bytes consumed. After a value has been decoded this is
    /// where the value ends, which tells a caller who expects more data after
    /// it where that data starts.
    pub fn byte_offset(&self) -> (r: usize)
        requires
            self.wf(),
        ensures
            r as int == self@.offset,
    {
        self.read.byte_offset()
    }

    /// Checks that the input has ended. To be called after a value where
    /// nothing may follow it.
    pub fn end(&mut self) -> (r: Result<(), Error>)
        requires
            old(self).wf(),
        ensures
            final(self).wf(),
            stepped(old(self)@, final(self)@),
            final(self)@.offset == old(self)@.offset,
            match r {
                Ok(()) => final(self)@.offset == final(self)@.input.len(),
                Err(e) => (!old(self)@.in_memory && e@.kind is Io && e@.offset
                    == final(self)@.offset) || (final(self)@.offset
                    < final(self)@.input.len() && e@ == (
                    Failure { kind: ErrorKind::TrailingData, offset: final(self)@.offset }
                )),
            },
    {
        let got = self.read.peek();
        match got {
            Some(Ok(_)) => Err(Error::new(ErrorKind::TrailingData, self.read.byte_offset())),
            Some(Err(e)) => Err(e),
            None => Ok(()),
        }
    }

    /// The next byte, not consumed, where the end of the input is a failure.
    pub fn parse_peek(&mut self) -> (r: Result<u8, Error>)
        requires
            old(self).wf(),
        ensures
            final(self).wf(),
            stepped(old(self)@, final(self)@),
            final(self)@.offset == old(self)@.offset,
            match r {
                Ok(b) => final(self)@.offset < final(self)@.input.len()
                    && final(self)@.input[final(self)@.offset] == b,
                Err(e) => (!old(self)@.in_memory && e@.kind is Io && e@.offset
                    == final(self)@.offset) || (final(self)@.offset
                    == final(self)@.input.len() && e@ == (
                    Failure {
                        kind: ErrorKind::EofWhileParsingValue,
                        offset: final(self)@.offset,
                    }
                )),
            },
    {
        peek_or_eof(&mut self.read)
    }

    /// The next byte, consumed, where the end of the input is a failure.
    pub fn parse_next(&mut self) -> (r: Result<u8, Error>)
        requires
            old(self).wf(),
        ensures
            final(self).wf(),
            stepped(old(self)@, final(self)@),
            match r {
                Ok(b) => final(self)@.offset == old(self)@.offset + 1
                    && final(self)@.input[old(self)@.offset] == b,
                Err(e) => final(self)@.offset == old(self)@.offset && ((!old(self)@.in_memory
                    && e@.kind is Io && e@.offset == final(self)@.offset) || (final(self)@.offset
                        == final(self)@.input.len() && e@
                    == (
                    Failure {
                        kind: ErrorKind::EofWhileParsingValue,
                        offset: final(self)@.offset,
                    }
                ))),
            },
            old(self)@.offset < old(self)@.input.len() ==> r is Ok && final(self)@.input
                == old(self)@.input,
    {
        next_or_eof(&mut self.read)
    }

    /// Tells whether another item of a list comes next, or the `e` that
    /// closes the list. Consumes nothing.
    pub fn has_next_element(&mut self) -> (r: Result<bool, Error>)
        requires
            old(self).wf(),
        ensures
            final(self).wf(),
            stepped(old(self)@, final(self)@),
            final(self)@.offset == old(self)@.offset,
            match r {
                Ok(more) => final(self)@.offset < final(self)@.input.len() && list_next(
                    final(self)@.input,
                    final(self)@.offset,
                ) == Ok::<bool, Failure>(more),
                Err(e) => failed(
                    !old(self)@.in_memory,
                    final(self)@.offset,
                    e@,
                    list_next(final(self)@.input, final(self)@.offset),
                ),
            },
    {
        proof {
            self.lemma_bounds();
        }
        let got = self.read.peek();
        match got {
            Some(Ok(b)) => if b == END {
                Ok(false)
            } else if is_digit_byte(b) || b == INT || b == LIST || b == DICT {
                Ok(true)
            } else {
                Err(Error::new(ErrorKind::InvalidList, self.read.byte_offset()))
            },
            Some(Err(e)) => Err(e),
            None => Err(Error::new(ErrorKind::InvalidList, self.read.byte_offset())),
        }
    }

    /// Tells whether another key of a dictionary comes next, or the `e` that
    /// closes the dictionary. Consumes nothing.
    pub fn has_next_key(&mut self) -> (r: Result<bool, Error>)
        requires
            old(self).wf(),
        ensures
            final(self).wf(),
            stepped(old(self)@, final(self)@),
            final(self)@.offset == old(self)@.offset,
            match r {
                Ok(more) => final(self)@.offset < final(self)@.input.len() && dict_next(
                    final(self)@.input,
                    final(self)@.offset,
                ) == Ok::<bool, Failure>(more),
                Err(e) => failed(
                    !old(self)@.in_memory,
                    final(self)@.offset,
                    e@,
                    dict_next(final(self)@.input, final(self)@.offset),
                ),
            },
    {
        proof {
            self.lemma_bounds();
        }
        let b: u8 = self.parse_peek()?;
        if b == END {
            Ok(false)
        } else if is_digit_byte(b) {
            Ok(true)
        } else {
            Err(Error::new(ErrorKind::KeyMustBeAByteStr, self.read.byte_offset()))
        }
    }

    /// Consumes the `e` that closes a list. Anything else in its place, and
    /// the end of the input, make the list invalid.
    pub fn on_end_seq(&mut self) -> (r: Result<(), Error>)
        requires
            old(self).wf(),
        ensures
            final(self).wf(),
            stepped(old(self)@, final(self)@),
            match r {
                Ok(()) => list_end(final(self)@.input, old(self)@.offset) == Ok::<int, Failure>(
                    final(self)@.offset,
                ),
                Err(e) => failed(
                    !old(self)@.in_memory,
                    final(self)@.offset,
                    e@,
                    list_end(final(self)@.input, old(self)@.offset),
                ),
            },
    {
        proof {
            self.lemma_bounds();
        }
        let got = self.read.peek();
        match got {
            Some(Ok(b)) => if b == END {
                let _ = self.parse_next()?;
                Ok(())
            } else {
                Err(Error::new(ErrorKind::InvalidList, self.read.byte_offset()))
            },
            Some(Err(e)) => Err(e),
            None => Err(Error::new(ErrorKind::InvalidList, self.read.byte_offset())),
        }
    }

    /// Consumes the `e` that closes a dictionary. Anything else in its place
    /// makes the dictionary invalid.
    pub fn on_end_map(&mut self) -> (r: Result<(), Error>)
        requires
            old(self).wf(),
        ensures
            final(self).wf(),
            stepped(old(self)@, final(self)@),
            match r {
                Ok(()) => dict_end(final(self)@.input, old(self)@.offset) == Ok::<int, Failure>(
                    final(self)@.offset,
                ),
                Err(e) => failed(
                    !old(self)@.in_memory,
                    final(self)@.offset,
                    e@,
                    dict_end(final(self)@.input, old(self)@.offset),
                ),
            },
    {
        proof {
            self.lemma_bounds();
        }
        let b: u8 = self.parse_peek()?;
        if b == END {
            let _ = self.parse_next()?;
            Ok(())
        } else {
            Err(Error::new(ErrorKind::InvalidDict, self.read.byte_offset()))
        }
    }

    /// Consumes an integer, whose `i` is the next byte, and gives the number.
    fn integer(&mut self) -> (r: Result<Number, Error>)
        requires
            old(self).wf(),
            old(self)@.offset < old(self)@.input.len(),
            old(self)@.input[old(self)@.offset] == INT,
        ensures
            final(self).wf(),
            stepped(old(self)@, final(self)@),
            match r {
                Ok(n) => {
                    &&& old(self)@.offset < final(self)@.offset
                    &&& forall|t: Seq<u8>| #[trigger]
                        extends(t, final(self)@.input) ==> number_at(t, old(self)@.offset + 1)
                            == Ok::<(Number, int), Failure>((n, final(self)@.offset))
                },
                Err(e) => failed(
                    !old(self)@.in_memory,
                    final(self)@.offset,
                    e@,
                    number_at(final(self)@.input, old(self)@.offset + 1),
                ),
            },
    {
        let ghost start: int = self@.offset;
        proof {
            self.lemma_bounds();
        }
        let _ = self.parse_next()?;
        self.buf.clear();
        let ghost mut text_bytes: Seq<u8> = Seq::empty();
        let number: Option<Number> = match self.read.parse_integer(&mut self.buf) {
            Ok(text) => {
                proof {
                    text_bytes = text.bytes();
                }
                parse_number(text.deref())
            },
            Err(e) => {
                return Err(e);
            },
        };
        let ghost s = self@.input;
        let ghost j: int = self@.offset - 1;
        proof {
            self.lemma_bounds();
            assert(extends(s, s));
            assert forall|t: Seq<u8>| #[trigger] extends(t, s) implies number_at(t, start + 1) == (
            match number_of(text_bytes) {
                None => Err::<(Number, int), Failure>(
                    Failure { kind: ErrorKind::ParseIntError, offset: j + 1 },
                ),
                Some(n) => Ok((n, j + 1)),
            }) by {
                lemma_extends_subrange(t, s, start + 1, j);
            }
        }
        match number {
            Some(n) => Ok(n),
            None => Err(Error::new(ErrorKind::ParseIntError, self.read.byte_offset())),
        }
    }

    /// Tells what stands at the offset, for a caller that expected something
    /// else. A byte string or an integer is consumed in the telling.
    ///
    /// Gives the failure to report where a value of another type stands
    /// there, and fails itself where none does.
    pub fn unexpected_type_err(&mut self, expected: &str) -> (r: Result<Error, Error>)
        requires
            old(self).wf(),
        ensures
            final(self).wf(),
            stepped(old(self)@, final(self)@),
            match r {
                Ok(found) => {
                    &&& unexpected_at(final(self)@.input, old(self)@.offset) is None
                    &&& found@.offset == 0
                    &&& found@.kind matches ErrorKind::Deserialize(text)
                    &&& text@ == mismatch_text(
                        found_at(final(self)@.input, old(self)@.offset),
                        expected@,
                    )
                },
                Err(e) => e@.offset == final(self)@.offset && ((!old(self)@.in_memory
                    && e@.kind is Io) || unexpected_at(final(self)@.input, old(self)@.offset)
                    == Some(e@)),
            },
    {
        let ghost start: int = self@.offset;
        proof {
            self.lemma_bounds();
        }
        let c: u8 = self.parse_peek()?;
        let ghost in1 = self@.input;
        if is_digit_byte(c) {
            self.buf.clear();
            match self.read.parse_byte_str(&mut self.buf) {
                Ok(_) => {},
                Err(e) => {
                    proof {
                        assert(self@.input[start] == in1[start]);
                    }
                    return Err(e);
                },
            }
            proof {
                assert(self@.input[start] == in1[start]);
                assert(extends(self@.input, self@.input));
            }
            Ok(Error::with_kind(ErrorKind::Deserialize(mismatch_message("byte array", expected))))
        } else if c == INT {
            match self.integer() {
                Ok(_) => {},
                Err(e) => {
                    proof {
                        assert(self@.input[start] == in1[start]);
                    }
                    return Err(e);
                },
            }
            proof {
                assert(self@.input[start] == in1[start]);
                assert(extends(self@.input, self@.input));
            }
            Ok(Error::with_kind(ErrorKind::Deserialize(mismatch_message("integer", expected))))
        } else if c == LIST {
            Ok(Error::with_kind(ErrorKind::Deserialize(mismatch_message("sequence", expected))))
        } else if c == DICT {
            Ok(Error::with_kind(ErrorKind::Deserialize(mismatch_message("map", expected))))
        } else {
            Err(Error::new(ErrorKind::ExpectedSomeValue, self.read.byte_offset()))
        }
    }

    /// Decodes the next value, whatever it is.
    pub fn deserialize_any(&mut self) -> (r: Result<Value, Error>)
        requires
            old(self).wf(),
        ensures
            final(self).wf(),
            stepped(old(self)@, final(self)@),
            match r {
                Ok(v) => {
                    &&& old(self)@.offset < final(self)@.offset
                    &&& forall|t: Seq<u8>| #[trigger]
                        extends(t, final(self)@.input) ==> value_at(t, old(self)@.offset) == Ok::<
                            (Tree, int),
                            Failure,
                        >((v@, final(self)@.offset))
                },
                Err(e) => failed(
                    !old(self)@.in_memory,
                    final(self)@.offset,
                    e@,
                    value_at(final(self)@.input, old(self)@.offset),
                ),
            },
        decreases usize::MAX - old(self)@.offset, 1int,
    {
        let ghost start: int = self@.offset;
        proof {
            self.lemma_bounds();
        }
        let c: u8 = self.parse_peek()?;
        let ghost in1 = self@.input;
        proof {
            self.lemma_bounds();
        }
        if is_digit_byte(c) {
            self.buf.clear();
            let ghost mut payload_bytes: Seq<u8> = Seq::empty();
            let bytes: ByteString = match self.read.parse_byte_str(&mut self.buf) {
                Ok(payload) => {
                    proof {
                        payload_bytes = payload.bytes();
                    }
                    ByteString::from_slice(payload.deref())
                },
                Err(e) => {
                    proof {
                        assert(self@.input[start] == in1[start]);
                    }
                    return Err(e);
                },
            };
            let v = Value::ByteStr(bytes);
            proof {
                let s = self@.input;
                let to: int = self@.offset;
                let from: int = to - payload_bytes.len();
                self.lemma_bounds();
                assert(s[start] == in1[start]);
                assert(extends(s, s));
                lemma_digits_end_bounds(s, start);
                assert forall|t: Seq<u8>| #[trigger] extends(t, s) implies value_at(t, start)
                    == Ok::<(Tree, int), Failure>((v@, to)) by {
                    assert(t[start] == s[start]);
                    lemma_extends_subrange(t, s, from, to);
                }
            }
            Ok(v)
        } else if c == INT {
            match self.integer() {
                Ok(n) => {
                    proof {
                        let s = self@.input;
                        assert(s[start] == in1[start]);
                        assert forall|t: Seq<u8>| #[trigger] extends(t, s) implies value_at(
                            t,
                            start,
                        ) == Ok::<(Tree, int), Failure>((Tree::Int(n), self@.offset)) by {
                            assert(t[start] == s[start]);
                        }
                    }
                    Ok(Value::Int(n))
                },
                Err(e) => {
                    proof {
                        assert(self@.input[start] == in1[start]);
                    }
                    Err(e)
                },
            }
        } else if c == LIST {
            match self.deserialize_seq() {
                Ok(items) => {
                    proof {
                        let s = self@.input;
                        lemma_view_list(items);
                        assert forall|t: Seq<u8>| #[trigger] extends(t, s) implies value_at(
                            t,
                            start,
                        ) == Ok::<(Tree, int), Failure>(
                            (Tree::List(trees_of(items@)), self@.offset),
                        ) by {
                            assert(t[start] == s[start]);
                        }
                    }
                    Ok(Value::List(items))
                },
                Err(e) => {
                    proof {
                        assert(self@.input[start] == in1[start]);
                    }
                    Err(e)
                },
            }
        } else if c == DICT {
            match self.deserialize_map() {
                Ok(entries) => {
                    proof {
                        let s = self@.input;
                        lemma_view_dict(entries);
                        assert forall|t: Seq<u8>| #[trigger] extends(t, s) implies value_at(
                            t,
                            start,
                        ) == Ok::<(Tree, int), Failure>((Tree::Dict(entries@), self@.offset)) by {
                            assert(t[start] == s[start]);
                        }
                    }
                    Ok(Value::Dict(entries))
                },
                Err(e) => {
                    proof {
                        assert(self@.input[start] == in1[start]);
                    }
                    Err(e)
                },
            }
        } else {
            Err(Error::new(ErrorKind::ExpectedSomeValue, self.read.byte_offset()))
        }
    }

    /// Decodes a list, which must be what comes next, into its items.
    pub fn deserialize_seq(&mut self) -> (r: Result<Vec<Value>, Error>)
        requires
            old(self).wf(),
        ensures
            final(self).wf(),
            stepped(old(self)@, final(self)@),
            match r {
                Ok(items) => {
                    &&& old(self)@.offset < final(self)@.offset
                    &&& final(self)@.input[old(self)@.offset] == LIST
                    &&& forall|t: Seq<u8>| #[trigger]
                        extends(t, final(self)@.input) ==> list_tail(
                            t,
                            old(self)@.offset + 1,
                            Seq::empty(),
                        ) == Ok::<(Seq<Tree>, int), Failure>(
                            (trees_of(items@), final(self)@.offset),
                        )
                },
                Err(e) => if old(self)@.offset < final(self)@.input.len()
                    && final(self)@.input[old(self)@.offset] == LIST {
                    failed(
                    !old(self)@.in_memory,
                    final(self)@.offset,
                    e@,
                        list_tail(final(self)@.input, old(self)@.offset + 1, Seq::empty()),
                    )
                } else {
                    mismatch(
                        !old(self)@.in_memory,
                        final(self)@.offset,
                        e@,
                        final(self)@.input,
                        old(self)@.offset,
                        "a list"@,
                    )
                },
            },
        decreases usize::MAX - old(self)@.offset, 0int,
    {
        let ghost start: int = self@.offset;
        proof {
            self.lemma_bounds();
        }
        let c: u8 = self.parse_peek()?;
        if c != LIST {
            return match self.unexpected_type_err("a list") {
                Ok(e) => Err(e),
                Err(e) => Err(e),
            };
        }
        let _ = self.parse_next()?;
        let mut items: Vec<Value> = Vec::new();
        proof {
            self.lemma_bounds();
            assert(trees_of(items@) =~= Seq::empty());
        }
        loop
            invariant
                self.wf(),
                stepped(old(self)@, self@),
                start == old(self)@.offset,
                0 <= start < self@.offset <= self@.input.len(),
                self@.input[start] == LIST,
                forall|t: Seq<u8>| #[trigger]
                    extends(t, self@.input) ==> list_tail(t, start + 1, Seq::empty()) == list_tail(
                        t,
                        self@.offset,
                        trees_of(items@),
                    ),
            decreases usize::MAX - self@.offset,
        {
            let ghost in1 = self@.input;
            let ghost p: int = self@.offset;
            let got = self.read.peek();
            let ghost in2 = self@.input;
            proof {
                self.lemma_bounds();
                lemma_extends_transitive(in2, in1, old(self)@.input);
                assert(extends(in2, in2));
                assert(in2[start] == in1[start]);
            }
            let c: u8 = match got {
                Some(Ok(c)) => c,
                Some(Err(e)) => {
                    return Err(e);
                },
                None => {
                    return Err(Error::new(ErrorKind::InvalidList, self.read.byte_offset()));
                },
            };
            if c == END {
                let _ = self.parse_next()?;
                proof {
                    assert forall|t: Seq<u8>| #[trigger] extends(t, in2) implies list_tail(
                        t,
                        start + 1,
                        Seq::empty(),
                    ) == Ok::<(Seq<Tree>, int), Failure>((trees_of(items@), p + 1)) by {
                        lemma_extends_transitive(t, in2, in1);
                        assert(t[p] == in2[p]);
                    }
                }
                return Ok(items);
            }
            if !(is_digit_byte(c) || c == INT || c == LIST || c == DICT) {
                return Err(Error::new(ErrorKind::InvalidList, self.read.byte_offset()));
            }
            let item: Value = match self.deserialize_any() {
                Ok(item) => item,
                Err(e) => {
                    proof {
                        if !(e@.kind is Io && e@.offset == self@.offset) {
                            let in3 = self@.input;
                            lemma_extends_transitive(in3, in2, in1);
                            assert(extends(in3, in3));
                            assert(in3[p] == in2[p]);
                            assert(in3[start] == in2[start]);
                        }
                    }
                    return Err(e);
                },
            };
            let ghost before = items@;
            items.push(item);
            proof {
                let in3 = self@.input;
                let q: int = self@.offset;
                self.lemma_bounds();
                lemma_extends_transitive(in3, in2, old(self)@.input);
                assert(in3[start] == in2[start]);
                assert(trees_of(items@) =~= trees_of(before).push(item@));
                assert forall|t: Seq<u8>| #[trigger] extends(t, in3) implies list_tail(
                    t,
                    start + 1,
                    Seq::empty(),
                ) == list_tail(t, q, trees_of(items@)) by {
                    lemma_extends_transitive(t, in3, in2);
                    lemma_extends_transitive(t, in2, in1);
                    assert(t[p] == in2[p]);
                }
            }
        }
    }

    /// Decodes a dictionary, which must be what comes next. Keys may come in
    /// any order; where one comes twice, the later entry stays.
    pub fn deserialize_map(&mut self) -> (r: Result<Dict, Error>)
        requires
            old(self).wf(),
        ensures
            final(self).wf(),
            stepped(old(self)@, final(self)@),
            match r {
                Ok(entries) => {
                    &&& old(self)@.offset < final(self)@.offset
                    &&& final(self)@.input[old(self)@.offset] == DICT
                    &&& entries.wf()
                    &&& forall|t: Seq<u8>| #[trigger]
                        extends(t, final(self)@.input) ==> dict_tail(
                            t,
                            old(self)@.offset + 1,
                            Seq::empty(),
                        ) == Ok::<(Seq<(Seq<u8>, Tree)>, int), Failure>(
                            (entries@, final(self)@.offset),
                        )
                },
                Err(e) => if old(self)@.offset < final(self)@.input.len()
                    && final(self)@.input[old(self)@.offset] == DICT {
                    failed(
                    !old(self)@.in_memory,
                    final(self)@.offset,
                    e@,
                        dict_tail(final(self)@.input, old(self)@.offset + 1, Seq::empty()),
                    )
                } else {
                    mismatch(
                        !old(self)@.in_memory,
                        final(self)@.offset,
                        e@,
                        final(self)@.input,
                        old(self)@.offset,
                        "a dictionary"@,
                    )
                },
            },
        decreases usize::MAX - old(self)@.offset, 0int,
    {
        let ghost start: int = self@.offset;
        proof {
            self.lemma_bounds();
        }
        let c: u8 = self.parse_peek()?;
        if c != DICT {
            return match self.unexpected_type_err("a dictionary") {
                Ok(e) => Err(e),
                Err(e) => Err(e),
            };
        }
        let _ = self.parse_next()?;
        let mut entries: Dict = Dict::new();
        proof {
            self.lemma_bounds();
        }
        loop
            invariant
                self.wf(),
                stepped(old(self)@, self@),
                start == old(self)@.offset,
                0 <= start < self@.offset <= self@.input.len(),
                self@.input[start] == DICT,
                entries.wf(),
                forall|t: Seq<u8>| #[trigger]
                    extends(t, self@.input) ==> dict_tail(t, start + 1, Seq::empty()) == dict_tail(
                        t,
                        self@.offset,
                        entries@,
                    ),
            decreases usize::MAX - self@.offset,
        {
            let ghost in1 = self@.input;
            let ghost p: int = self@.offset;
            let c: u8 = match self.parse_peek() {
                Ok(c) => c,
                Err(e) => {
                    proof {
                        let in2 = self@.input;
                        assert(extends(in2, in2));
                        assert(in2[start] == in1[start]);
                    }
                    return Err(e);
                },
            };
            let ghost in2 = self@.input;
            proof {
                self.lemma_bounds();
                lemma_extends_transitive(in2, in1, old(self)@.input);
                assert(extends(in2, in2));
                assert(in2[start] == in1[start]);
            }
            if c == END {
                let _ = self.parse_next()?;
                proof {
                    assert forall|t: Seq<u8>| #[trigger] extends(t, in2) implies dict_tail(
                        t,
                        start + 1,
                        Seq::empty(),
                    ) == Ok::<(Seq<(Seq<u8>, Tree)>, int), Failure>((entries@, p + 1)) by {
                        lemma_extends_transitive(t, in2, in1);
                        assert(t[p] == in2[p]);
                    }
                }
                return Ok(entries);
            }
            if !is_digit_byte(c) {
                return Err(Error::new(ErrorKind::KeyMustBeAByteStr, self.read.byte_offset()));
            }
            self.buf.clear();
            let ghost mut key_bytes: Seq<u8> = Seq::empty();
            let key: ByteString = match self.read.parse_byte_str(&mut self.buf) {
                Ok(payload) => {
                    proof {
                        key_bytes = payload.bytes();
                    }
                    ByteString::from_slice(payload.deref())
                },
                Err(e) => {
                    proof {
                        if !(e@.kind is Io && e@.offset == self@.offset) {
                            let in3 = self@.input;
                            lemma_extends_transitive(in3, in2, in1);
                            assert(extends(in3, in3));
                            assert(in3[p] == in2[p]);
                            assert(in3[start] == in2[start]);
                        }
                    }
                    return Err(e);
                },
            };
            let ghost in3 = self@.input;
            let ghost k: int = self@.offset;
            proof {
                self.lemma_bounds();
                lemma_extends_transitive(in3, in2, in1);
                lemma_extends_transitive(in3, in2, old(self)@.input);
                assert(extends(in3, in3));
                assert(in3[p] == in2[p]);
                assert(in3[start] == in2[start]);
                lemma_digits_end_bounds(in3, p);
            }
            let item: Value = match self.deserialize_any() {
                Ok(item) => item,
                Err(e) => {
                    proof {
                        if !(e@.kind is Io && e@.offset == self@.offset) {
                            let in4 = self@.input;
                            lemma_extends_transitive(in4, in3, in1);
                            assert(extends(in4, in4));
                            assert(extends(in4, in3));
                            assert(in4[p] == in3[p]);
                            assert(in4[start] == in3[start]);
                        }
                    }
                    return Err(e);
                },
            };
            let ghost before = entries@;
            entries.insert(key, item);
            proof {
                let in4 = self@.input;
                let q: int = self@.offset;
                self.lemma_bounds();
                lemma_extends_transitive(in4, in3, old(self)@.input);
                assert(in4[start] == in3[start]);
                assert forall|t: Seq<u8>| #[trigger] extends(t, in4) implies dict_tail(
                    t,
                    start + 1,
                    Seq::empty(),
                ) == dict_tail(t, q, entries@) by {
                    lemma_extends_transitive(t, in4, in3);
                    lemma_extends_transitive(t, in3, in1);
                    assert(t[p] == in3[p]);
                    lemma_extends_subrange(t, in3, k - key_bytes.len(), k);
                }
            }
        }
    }

    /// Decodes an integer, which must be what comes next.
    pub fn deserialize_i64(&mut self) -> (r: Result<Number, Error>)
        requires
            old(self).wf(),
        ensures
            final(self).wf(),
            stepped(old(self)@, final(self)@),
            match r {
                Ok(n) => {
                    &&& old(self)@.offset < final(self)@.offset
                    &&& final(self)@.input[old(self)@.offset] == INT
                    &&& forall|t: Seq<u8>| #[trigger]
                        extends(t, final(self)@.input) ==> number_at(t, old(self)@.offset + 1)
                            == Ok::<(Number, int), Failure>((n, final(self)@.offset))
                },
                Err(e) => if old(self)@.offset < final(self)@.input.len()
                    && final(self)@.input[old(self)@.offset] == INT {
                    failed(
                    !old(self)@.in_memory,
                    final(self)@.offset,
                    e@,
                        number_at(final(self)@.input, old(self)@.offset + 1),
                    )
                } else {
                    mismatch(
                        !old(self)@.in_memory,
                        final(self)@.offset,
                        e@,
                        final(self)@.input,
                        old(self)@.offset,
                        "an integer"@,
                    )
                },
            },
    {
        let ghost start: int = self@.offset;
        proof {
            self.lemma_bounds();
        }
        let c: u8 = self.parse_peek()?;
        let ghost in1 = self@.input;
        if c != INT {
            return match self.unexpected_type_err("an integer") {
                Ok(e) => Err(e),
                Err(e) => Err(e),
            };
        }
        let r = self.integer();
        proof {
            assert(self@.input[start] == in1[start]);
        }
        r
    }

    /// Decodes an integer, which must be what comes next. Signed and
    /// unsigned integers are written alike, so this is `deserialize_i64`.
    pub fn deserialize_u64(&mut self) -> (r: Result<Number, Error>)
        requires
            old(self).wf(),
        ensures
            final(self).wf(),
            stepped(old(self)@, final(self)@),
            match r {
                Ok(n) => {
                    &&& old(self)@.offset < final(self)@.offset
                    &&& final(self)@.input[old(self)@.offset] == INT
                    &&& forall|t: Seq<u8>| #[trigger]
                        extends(t, final(self)@.input) ==> number_at(t, old(self)@.offset + 1)
                            == Ok::<(Number, int), Failure>((n, final(self)@.offset))
                },
                Err(e) => if old(self)@.offset < final(self)@.input.len()
                    && final(self)@.input[old(self)@.offset] == INT {
                    failed(
                    !old(self)@.in_memory,
                    final(self)@.offset,
                    e@,
                        number_at(final(self)@.input, old(self)@.offset + 1),
                    )
                } else {
                    mismatch(
                        !old(self)@.in_memory,
                        final(self)@.offset,
                        e@,
                        final(self)@.input,
                        old(self)@.offset,
                        "an integer"@,
                    )
                },
            },
    {
        self.deserialize_i64()
    }

    /// Consumes the next value and gives bytes for it: of a byte string its
    /// payload, of an integer, a list or a dictionary the bytes as they stand
    /// in the input, from the first to the last. A digest over the bytes of a
    /// nested value, such as an info-hash, is taken over what this gives.
    pub fn deserialize_bytes<'b>(&'b mut self) -> (r: Result<Ref<'a, 'b, [u8]>, Error>)
        requires
            old(self).wf(),
        ensures
            final(self).wf(),
            stepped(old(self)@, final(self)@),
            match r {
                Ok(bytes) => {
                    &&& old(self)@.offset < final(self)@.offset
                    &&& forall|t: Seq<u8>| #[trigger]
                        extends(t, final(self)@.input) ==> capture_at(t, old(self)@.offset)
                            == Ok::<Span, Failure>(
                            Span {
                                start: final(self)@.offset - bytes.bytes().len(),
                                end: final(self)@.offset,
                            },
                        )
                    &&& bytes.bytes() == final(self)@.input.subrange(
                        final(self)@.offset - bytes.bytes().len(),
                        final(self)@.offset,
                    )
                    &&& old(self)@.in_memory ==> bytes is Source
                },
                Err(e) => failed(
                    !old(self)@.in_memory,
                    final(self)@.offset,
                    e@,
                    capture_at(final(self)@.input, old(self)@.offset),
                ),
            },
    {
        proof {
            self.lemma_bounds();
        }
        let c: u8 = self.parse_peek()?;
        self.buf.clear();
        if is_digit_byte(c) {
            self.read.parse_byte_str(&mut self.buf)
        } else if c == INT {
            self.read.parse_raw_integer(&mut self.buf)
        } else if c == LIST {
            self.read.parse_raw_list(&mut self.buf)
        } else if c == DICT {
            self.read.parse_raw_dict(&mut self.buf)
        } else {
            Err(Error::new(ErrorKind::ExpectedSomeValue, self.read.byte_offset()))
        }
    }

    /// Consumes the next value and gives bytes for it, as `deserialize_bytes`
    /// does, in a vector of their own.
    pub fn deserialize_byte_buf(&mut self) -> (r: Result<Vec<u8>, Error>)
        requires
            old(self).wf(),
        ensures
            final(self).wf(),
            stepped(old(self)@, final(self)@),
            match r {
                Ok(bytes) => {
                    &&& old(self)@.offset < final(self)@.offset
                    &&& forall|t: Seq<u8>| #[trigger]
                        extends(t, final(self)@.input) ==> capture_at(t, old(self)@.offset)
                            == Ok::<Span, Failure>(
                            Span {
                                start: final(self)@.offset - bytes@.len(),
                                end: final(self)@.offset,
                            },
                        )
                    &&& bytes@ == final(self)@.input.subrange(
                        final(self)@.offset - bytes@.len(),
                        final(self)@.offset,
                    )
                },
                Err(e) => failed(
                    !old(self)@.in_memory,
                    final(self)@.offset,
                    e@,
                    capture_at(final(self)@.input, old(self)@.offset),
                ),
            },
    {
        match self.deserialize_bytes() {
            Ok(bytes) => Ok(slice_to_vec(bytes.deref())),
            Err(e) => Err(e),
        }
    }
}

impl<'a> Deserializer<SliceRead<'a>> {
    /// A decoder over a slice of bytes.
    pub fn from_slice(bytes: &'a [u8]) -> (r: Self)
        ensures
            r.wf(),
            r@ == (Seen { input: bytes@, offset: 0, in_memory: true }),
    {
        Deserializer::new(SliceRead::new(bytes))
    }
}

impl<R: ByteStream> Deserializer<IoRead<R>> {
    /// A decoder over a stream.
    pub fn from_reader(reader: R) -> (r: Self)
        ensures
            r.wf(),
            r@ == (Seen { input: Seq::empty(), offset: 0, in_memory: false }),
    {
        Deserializer::new(IoRead::new(reader))
    }
}

/// Decodes the value that `s` encodes. All of `s` must be that value: bytes
/// after it are a failure.
pub fn from_slice(s: &[u8]) -> (r: Result<Value, Error>)
    ensures
        match r {
            Ok(v) => decode(s@) == Ok::<Tree, Failure>(v@),
            Err(e) => decode(s@) == Err::<Tree, Failure>(e@),
        },
{
    let mut de = Deserializer::from_slice(s);
    proof {
        assert(extends(s@, s@));
    }
    let v: Value = de.deserialize_any()?;
    de.end()?;
    Ok(v)
}

/// Decodes the value that a stream encodes. The stream must end with the
/// value: bytes after it are a failure.
///
/// What is stated is stated of the bytes that the stream handed out, which
/// are those of some input.
pub fn from_reader<R: ByteStream>(reader: R) -> (r: Result<Value, Error>)
    ensures
        match r {
            Ok(v) => exists|s: Seq<u8>| decode(s) == Ok::<Tree, Failure>(v@),
            Err(e) => e@.kind is Io || exists|s: Seq<u8>| decode(s) == Err::<Tree, Failure>(e@),
        },
{
    let mut de = Deserializer::from_reader(reader);
    let v: Value = match de.deserialize_any() {
        Ok(v) => v,
        Err(e) => {
            proof {
                if !(e@.kind is Io) {
                    assert(decode(de@.input) == Err::<Tree, Failure>(e@));
                }
            }
            return Err(e);
        },
    };
    let ghost in1 = de@.input;
    match de.end() {
        Ok(()) => {
            proof {
                assert(extends(de@.input, de@.input));
                assert(decode(de@.input) == Ok::<Tree, Failure>(v@));
            }
            Ok(v)
        },
        Err(e) => {
            proof {
                if !(e@.kind is Io) {
                    assert(extends(de@.input, de@.input));
                    assert(decode(de@.input) == Err::<Tree, Failure>(e@));
                }
            }
            Err(e)
        },
    }
}

/// What a decoder says that was asked for one type and found another.
fn mismatch_message(found: &str, expected: &str) -> (r: String)
    ensures
        r@ == mismatch_text(found@, expected@),
{
    let mut text: String = String::from_str("unexpected type error. invalid_type=");
    text.append(found);
    text.append(", expected_type=");
    text.append(expected);
    text
}

} // verus!
