//! Sources of bytes for the decoder: a slice in memory, or a stream.

use crate::error::{Error, ErrorKind, Failure};
use crate::grammar::{
    byte_str_at, digits_end, digits_value, extends, failed, integer_at, is_digit,
    lemma_byte_str_stable, lemma_digits_value_push, lemma_integer_stable, raw_byte_str_at,
    raw_dict_at, raw_dict_tail, raw_integer_at, raw_item_at, raw_list_at, raw_list_tail, Span,
    COLON, DICT, END, INT, LIST, MINUS, NINE, ZERO,
};
use vstd::prelude::*;
use vstd::slice::slice_subrange;

mod stream;

pub use stream::{ByteStream, IoRead};

verus! {

/// Bytes that a read has produced, and where they live.
///
/// `Source` borrows from the input itself and lasts as long as the input does.
/// `Buffer` borrows from the scratch buffer that was handed to the read, and
/// lasts until that buffer is used again.
#[derive(Debug)]
pub enum Ref<'a, 'b, T: ?Sized + 'static> {
    /// Borrowed from the input itself.
    Source(&'a T),
    /// Borrowed from the scratch buffer.
    Buffer(&'b T),
}

impl<'a, 'b, T: ?Sized + 'static> Ref<'a, 'b, T> {
    /// The data, wherever it lives.
    pub fn deref(&self) -> (r: &T)
        ensures
            self matches Ref::Source(s) ==> r == s,
            self matches Ref::Buffer(b) ==> r == b,
    {
        match self {
            Ref::Source(s) => s,
            Ref::Buffer(b) => b,
        }
    }
}

impl<'a, 'b> Ref<'a, 'b, [u8]> {
    /// The bytes, wherever they live.
    pub open spec fn bytes(self) -> Seq<u8> {
        match self {
            Ref::Source(s) => s@,
            Ref::Buffer(b) => b@,
        }
    }
}

/// The state of a reader, as mathematics.
pub struct Seen {
    /// The bytes of the input that the reader has seen so far.
    pub input: Seq<u8>,
    /// How many of them it has consumed.
    pub offset: int,
    /// Whether the whole input lies in memory, so that reads cannot fail and
    /// byte strings can be borrowed from it.
    pub in_memory: bool,
}

/// What every operation of a reader keeps: what it has seen of the input
/// stays, its offset does not go back and lies inside what was seen, and a
/// reader over memory neither becomes a stream nor sees more input.
pub open spec fn stepped(pre: Seen, post: Seen) -> bool {
    &&& extends(post.input, pre.input)
    &&& 0 <= pre.offset <= post.offset <= post.input.len() <= usize::MAX
    &&& post.in_memory == pre.in_memory
    &&& pre.in_memory ==> post.input == pre.input
}

/// A source of bytes with one byte of lookahead.
///
/// A reader over memory has seen all of its input from the start. A stream
/// sees more with each byte it is handed, so what a parse found is stated of
/// every input that starts with the bytes seen: whatever follows, that much
/// stands. A parse that fails leaves the reader at the offset of the failure.
///
/// A parse is handed a scratch buffer. A reader over memory borrows what it
/// gives from the input and leaves the buffer as it was; a stream copies
/// what it gives into the buffer.
pub trait Read<'a>: Sized + View<V = Seen> {
    /// The reader's invariant.
    spec fn wf(&self) -> bool;

    /// The offset lies inside what was seen, and both fit in `usize`.
    proof fn lemma_bounds(&self)
        requires
            self.wf(),
        ensures
            0 <= self@.offset <= self@.input.len() <= usize::MAX,
    ;

    /// Consumes the next byte. `None` is the end of the input.
    fn next(&mut self) -> (r: Option<Result<u8, Error>>)
        requires
            old(self).wf(),
        ensures
            final(self).wf(),
            stepped(old(self)@, final(self)@),
            match r {
                Some(Ok(b)) => final(self)@.offset == old(self)@.offset + 1
                    && final(self)@.input[old(self)@.offset] == b,
                Some(Err(e)) => !old(self)@.in_memory && e@.kind is Io && e@.offset
                    == old(self)@.offset && final(self)@.offset == old(self)@.offset,
                None => final(self)@.offset == old(self)@.offset && final(self)@.offset
                    == final(self)@.input.len(),
            },
            old(self)@.offset < old(self)@.input.len() ==> final(self)@.input == old(self)@.input
                && r == Some(Ok::<u8, Error>(old(self)@.input[old(self)@.offset])),
    ;

    /// Shows the next byte and consumes nothing. Until a byte is consumed,
    /// every peek shows the same byte.
    fn peek(&mut self) -> (r: Option<Result<u8, Error>>)
        requires
            old(self).wf(),
        ensures
            final(self).wf(),
            stepped(old(self)@, final(self)@),
            final(self)@.offset == old(self)@.offset,
            match r {
                Some(Ok(b)) => final(self)@.offset < final(self)@.input.len()
                    && final(self)@.input[final(self)@.offset] == b,
                Some(Err(e)) => !old(self)@.in_memory && e@.kind is Io && e@.offset
                    == old(self)@.offset,
                None => final(self)@.offset == final(self)@.input.len(),
            },
            old(self)@.offset < old(self)@.input.len() ==> final(self)@.input == old(self)@.input
                && r == Some(Ok::<u8, Error>(old(self)@.input[old(self)@.offset])),
    ;

    /// The number of bytes consumed.
    fn byte_offset(&self) -> (r: usize)
        requires
            self.wf(),
        ensures
            r as int == self@.offset,
    ;

    /// Consumes the text of an integer, whose `i` has been consumed, and the
    /// `e` that closes it. Gives the text: an optional `-` and the digits.
    fn parse_integer<'b>(&'b mut self, buf: &'b mut Vec<u8>) -> (r: Result<Ref<'a, 'b, [u8]>,
        Error>)
        requires
            old(self).wf(),
        ensures
            final(self).wf(),
            stepped(old(self)@, final(self)@),
            match r {
                Ok(text) => {
                    &&& old(self)@.offset < final(self)@.offset
                    &&& forall|t: Seq<u8>| #[trigger]
                        extends(t, final(self)@.input) ==> integer_at(t, old(self)@.offset)
                            == Ok::<int, Failure>(final(self)@.offset - 1)
                    &&& text.bytes() == final(self)@.input.subrange(
                        old(self)@.offset,
                        final(self)@.offset - 1,
                    )
                    &&& text.bytes().len() > 0
                    &&& text.bytes()[0] == MINUS || is_digit(text.bytes()[0])
                    &&& forall|i: int|
                        1 <= i < text.bytes().len() ==> is_digit(#[trigger] text.bytes()[i])
                    &&& old(self)@.in_memory ==> text is Source
                },
                Err(e) => failed(
                    !old(self)@.in_memory,
                    final(self)@.offset,
                    e@,
                    integer_at(final(self)@.input, old(self)@.offset),
                ),
            },
            old(self)@.in_memory ==> final(buf)@ == old(buf)@,
    ;

    /// Consumes a byte string. Gives its payload, without the length and the
    /// colon before it.
    fn parse_byte_str<'b>(&'b mut self, buf: &'b mut Vec<u8>) -> (r: Result<
        Ref<'a, 'b, [u8]>,
        Error,
    >)
        requires
            old(self).wf(),
        ensures
            final(self).wf(),
            stepped(old(self)@, final(self)@),
            match r {
                Ok(payload) => {
                    &&& old(self)@.offset < final(self)@.offset
                    &&& forall|t: Seq<u8>| #[trigger]
                        extends(t, final(self)@.input) ==> byte_str_at(t, old(self)@.offset)
                            == Ok::<Span, Failure>(
                            Span {
                                start: final(self)@.offset - payload.bytes().len(),
                                end: final(self)@.offset,
                            },
                        )
                    &&& payload.bytes() == final(self)@.input.subrange(
                        final(self)@.offset - payload.bytes().len(),
                        final(self)@.offset,
                    )
                    &&& old(self)@.in_memory ==> payload is Source
                },
                Err(e) => failed(
                    !old(self)@.in_memory,
                    final(self)@.offset,
                    e@,
                    byte_str_at(final(self)@.input, old(self)@.offset),
                ),
            },
            old(self)@.in_memory ==> final(buf)@ == old(buf)@,
    ;

    /// Consumes an integer and gives its bytes as they stand in the input,
    /// `i` and `e` included.
    fn parse_raw_integer<'b>(&'b mut self, buf: &'b mut Vec<u8>) -> (r: Result<
        Ref<'a, 'b, [u8]>,
        Error,
    >)
        requires
            old(self).wf(),
        ensures
            final(self).wf(),
            stepped(old(self)@, final(self)@),
            match r {
                Ok(raw) => {
                    &&& old(self)@.offset < final(self)@.offset
                    &&& forall|t: Seq<u8>| #[trigger]
                        extends(t, final(self)@.input) ==> raw_integer_at(t, old(self)@.offset)
                            == Ok::<int, Failure>(final(self)@.offset)
                    &&& raw.bytes() == final(self)@.input.subrange(
                        old(self)@.offset,
                        final(self)@.offset,
                    )
                    &&& old(self)@.in_memory ==> raw is Source
                },
                Err(e) => failed(
                    !old(self)@.in_memory,
                    final(self)@.offset,
                    e@,
                    raw_integer_at(final(self)@.input, old(self)@.offset),
                ),
            },
            old(self)@.in_memory ==> final(buf)@ == old(buf)@,
    ;

    /// Consumes a byte string and gives its bytes as they stand in the input,
    /// length and colon included.
    fn parse_raw_byte_str<'b>(&mut self, buf: &'b mut Vec<u8>) -> (r: Result<
        Ref<'a, 'b, [u8]>,
        Error,
    >)
        requires
            old(self).wf(),
        ensures
            final(self).wf(),
            stepped(old(self)@, final(self)@),
            match r {
                Ok(raw) => {
                    &&& old(self)@.offset < final(self)@.offset
                    &&& forall|t: Seq<u8>| #[trigger]
                        extends(t, final(self)@.input) ==> raw_byte_str_at(t, old(self)@.offset)
                            == Ok::<int, Failure>(final(self)@.offset)
                    &&& raw.bytes() == final(self)@.input.subrange(
                        old(self)@.offset,
                        final(self)@.offset,
                    )
                    &&& old(self)@.in_memory ==> raw is Source
                },
                Err(e) => failed(
                    !old(self)@.in_memory,
                    final(self)@.offset,
                    e@,
                    raw_byte_str_at(final(self)@.input, old(self)@.offset),
                ),
            },
            old(self)@.in_memory ==> final(buf)@ == old(buf)@,
    ;

    /// Consumes a list and gives its bytes as they stand in the input, from
    /// `l` to the `e` that closes it.
    fn parse_raw_list<'b>(&'b mut self, buf: &'b mut Vec<u8>) -> (r: Result<
        Ref<'a, 'b, [u8]>,
        Error,
    >)
        requires
            old(self).wf(),
        ensures
            final(self).wf(),
            stepped(old(self)@, final(self)@),
            match r {
                Ok(raw) => {
                    &&& old(self)@.offset < final(self)@.offset
                    &&& forall|t: Seq<u8>| #[trigger]
                        extends(t, final(self)@.input) ==> raw_list_at(t, old(self)@.offset)
                            == Ok::<int, Failure>(final(self)@.offset)
                    &&& raw.bytes() == final(self)@.input.subrange(
                        old(self)@.offset,
                        final(self)@.offset,
                    )
                    &&& old(self)@.in_memory ==> raw is Source
                },
                Err(e) => failed(
                    !old(self)@.in_memory,
                    final(self)@.offset,
                    e@,
                    raw_list_at(final(self)@.input, old(self)@.offset),
                ),
            },
            old(self)@.in_memory ==> final(buf)@ == old(buf)@,
    ;

    /// Consumes a dictionary and gives its bytes as they stand in the input,
    /// from `d` to the `e` that closes it.
    fn parse_raw_dict<'b>(&'b mut self, buf: &'b mut Vec<u8>) -> (r: Result<
        Ref<'a, 'b, [u8]>,
        Error,
    >)
        requires
            old(self).wf(),
        ensures
            final(self).wf(),
            stepped(old(self)@, final(self)@),
            match r {
                Ok(raw) => {
                    &&& old(self)@.offset < final(self)@.offset
                    &&& forall|t: Seq<u8>| #[trigger]
                        extends(t, final(self)@.input) ==> raw_dict_at(t, old(self)@.offset)
                            == Ok::<int, Failure>(final(self)@.offset)
                    &&& raw.bytes() == final(self)@.input.subrange(
                        old(self)@.offset,
                        final(self)@.offset,
                    )
                    &&& old(self)@.in_memory ==> raw is Source
                },
                Err(e) => failed(
                    !old(self)@.in_memory,
                    final(self)@.offset,
                    e@,
                    raw_dict_at(final(self)@.input, old(self)@.offset),
                ),
            },
            old(self)@.in_memory ==> final(buf)@ == old(buf)@,
    ;
}

/// Whether a byte is a decimal digit.
pub fn is_digit_byte(b: u8) -> (r: bool)
    ensures
        r == is_digit(b),
{
    ZERO <= b && b <= NINE
}

/// A reader over a slice of bytes in memory. What it gives is borrowed from
/// the slice.
#[derive(Debug)]
pub struct SliceRead<'a> {
    slice: &'a [u8],
    byte_offset: usize,
}

impl<'a> SliceRead<'a> {
    /// A reader over a slice has all of its input in memory: its reads do
    /// not fail, it sees no more input than it has seen, and what it gives is
    /// borrowed from the input.
    pub proof fn lemma_in_memory(&self)
        ensures
            self@.in_memory,
    {
    }

    /// A reader at the start of `slice`.
    pub fn new(slice: &'a [u8]) -> (r: Self)
        ensures
            r.wf(),
            r@ == (Seen { input: slice@, offset: 0, in_memory: true }),
    {
        let len: usize = slice.len();
        SliceRead { slice, byte_offset: 0 }
    }

    /// Finds the byte string at the offset and consumes it. Gives where its
    /// payload starts and ends.
    fn scan_byte_str(&mut self) -> (r: Result<(usize, usize), Error>)
        requires
            old(self).wf(),
        ensures
            final(self).wf(),
            stepped(old(self)@, final(self)@),
            match r {
                Ok((from, to)) => byte_str_at(final(self)@.input, old(self)@.offset) == Ok::<
                    Span,
                    Failure,
                >(Span { start: from as int, end: to as int }) && final(self)@.offset == to
                    && old(self)@.offset < from <= to,
                Err(e) => e@.offset == final(self)@.offset && byte_str_at(
                    final(self)@.input,
                    old(self)@.offset,
                ) == Err::<Span, Failure>(e@),
            },
    {
        let start: usize = self.byte_offset;
        let len: usize = self.slice.len();
        let mut p: usize = start;
        let mut n: usize = 0;
        let mut overflow: bool = false;
        while p < len && is_digit_byte(self.slice[p])
            invariant
                start <= p <= len,
                len == self.slice@.len(),
                digits_end(self.slice@, start as int) == digits_end(self.slice@, p as int),
                !overflow ==> n == digits_value(self.slice@.subrange(start as int, p as int)),
                overflow ==> digits_value(self.slice@.subrange(start as int, p as int))
                    > usize::MAX,
            decreases len - p,
        {
            let d: usize = (self.slice[p] - ZERO) as usize;
            proof {
                lemma_digits_value_push(self.slice@, start as int, p as int);
            }
            if !overflow {
                if n > (usize::MAX - d) / 10 {
                    overflow = true;
                } else {
                    n = n * 10 + d;
                }
            }
            p += 1;
        }
        if p >= len {
            self.byte_offset = len;
            return Err(Error::new(ErrorKind::EofWhileParsingValue, len));
        }
        if self.slice[p] != COLON {
            self.byte_offset = p + 1;
            return Err(Error::new(ErrorKind::InvalidByteStrLen, p + 1));
        }
        if p == start || overflow {
            self.byte_offset = p + 1;
            return Err(Error::new(ErrorKind::ParseIntError, p + 1));
        }
        let from: usize = p + 1;
        if n > len - from {
            self.byte_offset = len;
            return Err(Error::new(ErrorKind::EofWhileParsingValue, len));
        }
        self.byte_offset = from + n;
        Ok((from, from + n))
    }
}

impl<'a> View for SliceRead<'a> {
    type V = Seen;

    closed spec fn view(&self) -> Seen {
        Seen { input: self.slice@, offset: self.byte_offset as int, in_memory: true }
    }
}

impl<'a> Read<'a> for SliceRead<'a> {
    closed spec fn wf(&self) -> bool {
        self.byte_offset <= self.slice@.len() <= usize::MAX
    }

    proof fn lemma_bounds(&self) {
    }

    fn next(&mut self) -> (r: Option<Result<u8, Error>>) {
        if self.byte_offset < self.slice.len() {
            let b: u8 = self.slice[self.byte_offset];
            self.byte_offset += 1;
            Some(Ok(b))
        } else {
            None
        }
    }

    fn peek(&mut self) -> (r: Option<Result<u8, Error>>) {
        if self.byte_offset < self.slice.len() {
            Some(Ok(self.slice[self.byte_offset]))
        } else {
            None
        }
    }

    fn byte_offset(&self) -> (r: usize) {
        self.byte_offset
    }

    fn parse_integer<'b>(&'b mut self, buf: &'b mut Vec<u8>) -> (r: Result<Ref<'a, 'b, [u8]>,
        Error>)
        ensures
            final(buf)@ == old(buf)@,
    {
        let start: usize = self.byte_offset;
        let len: usize = self.slice.len();
        let mut p: usize = start;
        if p < len && self.slice[p] == MINUS {
            p += 1;
        }
        let first: usize = p;
        if p >= len {
            self.byte_offset = len;
            return Err(Error::new(ErrorKind::EofWhileParsingValue, len));
        }
        if !is_digit_byte(self.slice[p]) {
            self.byte_offset = p;
            return Err(Error::new(ErrorKind::InvalidInteger, p));
        }
        while p < len && is_digit_byte(self.slice[p])
            invariant
                first <= p <= len,
                len == self.slice@.len(),
                digits_end(self.slice@, first as int) == digits_end(self.slice@, p as int),
                forall|i: int| first <= i < p ==> is_digit(#[trigger] self.slice@[i]),
            decreases len - p,
        {
            p += 1;
        }
        if p >= len {
            self.byte_offset = len;
            return Err(Error::new(ErrorKind::EofWhileParsingValue, len));
        }
        if self.slice[p] != END {
            self.byte_offset = p;
            return Err(Error::new(ErrorKind::InvalidInteger, p));
        }
        self.byte_offset = p + 1;
        proof {
            let s = self.slice@;
            let text = s.subrange(start as int, p as int);
            assert(text[0] == s[start as int]);
            assert forall|i: int| 1 <= i < text.len() implies is_digit(#[trigger] text[i]) by {
                assert(text[i] == s[start + i]);
            }
            assert forall|t: Seq<u8>| #[trigger] extends(t, s) implies integer_at(t, start as int)
                == Ok::<int, Failure>(p as int) by {
                lemma_integer_stable(s, t, start as int);
            }
        }
        Ok(Ref::Source(slice_subrange(self.slice, start, p)))
    }

    fn parse_byte_str<'b>(&'b mut self, buf: &'b mut Vec<u8>) -> (r: Result<
        Ref<'a, 'b, [u8]>,
        Error,
    >)
        ensures
            final(buf)@ == old(buf)@,
    {
        let ghost start: int = self.byte_offset as int;
        match self.scan_byte_str() {
            Err(e) => Err(e),
            Ok((from, to)) => {
                proof {
                    let s = self.slice@;
                    assert forall|t: Seq<u8>| #[trigger] extends(t, s) implies byte_str_at(t, start)
                        == Ok::<Span, Failure>(Span { start: from as int, end: to as int }) by {
                        lemma_byte_str_stable(s, t, start);
                    }
                }
                Ok(Ref::Source(slice_subrange(self.slice, from, to)))
            },
        }
    }

    fn parse_raw_integer<'b>(&'b mut self, buf: &'b mut Vec<u8>) -> (r: Result<
        Ref<'a, 'b, [u8]>,
        Error,
    >)
        ensures
            final(buf)@ == old(buf)@,
    {
        let start: usize = self.byte_offset;
        let len: usize = self.slice.len();
        if start >= len {
            return Err(Error::new(ErrorKind::EofWhileParsingValue, len));
        }
        self.byte_offset = start + 1;
        match self.parse_integer(buf) {
            Ok(_) => {},
            Err(e) => {
                return Err(e);
            },
        }
        let end: usize = self.byte_offset;
        proof {
            let s = self.slice@;
            assert(extends(s, s));
        }
        Ok(Ref::Source(slice_subrange(self.slice, start, end)))
    }

    fn parse_raw_byte_str<'b>(&mut self, buf: &'b mut Vec<u8>) -> (r: Result<
        Ref<'a, 'b, [u8]>,
        Error,
    >)
        ensures
            final(buf)@ == old(buf)@,
    {
        let start: usize = self.byte_offset;
        match self.scan_byte_str() {
            Err(e) => Err(e),
            Ok((from, to)) => {
                proof {
                    let s = self.slice@;
                    assert forall|t: Seq<u8>| #[trigger] extends(t, s) implies raw_byte_str_at(
                        t,
                        start as int,
                    ) == Ok::<int, Failure>(to as int) by {
                        lemma_byte_str_stable(s, t, start as int);
                    }
                }
                Ok(Ref::Source(slice_subrange(self.slice, start, to)))
            },
        }
    }

    fn parse_raw_list<'b>(&'b mut self, buf: &'b mut Vec<u8>) -> (r: Result<
        Ref<'a, 'b, [u8]>,
        Error,
    >)
        ensures
            final(buf)@ == old(buf)@,
        decreases usize::MAX - old(self)@.offset,
    {
        let start: usize = self.byte_offset;
        let len: usize = self.slice.len();
        if start >= len {
            return Err(Error::new(ErrorKind::EofWhileParsingValue, len));
        }
        self.byte_offset = start + 1;
        loop
            invariant
                self.slice == old(self).slice,
                buf@ == old(buf)@,
                len == self.slice@.len(),
                start < self.byte_offset <= len,
                start == old(self)@.offset,
                forall|t: Seq<u8>| #[trigger]
                    extends(t, self.slice@) ==> raw_list_tail(t, start + 1) == raw_list_tail(
                        t,
                        self.byte_offset as int,
                    ),
            decreases len - self.byte_offset,
        {
            let p: usize = self.byte_offset;
            let ghost s = self.slice@;
            assert(extends(s, s));
            if p >= len {
                return Err(Error::new(ErrorKind::InvalidList, len));
            }
            let b: u8 = self.slice[p];
            if b == END {
                self.byte_offset = p + 1;
                proof {
                    assert forall|t: Seq<u8>| #[trigger] extends(t, s) implies raw_list_at(
                        t,
                        start as int,
                    ) == Ok::<int, Failure>(p + 1) by {
                        assert(t[p as int] == s[p as int]);
                    }
                }
                return Ok(Ref::Source(slice_subrange(self.slice, start, p + 1)));
            }
            let item = if is_digit_byte(b) {
                self.parse_raw_byte_str(buf)
            } else if b == INT {
                self.parse_raw_integer(buf)
            } else if b == LIST {
                self.parse_raw_list(buf)
            } else if b == DICT {
                self.parse_raw_dict(buf)
            } else {
                proof {
                    assert(raw_item_at(s, p as int) is None);
                }
                return Err(Error::new(ErrorKind::InvalidList, p));
            };
            match item {
                Err(e) => {
                    proof {
                        assert(raw_item_at(s, p as int) == Some(Err::<int, Failure>(e@)));
                    }
                    return Err(e);
                },
                Ok(_) => {},
            }
            proof {
                let q: int = self.byte_offset as int;
                assert forall|t: Seq<u8>| #[trigger] extends(t, s) implies raw_list_tail(
                    t,
                    start + 1,
                ) == raw_list_tail(t, q) by {
                    assert(t[p as int] == s[p as int]);
                    assert(raw_item_at(t, p as int) == Some(Ok::<int, Failure>(q)));
                }
            }
        }
    }

    fn parse_raw_dict<'b>(&'b mut self, buf: &'b mut Vec<u8>) -> (r: Result<
        Ref<'a, 'b, [u8]>,
        Error,
    >)
        ensures
            final(buf)@ == old(buf)@,
        decreases usize::MAX - old(self)@.offset,
    {
        let start: usize = self.byte_offset;
        let len: usize = self.slice.len();
        if start >= len {
            return Err(Error::new(ErrorKind::EofWhileParsingValue, len));
        }
        self.byte_offset = start + 1;
        loop
            invariant
                self.slice == old(self).slice,
                buf@ == old(buf)@,
                len == self.slice@.len(),
                start < self.byte_offset <= len,
                start == old(self)@.offset,
                forall|t: Seq<u8>| #[trigger]
                    extends(t, self.slice@) ==> raw_dict_tail(t, start + 1) == raw_dict_tail(
                        t,
                        self.byte_offset as int,
                    ),
            decreases len - self.byte_offset,
        {
            let p: usize = self.byte_offset;
            let ghost s = self.slice@;
            assert(extends(s, s));
            if p >= len {
                return Err(Error::new(ErrorKind::EofWhileParsingValue, len));
            }
            let b: u8 = self.slice[p];
            if b == END {
                self.byte_offset = p + 1;
                proof {
                    assert forall|t: Seq<u8>| #[trigger] extends(t, s) implies raw_dict_at(
                        t,
                        start as int,
                    ) == Ok::<int, Failure>(p + 1) by {
                        assert(t[p as int] == s[p as int]);
                    }
                }
                return Ok(Ref::Source(slice_subrange(self.slice, start, p + 1)));
            }
            if !is_digit_byte(b) {
                return Err(Error::new(ErrorKind::KeyMustBeAByteStr, p));
            }
            match self.parse_raw_byte_str(buf) {
                Err(e) => {
                    return Err(e);
                },
                Ok(_) => {},
            }
            let k: usize = self.byte_offset;
            if k >= len {
                return Err(Error::new(ErrorKind::EofWhileParsingValue, len));
            }
            let c: u8 = self.slice[k];
            let item = if is_digit_byte(c) {
                self.parse_raw_byte_str(buf)
            } else if c == INT {
                self.parse_raw_integer(buf)
            } else if c == LIST {
                self.parse_raw_list(buf)
            } else if c == DICT {
                self.parse_raw_dict(buf)
            } else {
                proof {
                    assert(raw_byte_str_at(s, p as int) == Ok::<int, Failure>(k as int));
                    assert(raw_item_at(s, k as int) is None);
                }
                return Err(Error::new(ErrorKind::InvalidDict, k));
            };
            match item {
                Err(e) => {
                    proof {
                        assert(raw_byte_str_at(s, p as int) == Ok::<int, Failure>(k as int));
                        assert(raw_item_at(s, k as int) == Some(Err::<int, Failure>(e@)));
                    }
                    return Err(e);
                },
                Ok(_) => {},
            }
            proof {
                let q: int = self.byte_offset as int;
                assert forall|t: Seq<u8>| #[trigger] extends(t, s) implies raw_dict_tail(
                    t,
                    start + 1,
                ) == raw_dict_tail(t, q) by {
                    assert(t[p as int] == s[p as int]);
                    assert(t[k as int] == s[k as int]);
                    assert(raw_byte_str_at(t, p as int) == Ok::<int, Failure>(k as int));
                    assert(raw_item_at(t, k as int) == Some(Ok::<int, Failure>(q)));
                }
            }
        }
    }
}

/// The next byte of a reader, consumed, where the end of the input is a
/// failure.
pub fn next_or_eof<'a, R: Read<'a>>(read: &mut R) -> (r: Result<u8, Error>)
    requires
        old(read).wf(),
    ensures
        final(read).wf(),
            stepped(old(read)@, final(read)@),
        match r {
            Ok(b) => final(read)@.offset == old(read)@.offset + 1
                && final(read)@.input[old(read)@.offset] == b,
            Err(e) => final(read)@.offset == old(read)@.offset && ((!old(read)@.in_memory
                && e@.kind is Io && e@.offset == final(read)@.offset) || (final(read)@.offset
                    == final(read)@.input.len() && e@ == (
                Failure { kind: ErrorKind::EofWhileParsingValue, offset: final(read)@.offset }
            ))),
        },
        old(read)@.offset < old(read)@.input.len() ==> r is Ok && final(read)@.input
            == old(read)@.input,
{
    let got = read.next();
    match got {
        Some(Ok(b)) => Ok(b),
        Some(Err(e)) => Err(e),
        None => Err(Error::new(ErrorKind::EofWhileParsingValue, read.byte_offset())),
    }
}

/// The next byte of a reader, not consumed, where the end of the input is a
/// failure.
pub fn peek_or_eof<'a, R: Read<'a>>(read: &mut R) -> (r: Result<u8, Error>)
    requires
        old(read).wf(),
    ensures
        final(read).wf(),
            stepped(old(read)@, final(read)@),
        final(read)@.offset == old(read)@.offset,
        match r {
            Ok(b) => final(read)@.offset < final(read)@.input.len()
                && final(read)@.input[final(read)@.offset] == b,
            Err(e) => (!old(read)@.in_memory && e@.kind is Io && e@.offset == final(read)@.offset)
                || (final(read)@.offset == final(read)@.input.len() && e@ == (
                Failure { kind: ErrorKind::EofWhileParsingValue, offset: final(read)@.offset }
            )),
        },
{
    let got = read.peek();
    match got {
        Some(Ok(b)) => Ok(b),
        Some(Err(e)) => Err(e),
        None => Err(Error::new(ErrorKind::EofWhileParsingValue, read.byte_offset())),
    }
}

} // verus!
