//! A reader over a stream of bytes.

use crate::error::{Error, ErrorKind, Failure};
use crate::grammar::{
    byte_str_at, digits_end, digits_value, extends, failed, integer_at, is_digit,
    lemma_byte_str_stable, lemma_copy_grow, lemma_copy_join, lemma_copy_push,
    lemma_digits_end_bounds, lemma_digits_end_is, lemma_digits_end_stable, lemma_digits_value_push,
    lemma_extends_subrange, lemma_extends_transitive, lemma_integer_stable, raw_byte_str_at,
    raw_dict_at, raw_dict_tail, raw_item_at, raw_list_at, raw_list_tail, Span, COLON, DICT, END,
    INT, LIST, MINUS, ZERO,
};
use crate::read::{is_digit_byte, stepped, Read, Ref, Seen};
use vstd::prelude::*;
use vstd::slice::slice_subrange;

verus! {

/// A sequential source of bytes: a file, a socket, anything that hands out
/// one byte at a time and may fail doing so.
pub trait ByteStream {
    /// The next byte of the stream. `None` is its end.
    fn next_byte(&mut self) -> Option<Result<u8, std::io::Error>>;
}

/// A reader over a stream. It looks one byte ahead and no further, and what
/// it gives is copied into the scratch buffer, since a stream cannot be read
/// twice.
///
/// The offset is a `usize`: a stream is read as far as the offset can count,
/// and ends there.
pub struct IoRead<R> {
    iter: R,
    peeked_byte: Option<u8>,
    byte_offset: usize,
    seen: Ghost<Seq<u8>>,
}

impl<R> View for IoRead<R> {
    type V = Seen;

    closed spec fn view(&self) -> Seen {
        Seen { input: self.seen@, offset: self.byte_offset as int, in_memory: false }
    }
}

impl<R: ByteStream> IoRead<R> {
    /// The stream that the reader reads from, as it stands.
    pub closed spec fn stream(&self) -> R {
        self.iter
    }

    /// A reader at the start of the stream.
    pub fn new(reader: R) -> (r: Self)
        ensures
            r.wf(),
            r@ == (Seen { input: Seq::empty(), offset: 0, in_memory: false }),
            r.stream() == reader,
    {
        IoRead {
            iter: reader,
            peeked_byte: None,
            byte_offset: 0,
            seen: Ghost(Seq::empty()),
        }
    }

    /// What the reader makes of what its stream handed out, `got`, when it
    /// asked the stream for the byte after all that it had seen. A byte
    /// joins what was seen, and is consumed or, where `keep` is set, kept as
    /// the byte that was looked at. A failure of the stream becomes the
    /// failure of the read, at the reader's offset. The end of the stream is
    /// the end of the input.
    pub fn took(&mut self, got: Option<Result<u8, std::io::Error>>, keep: bool) -> (r: Option<
        Result<u8, Error>,
    >)
        requires
            old(self).wf(),
            old(self)@.offset == old(self)@.input.len(),
            old(self)@.offset < usize::MAX,
        ensures
            final(self).wf(),
            final(self).stream() == old(self).stream(),
            match got {
                Some(Ok(b)) => r == Some(Ok::<u8, Error>(b)) && final(self)@.input
                    == old(self)@.input.push(b) && final(self)@.offset == old(self)@.offset
                    + (if keep {
                    0int
                } else {
                    1int
                }),
                Some(Err(x)) => r matches Some(Err(e)) && e@.kind == ErrorKind::Io(x) && e@.offset
                    == old(self)@.offset && final(self)@ == old(self)@,
                None => r is None && final(self)@ == old(self)@,
            },
    {
        match got {
            Some(Ok(b)) => {
                if keep {
                    self.peeked_byte = Some(b);
                } else {
                    self.byte_offset += 1;
                }
                self.seen = Ghost(self.seen@.push(b));
                Some(Ok(b))
            },
            Some(Err(err)) => Some(Err(Error::new(ErrorKind::Io(err), self.byte_offset))),
            None => None,
        }
    }

    /// The next byte, consumed, where the end of the input is a failure.
    fn next_or_eof(&mut self) -> (r: Result<u8, Error>)
        requires
            old(self).wf(),
        ensures
            final(self).wf(),
            stepped(old(self)@, final(self)@),
            match r {
                Ok(b) => final(self)@.offset == old(self)@.offset + 1
                    && final(self)@.input[old(self)@.offset] == b,
                Err(e) => final(self)@.offset == old(self)@.offset && ((e@.kind is Io && e@.offset
                    == final(self)@.offset) || (final(self)@.offset == final(self)@.input.len()
                    && e@ == (
                    Failure {
                        kind: ErrorKind::EofWhileParsingValue,
                        offset: final(self)@.offset,
                    }
                ))),
            },
            old(self)@.offset < old(self)@.input.len() ==> r is Ok && final(self)@.input
                == old(self)@.input,
    {
        let got = self.next();
        match got {
            Some(Ok(b)) => Ok(b),
            Some(Err(e)) => Err(e),
            None => Err(Error::new(ErrorKind::EofWhileParsingValue, self.byte_offset)),
        }
    }

    /// The next byte, not consumed, where the end of the input is a failure.
    fn peek_or_eof(&mut self) -> (r: Result<u8, Error>)
        requires
            old(self).wf(),
        ensures
            final(self).wf(),
            stepped(old(self)@, final(self)@),
            final(self)@.offset == old(self)@.offset,
            match r {
                Ok(b) => final(self)@.offset < final(self)@.input.len()
                    && final(self)@.input[final(self)@.offset] == b,
                Err(e) => (e@.kind is Io && e@.offset == final(self)@.offset)
                    || (final(self)@.offset
                    == final(self)@.input.len() && e@
                    == (
                    Failure {
                        kind: ErrorKind::EofWhileParsingValue,
                        offset: final(self)@.offset,
                    }
                )),
            },
    {
        let got = self.peek();
        match got {
            Some(Ok(b)) => Ok(b),
            Some(Err(e)) => Err(e),
            None => Err(Error::new(ErrorKind::EofWhileParsingValue, self.byte_offset)),
        }
    }

    /// Consumes the next byte and appends it to `buf`.
    fn take(&mut self, buf: &mut Vec<u8>) -> (r: Result<u8, Error>)
        requires
            old(self).wf(),
        ensures
            final(self).wf(),
            stepped(old(self)@, final(self)@),
            match r {
                Ok(b) => final(self)@.offset == old(self)@.offset + 1
                    && final(self)@.input[old(self)@.offset] == b && final(buf)@
                    == old(buf)@.push(b),
                Err(e) => final(self)@.offset == old(self)@.offset && ((e@.kind is Io && e@.offset
                    == final(self)@.offset) || (final(self)@.offset == final(self)@.input.len()
                    && e@ == (
                    Failure {
                        kind: ErrorKind::EofWhileParsingValue,
                        offset: final(self)@.offset,
                    }
                ))),
            },
            old(self)@.offset < old(self)@.input.len() ==> r is Ok && final(self)@.input
                == old(self)@.input,
    {
        let b: u8 = self.next_or_eof()?;
        buf.push(b);
        Ok(b)
    }

    /// Consumes the length of a byte string and the colon after it, and
    /// appends them to `buf`. Gives the length.
    fn scan_len(&mut self, buf: &mut Vec<u8>) -> (r: Result<usize, Error>)
        requires
            old(self).wf(),
        ensures
            final(self).wf(),
            stepped(old(self)@, final(self)@),
            match r {
                Ok(n) => {
                    &&& old(self)@.offset < final(self)@.offset - 1
                    &&& digits_end(final(self)@.input, old(self)@.offset) == final(self)@.offset
                        - 1
                    &&& final(self)@.input[final(self)@.offset - 1] == COLON
                    &&& n == digits_value(
                        final(self)@.input.subrange(old(self)@.offset, final(self)@.offset - 1),
                    )
                    &&& final(buf)@ == old(buf)@ + final(self)@.input.subrange(
                        old(self)@.offset,
                        final(self)@.offset,
                    )
                },
                Err(e) => failed(true, final(self)@.offset, e@, byte_str_at(final(self)@.input,
                    old(self)@.offset)),
            },
    {
        let ghost start: int = self@.offset;
        let mut n: usize = 0;
        let mut any: bool = false;
        let mut overflow: bool = false;
        loop
            invariant
                self.wf(),
                stepped(old(self)@, self@),
                start == old(self)@.offset,
                0 <= start <= self@.offset <= self@.input.len(),
                any == (start < self@.offset),
                forall|i: int| start <= i < self@.offset ==> is_digit(#[trigger] self@.input[i]),
                buf@ == old(buf)@ + self@.input.subrange(start, self@.offset),
                !overflow ==> n == digits_value(self@.input.subrange(start, self@.offset)),
                overflow ==> digits_value(self@.input.subrange(start, self@.offset)) > usize::MAX,
            decreases usize::MAX - self@.offset,
        {
            let ghost in0 = self@.input;
            let ghost off: int = self@.offset;
            let ghost buf0 = buf@;
            let b: u8 = match self.take(buf) {
                Ok(b) => b,
                Err(e) => {
                    proof {
                        if !(e@.kind is Io && e@.offset == self@.offset) {
                            assert forall|i: int| start <= i < off implies is_digit(
                                #[trigger] self@.input[i],
                            ) by {
                                assert(self@.input[i] == in0[i]);
                            }
                            lemma_digits_end_is(self@.input, start, off);
                        }
                    }
                    return Err(e);
                },
            };
            proof {
                self.lemma_bounds();
                lemma_extends_transitive(self@.input, in0, old(self)@.input);
                lemma_extends_subrange(self@.input, in0, start, off);
                lemma_copy_grow(old(buf)@, buf0, in0, self@.input, start, off);
                lemma_copy_push(old(buf)@, buf0, self@.input, start, off);
                lemma_digits_value_push(self@.input, start, off);
                assert forall|i: int| start <= i < off implies is_digit(
                    #[trigger] self@.input[i],
                ) by {
                    assert(self@.input[i] == in0[i]);
                }
            }
            if b == COLON {
                proof {
                    lemma_digits_end_is(self@.input, start, off);
                }
                if overflow || !any {
                    return Err(Error::new(ErrorKind::ParseIntError, self.byte_offset));
                }
                return Ok(n);
            } else if is_digit_byte(b) {
                let d: usize = (b - ZERO) as usize;
                if !overflow {
                    if n > (usize::MAX - d) / 10 {
                        overflow = true;
                    } else {
                        n = n * 10 + d;
                    }
                }
                any = true;
            } else {
                proof {
                    lemma_digits_end_is(self@.input, start, off);
                }
                return Err(Error::new(ErrorKind::InvalidByteStrLen, self.byte_offset));
            }
        }
    }

    /// Consumes `n` bytes and appends them to `buf`.
    fn read_payload(&mut self, buf: &mut Vec<u8>, n: usize) -> (r: Result<(), Error>)
        requires
            old(self).wf(),
        ensures
            final(self).wf(),
            stepped(old(self)@, final(self)@),
            match r {
                Ok(()) => final(self)@.offset == old(self)@.offset + n && final(buf)@ == old(buf)@
                    + final(self)@.input.subrange(old(self)@.offset, final(self)@.offset),
                Err(e) => e@.offset == final(self)@.offset && (e@.kind is Io
                    || (final(self)@.input.len() < old(self)@.offset + n && e@ == (
                    Failure {
                        kind: ErrorKind::EofWhileParsingValue,
                        offset: final(self)@.input.len() as int,
                    }
                ))),
            },
    {
        let ghost start: int = self@.offset;
        let mut i: usize = 0;
        proof {
            self.lemma_bounds();
            assert(buf@ =~= old(buf)@ + self@.input.subrange(start, start));
        }
        while i < n
            invariant
                self.wf(),
                stepped(old(self)@, self@),
                start == old(self)@.offset,
                0 <= start,
                i <= n,
                self@.offset == start + i,
                self@.offset <= self@.input.len(),
                buf@ == old(buf)@ + self@.input.subrange(start, self@.offset),
            decreases n - i,
        {
            let ghost in0 = self@.input;
            let ghost off: int = self@.offset;
            let ghost buf0 = buf@;
            match self.take(buf) {
                Ok(_) => {},
                Err(e) => {
                    return Err(e);
                },
            }
            proof {
                self.lemma_bounds();
                lemma_extends_transitive(self@.input, in0, old(self)@.input);
                lemma_copy_grow(old(buf)@, buf0, in0, self@.input, start, off);
                lemma_copy_push(old(buf)@, buf0, self@.input, start, off);
            }
            i += 1;
        }
        Ok(())
    }
}

impl<'a, R: ByteStream> Read<'a> for IoRead<R> {
    closed spec fn wf(&self) -> bool {
        &&& self.seen@.len() <= usize::MAX
        &&& self.seen@.len() == self.byte_offset + (if self.peeked_byte is Some {
            1int
        } else {
            0int
        })
        &&& self.peeked_byte matches Some(b) ==> self.seen@.last() == b
    }

    proof fn lemma_bounds(&self) {
    }

    fn next(&mut self) -> (r: Option<Result<u8, Error>>) {
        match self.peeked_byte {
            Some(b) => {
                self.peeked_byte = None;
                self.byte_offset += 1;
                Some(Ok(b))
            },
            None => {
                if self.byte_offset == usize::MAX {
                    return None;
                }
                let got = self.iter.next_byte();
                self.took(got, false)
            },
        }
    }

    fn peek(&mut self) -> (r: Option<Result<u8, Error>>) {
        match self.peeked_byte {
            Some(b) => Some(Ok(b)),
            None => {
                if self.byte_offset == usize::MAX {
                    return None;
                }
                let got = self.iter.next_byte();
                self.took(got, true)
            },
        }
    }

    fn byte_offset(&self) -> (r: usize) {
        self.byte_offset
    }

    fn parse_integer<'b>(&'b mut self, buf: &'b mut Vec<u8>) -> (r: Result<Ref<'a, 'b, [u8]>,
        Error>)
        ensures
            r is Ok ==> r->Ok_0 is Buffer && final(buf)@ == old(buf)@ + r->Ok_0.bytes(),
    {
        let ghost start: int = self@.offset;
        let ghost buf0 = buf@;
        let start_idx: usize = buf.len();
        proof {
            self.lemma_bounds();
            assert(buf@ =~= buf0 + self@.input.subrange(start, start));
        }
        let b: u8 = match self.peek_or_eof() {
            Ok(b) => b,
            Err(e) => {
                return Err(e);
            },
        };
        if b == MINUS {
            let ghost in0 = self@.input;
            match self.take(buf) {
                Ok(_) => {},
                Err(e) => {
                    return Err(e);
                },
            }
            proof {
                lemma_copy_push(buf0, buf0 + in0.subrange(start, start), in0, start, start);
            }
        }
        let ghost first: int = self@.offset;
        let ghost in1 = self@.input;
        let c: u8 = match self.peek_or_eof() {
            Ok(c) => c,
            Err(e) => {
                proof {
                    assert(self@.input[start] == in1[start]);
                }
                return Err(e);
            },
        };
        proof {
            lemma_copy_grow(buf0, buf@, in1, self@.input, start, first);
            assert(self@.input[start] == in1[start]);
        }
        if !is_digit_byte(c) {
            return Err(Error::new(ErrorKind::InvalidInteger, self.byte_offset));
        }
        loop
            invariant
                self.wf(),
                stepped(old(self)@, self@),
                start == old(self)@.offset,
                buf0 == old(buf)@,
                start_idx == buf0.len(),
                0 <= start <= first <= self@.offset <= self@.input.len(),
                first < self@.input.len(),
                is_digit(self@.input[first]),
                first == (if self@.input[start] == MINUS {
                    start + 1
                } else {
                    start
                }),
                forall|i: int| first <= i < self@.offset ==> is_digit(#[trigger] self@.input[i]),
                buf@ == buf0 + self@.input.subrange(start, self@.offset),
            decreases usize::MAX - self@.offset,
        {
            let ghost in2 = self@.input;
            let ghost off: int = self@.offset;
            let ghost buf2 = buf@;
            let c: u8 = match self.peek_or_eof() {
                Ok(c) => c,
                Err(e) => {
                    proof {
                        if !(e@.kind is Io && e@.offset == self@.offset) {
                            assert(self@.input[start] == in2[start]);
                            assert(self@.input[first] == in2[first]);
                            assert forall|i: int| first <= i < off implies is_digit(
                                #[trigger] self@.input[i],
                            ) by {
                                assert(self@.input[i] == in2[i]);
                            }
                            lemma_digits_end_is(self@.input, first, off);
                        }
                    }
                    return Err(e);
                },
            };
            let ghost in3 = self@.input;
            proof {
                self.lemma_bounds();
                lemma_extends_transitive(in3, in2, old(self)@.input);
                lemma_copy_grow(buf0, buf2, in2, in3, start, off);
                assert(in3[start] == in2[start]);
                assert(in3[first] == in2[first]);
                assert forall|i: int| first <= i < off implies is_digit(#[trigger] in3[i]) by {
                    assert(in3[i] == in2[i]);
                }
            }
            if is_digit_byte(c) {
                match self.take(buf) {
                    Ok(_) => {},
                    Err(e) => {
                        return Err(e);
                    },
                }
                proof {
                    lemma_copy_push(buf0, buf2, in3, start, off);
                }
            } else if c == END {
                match self.next_or_eof() {
                    Ok(_) => {},
                    Err(e) => {
                        return Err(e);
                    },
                }
                proof {
                    lemma_digits_end_is(in3, first, off);
                    assert(integer_at(in3, start) == Ok::<int, Failure>(off));
                    assert forall|t: Seq<u8>| #[trigger] extends(t, in3) implies integer_at(
                        t,
                        start,
                    ) == Ok::<int, Failure>(off) by {
                        lemma_integer_stable(in3, t, start);
                    }
                    assert(buf@.subrange(start_idx as int, buf@.len() as int) =~= in3.subrange(
                        start,
                        off,
                    ));
                }
                return Ok(Ref::Buffer(slice_subrange(buf.as_slice(), start_idx, buf.len())));
            } else {
                proof {
                    lemma_digits_end_is(in3, first, off);
                }
                return Err(Error::new(ErrorKind::InvalidInteger, self.byte_offset));
            }
        }
    }

    fn parse_byte_str<'b>(&'b mut self, buf: &'b mut Vec<u8>) -> (r: Result<
        Ref<'a, 'b, [u8]>,
        Error,
    >)
        ensures
            r is Ok ==> r->Ok_0 is Buffer && final(buf)@ == r->Ok_0.bytes(),
    {
        let ghost start: int = self@.offset;
        let n: usize = match self.scan_len(buf) {
            Ok(n) => n,
            Err(e) => {
                return Err(e);
            },
        };
        let ghost in1 = self@.input;
        let ghost from: int = self@.offset;
        buf.clear();
        match self.read_payload(buf, n) {
            Ok(()) => {},
            Err(e) => {
                proof {
                    self.lemma_bounds();
                    lemma_digits_end_stable(in1, self@.input, start);
                    lemma_extends_subrange(self@.input, in1, start, from - 1);
                    assert(self@.input[from - 1] == in1[from - 1]);
                }
                return Err(e);
            },
        }
        proof {
            let in2 = self@.input;
            self.lemma_bounds();
            lemma_digits_end_stable(in1, in2, start);
            lemma_extends_subrange(in2, in1, start, from - 1);
            assert(in2[from - 1] == in1[from - 1]);
            assert(byte_str_at(in2, start) == Ok::<Span, Failure>(
                Span { start: from, end: from + n },
            ));
            assert forall|t: Seq<u8>| #[trigger] extends(t, in2) implies byte_str_at(t, start)
                == Ok::<Span, Failure>(Span { start: from, end: from + n }) by {
                lemma_byte_str_stable(in2, t, start);
            }
            assert(buf@ =~= in2.subrange(from, from + n));
        }
        Ok(Ref::Buffer(buf.as_slice()))
    }

    fn parse_raw_integer<'b>(&'b mut self, buf: &'b mut Vec<u8>) -> (r: Result<
        Ref<'a, 'b, [u8]>,
        Error,
    >)
        ensures
            r is Ok ==> r->Ok_0 is Buffer && final(buf)@ == old(buf)@
                + final(self)@.input.subrange(old(self)@.offset, final(self)@.offset),
    {
        let ghost start: int = self@.offset;
        let ghost buf0 = buf@;
        let start_idx: usize = buf.len();
        proof {
            self.lemma_bounds();
        }
        match self.take(buf) {
            Ok(_) => {},
            Err(e) => {
                return Err(e);
            },
        }
        let ghost in1 = self@.input;
        let ghost buf1 = buf@;
        match self.parse_integer(buf) {
            Ok(_) => {},
            Err(e) => {
                return Err(e);
            },
        }
        let ghost buf2 = buf@;
        buf.push(END);
        proof {
            let in2 = self@.input;
            let end: int = self@.offset;
            self.lemma_bounds();
            assert(extends(in2, in2));
            assert(in2[start] == in1[start]);
            assert(integer_at(in2, start + 1) == Ok::<int, Failure>(end - 1));
            lemma_digits_end_bounds(
                in2,
                if in2[start + 1] == MINUS {
                    start + 2
                } else {
                    start + 1
                },
            );
            assert(in2[end - 1] == END);
            assert(buf@ =~= buf0 + in2.subrange(start, end));
            assert(buf@.subrange(start_idx as int, buf@.len() as int) =~= in2.subrange(start, end));
        }
        Ok(Ref::Buffer(slice_subrange(buf.as_slice(), start_idx, buf.len())))
    }

    fn parse_raw_byte_str<'b>(&mut self, buf: &'b mut Vec<u8>) -> (r: Result<
        Ref<'a, 'b, [u8]>,
        Error,
    >)
        ensures
            r is Ok ==> r->Ok_0 is Buffer && final(buf)@ == old(buf)@
                + final(self)@.input.subrange(old(self)@.offset, final(self)@.offset),
    {
        let ghost start: int = self@.offset;
        let ghost buf0 = buf@;
        let start_idx: usize = buf.len();
        let n: usize = match self.scan_len(buf) {
            Ok(n) => n,
            Err(e) => {
                return Err(e);
            },
        };
        let ghost in1 = self@.input;
        let ghost from: int = self@.offset;
        let ghost buf1 = buf@;
        match self.read_payload(buf, n) {
            Ok(()) => {},
            Err(e) => {
                proof {
                    self.lemma_bounds();
                    lemma_digits_end_stable(in1, self@.input, start);
                    lemma_extends_subrange(self@.input, in1, start, from - 1);
                    assert(self@.input[from - 1] == in1[from - 1]);
                }
                return Err(e);
            },
        }
        proof {
            let in2 = self@.input;
            self.lemma_bounds();
            lemma_digits_end_stable(in1, in2, start);
            lemma_extends_subrange(in2, in1, start, from - 1);
            assert(in2[from - 1] == in1[from - 1]);
            assert(byte_str_at(in2, start) == Ok::<Span, Failure>(
                Span { start: from, end: from + n },
            ));
            assert forall|t: Seq<u8>| #[trigger] extends(t, in2) implies raw_byte_str_at(t, start)
                == Ok::<int, Failure>(from + n) by {
                lemma_byte_str_stable(in2, t, start);
            }
            lemma_copy_grow(buf0, buf1, in1, in2, start, from);
            lemma_copy_join(buf0, buf1, buf@, in2, start, from, from + n);
            assert(buf@.subrange(start_idx as int, buf@.len() as int) =~= in2.subrange(
                start,
                from + n,
            ));
        }
        Ok(Ref::Buffer(slice_subrange(buf.as_slice(), start_idx, buf.len())))
    }

    fn parse_raw_list<'b>(&'b mut self, buf: &'b mut Vec<u8>) -> (r: Result<
        Ref<'a, 'b, [u8]>,
        Error,
    >)
        ensures
            r is Ok ==> r->Ok_0 is Buffer && final(buf)@ == old(buf)@
                + final(self)@.input.subrange(old(self)@.offset, final(self)@.offset),
        decreases usize::MAX - old(self)@.offset,
    {
        let ghost start: int = self@.offset;
        let ghost buf0 = buf@;
        let start_idx: usize = buf.len();
        let ghost in0 = self@.input;
        proof {
            self.lemma_bounds();
            assert(buf@ =~= buf0 + self@.input.subrange(start, start));
        }
        match self.take(buf) {
            Ok(_) => {},
            Err(e) => {
                return Err(e);
            },
        }
        proof {
            self.lemma_bounds();
            lemma_copy_grow(buf0, buf0
                + in0.subrange(start, start), in0, self@.input, start, start);
            lemma_copy_push(buf0, buf0
                + self@.input.subrange(start, start), self@.input, start, start);
        }
        loop
            invariant
                self.wf(),
                stepped(old(self)@, self@),
                start == old(self)@.offset,
                buf0 == old(buf)@,
                start_idx == buf0.len(),
                0 <= start < self@.offset <= self@.input.len(),
                buf@ == buf0 + self@.input.subrange(start, self@.offset),
                forall|t: Seq<u8>| #[trigger]
                    extends(t, self@.input) ==> raw_list_tail(t, start + 1) == raw_list_tail(
                        t,
                        self@.offset,
                    ),
            decreases usize::MAX - self@.offset,
        {
            let ghost in1 = self@.input;
            let ghost p: int = self@.offset;
            let ghost buf1 = buf@;
            let got = self.peek();
            let ghost in2 = self@.input;
            proof {
                self.lemma_bounds();
                lemma_extends_transitive(in2, in1, old(self)@.input);
                lemma_copy_grow(buf0, buf1, in1, in2, start, p);
                assert(extends(in2, in2));
                assert(extends(in2, in1));
            }
            let c: u8 = match got {
                Some(Ok(c)) => c,
                Some(Err(e)) => {
                    return Err(e);
                },
                None => {
                    return Err(Error::new(ErrorKind::InvalidList, self.byte_offset));
                },
            };
            if c == END {
                match self.take(buf) {
                    Ok(_) => {},
                    Err(e) => {
                        return Err(e);
                    },
                }
                proof {
                    lemma_copy_push(buf0, buf1, in2, start, p);
                    assert forall|t: Seq<u8>| #[trigger] extends(t, in2) implies raw_list_at(
                        t,
                        start,
                    ) == Ok::<int, Failure>(p + 1) by {
                        lemma_extends_transitive(t, in2, in1);
                        assert(t[p] == in2[p]);
                    }
                    assert(buf@.subrange(start_idx as int, buf@.len() as int) =~= in2.subrange(
                        start,
                        p + 1,
                    ));
                }
                return Ok(Ref::Buffer(slice_subrange(buf.as_slice(), start_idx, buf.len())));
            }
            let item = if is_digit_byte(c) {
                self.parse_raw_byte_str(buf)
            } else if c == INT {
                self.parse_raw_integer(buf)
            } else if c == LIST {
                self.parse_raw_list(buf)
            } else if c == DICT {
                self.parse_raw_dict(buf)
            } else {
                proof {
                    assert(raw_item_at(in2, p) is None);
                }
                return Err(Error::new(ErrorKind::InvalidList, self.byte_offset));
            };
            match item {
                Err(e) => {
                    proof {
                        if !(e@.kind is Io && e@.offset == self@.offset) {
                            let in3 = self@.input;
                            lemma_extends_transitive(in3, in2, in1);
                            assert(extends(in3, in3));
                            assert(in3[p] == in2[p]);
                            assert(raw_item_at(in3, p) == Some(Err::<int, Failure>(e@)));
                        }
                    }
                    return Err(e);
                },
                Ok(_) => {},
            }
            proof {
                let in3 = self@.input;
                let q: int = self@.offset;
                self.lemma_bounds();
                lemma_extends_transitive(in3, in2, old(self)@.input);
                lemma_copy_grow(buf0, buf1, in2, in3, start, p);
                lemma_copy_join(buf0, buf1, buf@, in3, start, p, q);
                assert forall|t: Seq<u8>| #[trigger] extends(t, in3) implies raw_list_tail(
                    t,
                    start + 1,
                ) == raw_list_tail(t, q) by {
                    lemma_extends_transitive(t, in3, in2);
                    lemma_extends_transitive(t, in2, in1);
                    assert(t[p] == in2[p]);
                    assert(raw_item_at(t, p) == Some(Ok::<int, Failure>(q)));
                }
            }
        }
    }

    fn parse_raw_dict<'b>(&'b mut self, buf: &'b mut Vec<u8>) -> (r: Result<
        Ref<'a, 'b, [u8]>,
        Error,
    >)
        ensures
            r is Ok ==> r->Ok_0 is Buffer && final(buf)@ == old(buf)@
                + final(self)@.input.subrange(old(self)@.offset, final(self)@.offset),
        decreases usize::MAX - old(self)@.offset,
    {
        let ghost start: int = self@.offset;
        let ghost buf0 = buf@;
        let start_idx: usize = buf.len();
        let ghost in0 = self@.input;
        proof {
            self.lemma_bounds();
            assert(buf@ =~= buf0 + self@.input.subrange(start, start));
        }
        match self.take(buf) {
            Ok(_) => {},
            Err(e) => {
                return Err(e);
            },
        }
        proof {
            self.lemma_bounds();
            lemma_copy_grow(buf0, buf0
                + in0.subrange(start, start), in0, self@.input, start, start);
            lemma_copy_push(buf0, buf0
                + self@.input.subrange(start, start), self@.input, start, start);
        }
        loop
            invariant
                self.wf(),
                stepped(old(self)@, self@),
                start == old(self)@.offset,
                buf0 == old(buf)@,
                start_idx == buf0.len(),
                0 <= start < self@.offset <= self@.input.len(),
                buf@ == buf0 + self@.input.subrange(start, self@.offset),
                forall|t: Seq<u8>| #[trigger]
                    extends(t, self@.input) ==> raw_dict_tail(t, start + 1) == raw_dict_tail(
                        t,
                        self@.offset,
                    ),
            decreases usize::MAX - self@.offset,
        {
            let ghost in1 = self@.input;
            let ghost p: int = self@.offset;
            let ghost buf1 = buf@;
            let c: u8 = match self.peek_or_eof() {
                Ok(c) => c,
                Err(e) => {
                    proof {
                        assert(extends(self@.input, self@.input));
                        assert(extends(self@.input, in1));
                    }
                    return Err(e);
                },
            };
            let ghost in2 = self@.input;
            proof {
                self.lemma_bounds();
                lemma_extends_transitive(in2, in1, old(self)@.input);
                lemma_copy_grow(buf0, buf1, in1, in2, start, p);
                assert(extends(in2, in2));
                assert(extends(in2, in1));
            }
            if c == END {
                match self.take(buf) {
                    Ok(_) => {},
                    Err(e) => {
                        return Err(e);
                    },
                }
                proof {
                    lemma_copy_push(buf0, buf1, in2, start, p);
                    assert forall|t: Seq<u8>| #[trigger] extends(t, in2) implies raw_dict_at(
                        t,
                        start,
                    ) == Ok::<int, Failure>(p + 1) by {
                        lemma_extends_transitive(t, in2, in1);
                        assert(t[p] == in2[p]);
                    }
                    assert(buf@.subrange(start_idx as int, buf@.len() as int) =~= in2.subrange(
                        start,
                        p + 1,
                    ));
                }
                return Ok(Ref::Buffer(slice_subrange(buf.as_slice(), start_idx, buf.len())));
            }
            if !is_digit_byte(c) {
                return Err(Error::new(ErrorKind::KeyMustBeAByteStr, self.byte_offset));
            }
            match self.parse_raw_byte_str(buf) {
                Err(e) => {
                    proof {
                        if !(e@.kind is Io && e@.offset == self@.offset) {
                            let in3 = self@.input;
                            lemma_extends_transitive(in3, in2, in1);
                            assert(extends(in3, in3));
                            assert(in3[p] == in2[p]);
                        }
                    }
                    return Err(e);
                },
                Ok(_) => {},
            }
            let ghost in3 = self@.input;
            let ghost k: int = self@.offset;
            let ghost buf3 = buf@;
            proof {
                self.lemma_bounds();
                lemma_extends_transitive(in3, in2, in1);
                lemma_extends_transitive(in3, in2, old(self)@.input);
                lemma_copy_grow(buf0, buf1, in2, in3, start, p);
                lemma_copy_join(buf0, buf1, buf3, in3, start, p, k);
                assert(extends(in3, in3));
                assert(in3[p] == in2[p]);
            }
            let d: u8 = match self.peek_or_eof() {
                Ok(d) => d,
                Err(e) => {
                    proof {
                        if !(e@.kind is Io && e@.offset == self@.offset) {
                            let in4 = self@.input;
                            lemma_extends_transitive(in4, in3, in1);
                            assert(extends(in4, in4));
                            assert(in4[p] == in3[p]);
                            assert(raw_byte_str_at(in4, p) == Ok::<int, Failure>(k));
                        }
                    }
                    return Err(e);
                },
            };
            let ghost in4 = self@.input;
            proof {
                self.lemma_bounds();
                lemma_extends_transitive(in4, in3, in1);
                lemma_extends_transitive(in4, in3, old(self)@.input);
                lemma_copy_grow(buf0, buf3, in3, in4, start, k);
                assert(extends(in4, in4));
                assert(in4[p] == in3[p]);
                assert(raw_byte_str_at(in4, p) == Ok::<int, Failure>(k));
            }
            let item = if is_digit_byte(d) {
                self.parse_raw_byte_str(buf)
            } else if d == INT {
                self.parse_raw_integer(buf)
            } else if d == LIST {
                self.parse_raw_list(buf)
            } else if d == DICT {
                self.parse_raw_dict(buf)
            } else {
                proof {
                    assert(raw_item_at(in4, k) is None);
                }
                return Err(Error::new(ErrorKind::InvalidDict, self.byte_offset));
            };
            match item {
                Err(e) => {
                    proof {
                        if !(e@.kind is Io && e@.offset == self@.offset) {
                            let in5 = self@.input;
                            lemma_extends_transitive(in5, in4, in3);
                            lemma_extends_transitive(in5, in4, in1);
                            assert(extends(in5, in5));
                            assert(in5[p] == in4[p]);
                            assert(in5[k] == in4[k]);
                            assert(raw_byte_str_at(in5, p) == Ok::<int, Failure>(k));
                            assert(raw_item_at(in5, k) == Some(Err::<int, Failure>(e@)));
                        }
                    }
                    return Err(e);
                },
                Ok(_) => {},
            }
            proof {
                let in5 = self@.input;
                let q: int = self@.offset;
                self.lemma_bounds();
                lemma_extends_transitive(in5, in4, in3);
                lemma_extends_transitive(in5, in4, old(self)@.input);
                lemma_copy_grow(buf0, buf3, in4, in5, start, k);
                lemma_copy_join(buf0, buf3, buf@, in5, start, k, q);
                assert forall|t: Seq<u8>| #[trigger] extends(t, in5) implies raw_dict_tail(
                    t,
                    start + 1,
                ) == raw_dict_tail(t, q) by {
                    lemma_extends_transitive(t, in5, in4);
                    lemma_extends_transitive(t, in5, in3);
                    lemma_extends_transitive(t, in3, in1);
                    assert(t[p] == in4[p]);
                    assert(t[k] == in4[k]);
                    assert(raw_byte_str_at(t, p) == Ok::<int, Failure>(k));
                    assert(raw_item_at(t, k) == Some(Ok::<int, Failure>(q)));
                }
            }
        }
    }
}

} // verus!
