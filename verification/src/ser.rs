//! The encoder: from values to bytes, dictionaries in ascending key order.

use crate::bstring::char_utf8;
use crate::error::{Error, ErrorKind, Failure};
use crate::grammar::{
    encode, encode_bytes, encode_entries, encode_items, encode_number, extends, signed_decimal,
    Tree, COLON, DICT, END, INT, LIST,
};
use crate::order::{bytes_before, bytes_equal, lemma_slot, put, slot_from, sorted};
use crate::value::ser::unsupported;
use crate::value::{lemma_put_sorted, lemma_view_dict, lemma_view_list, trees_of, Number, Value};
use crate::write::Write;
use vstd::prelude::*;
use vstd::slice::slice_to_vec;
use vstd::string::StringSliceAdditionalSpecFns;
use vstd::utf8::encode_scalar;

verus! {

/// Calls `itoa::Buffer::new` and `itoa::Buffer::format`, which print an
/// integer in decimal. Trusted: the bytes are taken to be the decimal digits
/// of the value, with `-` before them where it is negative.
#[verifier::external_body]
fn format_integer(value: i128) -> (r: Vec<u8>)
    ensures
        r@ == signed_decimal(value as int),
{
    itoa::Buffer::new().format(value).as_bytes().to_vec()
}

/// An encoder into a sink.
#[derive(Debug)]
pub struct Serializer<W> {
    writer: W,
}

impl<W: Write> View for Serializer<W> {
    type V = Seq<u8>;

    closed spec fn view(&self) -> Seq<u8> {
        self.writer.written()
    }
}

/// That a value of a type which Bencode cannot express was refused: nothing
/// was written.
pub open spec fn refused(r: Result<(), Error>, before: Seq<u8>, after: Seq<u8>) -> bool {
    &&& r matches Err(e)
    &&& e@ == (Failure { kind: ErrorKind::UnsupportedType, offset: 0 })
    &&& after == before
}

/// Whether `after` is `before` and then a part of `bytes`, from their start
/// on: what a sink holds that failed in the middle of taking `bytes`.
pub open spec fn partly(before: Seq<u8>, after: Seq<u8>, bytes: Seq<u8>) -> bool {
    extends(after, before) && extends(before + bytes, after)
}

/// That `bytes` were written, or that the sink failed, which only a sink that
/// can fail does, and then holds no more than a part of them.
pub open spec fn wrote(
    r: Result<(), Error>,
    before: Seq<u8>,
    after: Seq<u8>,
    bytes: Seq<u8>,
    fallible: bool,
) -> bool {
    match r {
        Ok(()) => after == before + bytes,
        Err(_) => fallible && partly(before, after, bytes),
    }
}

/// A piece of a larger write: where `done` of `bytes` has been written after
/// `before`, and `next` comes after `done` in `bytes`, then `before` with
/// `done` and `next` is within `start` with `whole`, as `before` with `bytes`
/// is.
proof fn lemma_piece(
    start: Seq<u8>,
    whole: Seq<u8>,
    before: Seq<u8>,
    bytes: Seq<u8>,
    done: Seq<u8>,
    next: Seq<u8>,
)
    requires
        extends(before, start),
        extends(start + whole, before + bytes),
        extends(bytes, done + next),
    ensures
        extends(before + done, start),
        extends(start + whole, before + done + next),
{
    assert forall|i: int| 0 <= i < start.len() implies (before + done)[i] == start[i] by {
        assert(before[i] == start[i]);
    }
    assert forall|i: int| 0 <= i < (before + done + next).len() implies (start + whole)[i] == (
    before + done + next)[i] by {
        assert((start + whole)[i] == (before + bytes)[i]);
        if i >= before.len() {
            assert(bytes[i - before.len()] == (done + next)[i - before.len()]);
        }
    }
}

/// The encodings of the first items of a list are the start of the encodings
/// of all of them.
proof fn lemma_items_start(items: Seq<Tree>, k: int)
    requires
        0 <= k <= items.len(),
    ensures
        extends(encode_items(items), encode_items(items.take(k))),
    decreases items.len() - k,
{
    if k == items.len() {
        assert(items.take(k) =~= items);
    } else {
        lemma_items_start(items, k + 1);
        assert(items.take(k + 1).drop_last() =~= items.take(k));
    }
}

/// The encodings of the first entries of a dictionary are the start of the
/// encodings of all of them.
proof fn lemma_entries_start(entries: Seq<(Seq<u8>, Tree)>, k: int)
    requires
        0 <= k <= entries.len(),
    ensures
        extends(encode_entries(entries), encode_entries(entries.take(k))),
    decreases entries.len() - k,
{
    if k == entries.len() {
        assert(entries.take(k) =~= entries);
    } else {
        lemma_entries_start(entries, k + 1);
        assert(entries.take(k + 1).drop_last() =~= entries.take(k));
    }
}

/// The encodings of the first collected entries are the start of the
/// encodings of all of them.
proof fn lemma_pairs_start(entries: Seq<(Seq<u8>, Seq<u8>)>, k: int)
    requires
        0 <= k <= entries.len(),
    ensures
        extends(encode_pairs(entries), encode_pairs(entries.take(k))),
    decreases entries.len() - k,
{
    if k == entries.len() {
        assert(entries.take(k) =~= entries);
    } else {
        lemma_pairs_start(entries, k + 1);
        assert(entries.take(k + 1).drop_last() =~= entries.take(k));
    }
}

impl<W: Write> Serializer<W> {
    /// Whether the sink can fail.
    pub closed spec fn fallible(&self) -> bool {
        self.writer.fallible()
    }

    /// An encoder that writes to `writer`.
    pub fn new(writer: W) -> (r: Self)
        ensures
            r@ == writer.written(),
            r.fallible() == writer.fallible(),
    {
        Serializer { writer }
    }

    /// Gives the sink back, for what is to be written after the value.
    pub fn into_inner(self) -> (r: W)
        ensures
            r.written() == self@,
            r.fallible() == self.fallible(),
    {
        self.writer
    }

    /// Writes bytes as they are, as a piece of the write of `whole` that
    /// began at `start`.
    fn put(&mut self, bytes: &[u8], Ghost(start): Ghost<Seq<u8>>,
        Ghost(whole): Ghost<Seq<u8>>) -> (r:
        Result<(), Error>)
        requires
            extends(old(self)@, start),
            extends(start + whole, old(self)@ + bytes@),
        ensures
            final(self).fallible() == old(self).fallible(),
            match r {
                Ok(()) => final(self)@ == old(self)@ + bytes@,
                Err(_) => old(self).fallible() && partly(start, final(self)@, whole),
            },
    {
        let ghost before = self@;
        let r = self.writer.write_all(bytes);
        proof {
            if r is Err {
                assert forall|i: int| 0 <= i < before.len() implies (start + whole)[i]
                    == before[i] by {
                    assert((before + bytes@)[i] == before[i]);
                }
            }
        }
        r
    }

    /// Writes one byte, as a piece of the write of `whole` that began at
    /// `start`.
    fn put_byte(&mut self, b: u8, Ghost(start): Ghost<Seq<u8>>, Ghost(whole): Ghost<Seq<u8>>) -> (r:
        Result<(), Error>)
        requires
            extends(old(self)@, start),
            extends(start + whole, old(self)@ + seq![b]),
        ensures
            final(self).fallible() == old(self).fallible(),
            match r {
                Ok(()) => final(self)@ == old(self)@ + seq![b],
                Err(_) => old(self).fallible() && partly(start, final(self)@, whole),
            },
    {
        let one: [u8; 1] = [b];
        assert(one@ =~= seq![b]);
        self.put(one.as_slice(), Ghost(start), Ghost(whole))
    }

    /// Writes a number's text between `i` and `e`, as a piece of the write
    /// of `whole` that began at `start`.
    fn put_number(
        &mut self,
        text: &[u8],
        Ghost(start): Ghost<Seq<u8>>,
        Ghost(whole): Ghost<Seq<u8>>,
    ) -> (r: Result<(), Error>)
        requires
            extends(old(self)@, start),
            extends(start + whole, old(self)@ + (seq![INT] + text@ + seq![END])),
        ensures
            final(self).fallible() == old(self).fallible(),
            match r {
                Ok(()) => final(self)@ == old(self)@ + (seq![INT] + text@ + seq![END]),
                Err(_) => old(self).fallible() && partly(start, final(self)@, whole),
            },
    {
        let ghost before = self@;
        let ghost bytes = seq![INT] + text@ + seq![END];
        proof {
            lemma_piece(start, whole, before, bytes, Seq::empty(), seq![INT]);
            assert(before + Seq::<u8>::empty() + seq![INT] =~= before + seq![INT]);
        }
        self.put_byte(INT, Ghost(start), Ghost(whole))?;
        proof {
            lemma_piece(start, whole, before, bytes, seq![INT], text@);
            assert(before + seq![INT] + text@ =~= self@ + text@);
        }
        self.put(text, Ghost(start), Ghost(whole))?;
        proof {
            lemma_piece(start, whole, before, bytes, seq![INT] + text@, seq![END]);
            assert(before + (seq![INT] + text@) + seq![END] =~= self@ + seq![END]);
        }
        self.put_byte(END, Ghost(start), Ghost(whole))?;
        assert(final(self)@ =~= before + bytes);
        Ok(())
    }

    /// Writes a byte string, as a piece of the write of `whole` that began
    /// at `start`.
    fn put_byte_str(
        &mut self,
        value: &[u8],
        Ghost(start): Ghost<Seq<u8>>,
        Ghost(whole): Ghost<Seq<u8>>,
    ) -> (r: Result<(), Error>)
        requires
            extends(old(self)@, start),
            extends(start + whole, old(self)@ + encode_bytes(value@)),
        ensures
            final(self).fallible() == old(self).fallible(),
            match r {
                Ok(()) => final(self)@ == old(self)@ + encode_bytes(value@),
                Err(_) => old(self).fallible() && partly(start, final(self)@, whole),
            },
    {
        let ghost before = self@;
        let ghost bytes = encode_bytes(value@);
        let text: Vec<u8> = format_integer(value.len() as i128);
        proof {
            lemma_piece(start, whole, before, bytes, Seq::empty(), text@);
            assert(before + Seq::<u8>::empty() + text@ =~= before + text@);
        }
        self.put(text.as_slice(), Ghost(start), Ghost(whole))?;
        proof {
            lemma_piece(start, whole, before, bytes, text@, seq![COLON]);
        }
        self.put_byte(COLON, Ghost(start), Ghost(whole))?;
        proof {
            lemma_piece(start, whole, before, bytes, text@ + seq![COLON], value@);
            assert(before + (text@ + seq![COLON]) + value@ =~= self@ + value@);
        }
        self.put(value, Ghost(start), Ghost(whole))?;
        assert(final(self)@ =~= before + bytes);
        Ok(())
    }

    /// Writes a value, as a piece of the write of `whole` that began at
    /// `start`.
    fn put_value(
        &mut self,
        value: &Value,
        Ghost(start): Ghost<Seq<u8>>,
        Ghost(whole): Ghost<Seq<u8>>,
    ) -> (r: Result<(), Error>)
        requires
            extends(old(self)@, start),
            extends(start + whole, old(self)@ + encode(value@)),
        ensures
            final(self).fallible() == old(self).fallible(),
            match r {
                Ok(()) => final(self)@ == old(self)@ + encode(value@),
                Err(_) => old(self).fallible() && partly(start, final(self)@, whole),
            },
        decreases value@,
    {
        let ghost before = self@;
        let ghost bytes = encode(value@);
        match value {
            Value::ByteStr(b) => self.put_byte_str(b.as_slice(), Ghost(start), Ghost(whole)),
            Value::Int(n) => {
                let text: Vec<u8> = match n {
                    Number::Signed(i) => format_integer(*i as i128),
                    Number::Unsigned(u) => format_integer(*u as i128),
                };
                self.put_number(text.as_slice(), Ghost(start), Ghost(whole))
            },
            Value::List(items) => {
                let ghost trees = trees_of(items@);
                proof {
                    lemma_view_list(*items);
                    lemma_piece(start, whole, before, bytes, Seq::empty(), seq![LIST]);
                    assert(before + Seq::<u8>::empty() + seq![LIST] =~= before + seq![LIST]);
                }
                self.put_byte(LIST, Ghost(start), Ghost(whole))?;
                let mut i: usize = 0;
                while i < items.len()
                    invariant
                        i <= items@.len(),
                        self.fallible() == old(self).fallible(),
                        before == old(self)@,
                        bytes == encode(value@),
                        trees == trees_of(items@),
                        value@ == Tree::List(trees),
                        extends(before, start),
                        extends(start + whole, before + bytes),
                        self@ == before + seq![LIST] + encode_items(trees.take(i as int)),
                    decreases items@.len() - i,
                {
                    proof {
                        assert(trees[i as int] == items@[i as int]@);
                        assert(decreases_to!(value@ => value@->List_0));
                        assert(decreases_to!(trees => trees[i as int]));
                        assert(trees.take(i + 1).drop_last() =~= trees.take(i as int));
                        lemma_items_start(trees, i + 1);
                        let done = seq![LIST] + encode_items(trees.take(i as int));
                        let next = encode(trees[i as int]);
                        assert(extends(bytes, done + next)) by {
                            assert(done + next =~= seq![LIST] + encode_items(trees.take(i + 1)));
                        }
                        lemma_piece(start, whole, before, bytes, done, next);
                        assert(before + done =~= self@);
                    }
                    self.put_value(&items[i], Ghost(start), Ghost(whole))?;
                    proof {
                        assert(self@ =~= before + seq![LIST] + encode_items(trees.take(i + 1)));
                    }
                    i += 1;
                }
                proof {
                    assert(trees.take(items@.len() as int) =~= trees);
                    let done = seq![LIST] + encode_items(trees);
                    lemma_piece(start, whole, before, bytes, done, seq![END]);
                    assert(before + done =~= self@);
                }
                self.put_byte(END, Ghost(start), Ghost(whole))?;
                assert(final(self)@ =~= before + bytes);
                Ok(())
            },
            Value::Dict(d) => {
                let ghost entries = d@;
                proof {
                    lemma_view_dict(*d);
                    lemma_piece(start, whole, before, bytes, Seq::empty(), seq![DICT]);
                    assert(before + Seq::<u8>::empty() + seq![DICT] =~= before + seq![DICT]);
                }
                self.put_byte(DICT, Ghost(start), Ghost(whole))?;
                let mut i: usize = 0;
                while i < d.len()
                    invariant
                        i <= d@.len(),
                        self.fallible() == old(self).fallible(),
                        before == old(self)@,
                        bytes == encode(value@),
                        entries == d@,
                        value@ == Tree::Dict(entries),
                        extends(before, start),
                        extends(start + whole, before + bytes),
                        self@ == before + seq![DICT] + encode_entries(entries.take(i as int)),
                    decreases d@.len() - i,
                {
                    match d.entry(i) {
                        Some((k, v)) => {
                            proof {
                                assert(entries[i as int].1 == v@);
                                assert(decreases_to!(value@ => value@->Dict_0));
                                assert(decreases_to!(entries => entries[i as int]));
                                assert(decreases_to!(entries[i as int] => entries[i as int].1));
                                assert(entries.take(i + 1).drop_last() =~= entries.take(i as int));
                                lemma_entries_start(entries, i + 1);
                                let done = seq![DICT] + encode_entries(entries.take(i as int));
                                let key = encode_bytes(k@);
                                let item = encode(v@);
                                assert(done + key + item =~= seq![DICT] + encode_entries(
                                    entries.take(i + 1),
                                ));
                                assert(extends(bytes, done + key)) by {
                                    assert forall|j: int| 0 <= j < (done
                                        + key).len() implies bytes[j]
                                        == (done + key)[j] by {
                                        assert((done + key)[j] == (done + key + item)[j]);
                                    }
                                }
                                lemma_piece(start, whole, before, bytes, done, key);
                                lemma_piece(start, whole, before, bytes, done + key, item);
                                assert(before + done =~= self@);
                            }
                            self.put_byte_str(k.as_slice(), Ghost(start), Ghost(whole))?;
                            proof {
                                let done = seq![DICT] + encode_entries(entries.take(i as int));
                                assert(before + (done + encode_bytes(k@)) =~= self@);
                            }
                            self.put_value(v, Ghost(start), Ghost(whole))?;
                        },
                        None => {},
                    }
                    proof {
                        assert(self@ =~= before + seq![DICT] + encode_entries(
                            entries.take(i + 1),
                        ));
                    }
                    i += 1;
                }
                proof {
                    assert(entries.take(d@.len() as int) =~= entries);
                    let done = seq![DICT] + encode_entries(entries);
                    lemma_piece(start, whole, before, bytes, done, seq![END]);
                    assert(before + done =~= self@);
                }
                self.put_byte(END, Ghost(start), Ghost(whole))?;
                assert(final(self)@ =~= before + bytes);
                Ok(())
            },
        }
    }

    /// Booleans cannot be expressed.
    pub fn serialize_bool(&mut self, _value: bool) -> (r: Result<(), Error>)
        ensures
            refused(r, old(self)@, final(self)@),
    {
        Err(Error::with_kind(ErrorKind::UnsupportedType))
    }

    /// Writes a signed integer.
    pub fn serialize_i8(&mut self, value: i8) -> (r: Result<(), Error>)
        ensures
            final(self).fallible() == old(self).fallible(),
            wrote(
                r,
                old(self)@,
                final(self)@,
                encode_number(Number::Signed(value as i64)),
                old(self).fallible(),
            ),
    {
        self.serialize_i64(value as i64)
    }

    /// Writes a signed integer.
    pub fn serialize_i16(&mut self, value: i16) -> (r: Result<(), Error>)
        ensures
            final(self).fallible() == old(self).fallible(),
            wrote(
                r,
                old(self)@,
                final(self)@,
                encode_number(Number::Signed(value as i64)),
                old(self).fallible(),
            ),
    {
        self.serialize_i64(value as i64)
    }

    /// Writes a signed integer.
    pub fn serialize_i32(&mut self, value: i32) -> (r: Result<(), Error>)
        ensures
            final(self).fallible() == old(self).fallible(),
            wrote(
                r,
                old(self)@,
                final(self)@,
                encode_number(Number::Signed(value as i64)),
                old(self).fallible(),
            ),
    {
        self.serialize_i64(value as i64)
    }

    /// Writes a signed integer: `i`, its decimal text, `e`.
    pub fn serialize_i64(&mut self, value: i64) -> (r: Result<(), Error>)
        ensures
            final(self).fallible() == old(self).fallible(),
            wrote(
                r,
                old(self)@,
                final(self)@,
                encode_number(Number::Signed(value)),
                old(self).fallible(),
            ),
    {
        let ghost start = self@;
        let ghost whole = encode_number(Number::Signed(value));
        let text: Vec<u8> = format_integer(value as i128);
        self.put_number(text.as_slice(), Ghost(start), Ghost(whole))
    }

    /// Writes an unsigned integer.
    pub fn serialize_u8(&mut self, value: u8) -> (r: Result<(), Error>)
        ensures
            final(self).fallible() == old(self).fallible(),
            wrote(
                r,
                old(self)@,
                final(self)@,
                encode_number(Number::Unsigned(value as u64)),
                old(self).fallible(),
            ),
    {
        self.serialize_u64(value as u64)
    }

    /// Writes an unsigned integer.
    pub fn serialize_u16(&mut self, value: u16) -> (r: Result<(), Error>)
        ensures
            final(self).fallible() == old(self).fallible(),
            wrote(
                r,
                old(self)@,
                final(self)@,
                encode_number(Number::Unsigned(value as u64)),
                old(self).fallible(),
            ),
    {
        self.serialize_u64(value as u64)
    }

    /// Writes an unsigned integer.
    pub fn serialize_u32(&mut self, value: u32) -> (r: Result<(), Error>)
        ensures
            final(self).fallible() == old(self).fallible(),
            wrote(
                r,
                old(self)@,
                final(self)@,
                encode_number(Number::Unsigned(value as u64)),
                old(self).fallible(),
            ),
    {
        self.serialize_u64(value as u64)
    }

    /// Writes an unsigned integer: `i`, its decimal text, `e`.
    pub fn serialize_u64(&mut self, value: u64) -> (r: Result<(), Error>)
        ensures
            final(self).fallible() == old(self).fallible(),
            wrote(
                r,
                old(self)@,
                final(self)@,
                encode_number(Number::Unsigned(value)),
                old(self).fallible(),
            ),
    {
        let ghost start = self@;
        let ghost whole = encode_number(Number::Unsigned(value));
        let text: Vec<u8> = format_integer(value as i128);
        self.put_number(text.as_slice(), Ghost(start), Ghost(whole))
    }

    /// Writes a character as the byte string of its UTF-8 bytes.
    pub fn serialize_char(&mut self, value: char) -> (r: Result<(), Error>)
        ensures
            final(self).fallible() == old(self).fallible(),
            wrote(
                r,
                old(self)@,
                final(self)@,
                encode_bytes(encode_scalar(value as u32)),
                old(self).fallible(),
            ),
    {
        let bytes: Vec<u8> = char_utf8(value);
        self.serialize_bytes(bytes.as_slice())
    }

    /// Writes text as the byte string of its UTF-8 bytes.
    pub fn serialize_str(&mut self, value: &str) -> (r: Result<(), Error>)
        ensures
            final(self).fallible() == old(self).fallible(),
            wrote(
                r,
                old(self)@,
                final(self)@,
                encode_bytes(value.spec_bytes()),
                old(self).fallible(),
            ),
    {
        self.serialize_bytes(value.as_bytes())
    }

    /// Writes a byte string: its length in decimal, a colon, its bytes.
    pub fn serialize_bytes(&mut self, value: &[u8]) -> (r: Result<(), Error>)
        ensures
            final(self).fallible() == old(self).fallible(),
            wrote(r, old(self)@, final(self)@, encode_bytes(value@), old(self).fallible()),
    {
        let ghost start = self@;
        let ghost whole = encode_bytes(value@);
        self.put_byte_str(value, Ghost(start), Ghost(whole))
    }

    /// An absent value cannot be expressed.
    pub fn serialize_none(&mut self) -> (r: Result<(), Error>)
        ensures
            refused(r, old(self)@, final(self)@),
    {
        self.serialize_unit()
    }

    /// Writes a value that is present, as the value itself.
    pub fn serialize_some(&mut self, value: &Value) -> (r: Result<(), Error>)
        ensures
            final(self).fallible() == old(self).fallible(),
            wrote(r, old(self)@, final(self)@, encode(value@), old(self).fallible()),
    {
        self.serialize_value(value)
    }

    /// The unit value cannot be expressed.
    pub fn serialize_unit(&mut self) -> (r: Result<(), Error>)
        ensures
            refused(r, old(self)@, final(self)@),
    {
        Err(Error::with_kind(ErrorKind::UnsupportedType))
    }

    /// A unit struct cannot be expressed.
    pub fn serialize_unit_struct(&mut self, _name: &str) -> (r: Result<(), Error>)
        ensures
            refused(r, old(self)@, final(self)@),
    {
        self.serialize_unit()
    }

    /// A variant of an enum cannot be expressed.
    pub fn serialize_unit_variant(
        &mut self,
        _name: &str,
        _variant_index: u32,
        _variant: &str,
    ) -> (r: Result<(), Error>)
        ensures
            refused(r, old(self)@, final(self)@),
    {
        Err(Error::with_kind(ErrorKind::UnsupportedType))
    }

    /// Writes a struct of one field, as the field itself.
    pub fn serialize_newtype_struct(&mut self, _name: &str, value: &Value) -> (r: Result<
        (),
        Error,
    >)
        ensures
            final(self).fallible() == old(self).fallible(),
            wrote(r, old(self)@, final(self)@, encode(value@), old(self).fallible()),
    {
        self.serialize_value(value)
    }

    /// A variant of an enum cannot be expressed.
    pub fn serialize_newtype_variant(
        &mut self,
        _name: &str,
        _variant_index: u32,
        _variant: &str,
        _value: &Value,
    ) -> (r: Result<(), Error>)
        ensures
            refused(r, old(self)@, final(self)@),
    {
        Err(Error::with_kind(ErrorKind::UnsupportedType))
    }

    /// A tuple cannot be expressed.
    pub fn serialize_tuple(&mut self, _len: usize) -> (r: Result<(), Error>)
        ensures
            refused(r, old(self)@, final(self)@),
    {
        Err(Error::with_kind(ErrorKind::UnsupportedType))
    }

    /// A tuple struct cannot be expressed.
    pub fn serialize_tuple_struct(&mut self, _name: &str, _len: usize) -> (r: Result<(), Error>)
        ensures
            refused(r, old(self)@, final(self)@),
    {
        Err(Error::with_kind(ErrorKind::UnsupportedType))
    }

    /// A variant of an enum cannot be expressed.
    pub fn serialize_tuple_variant(
        &mut self,
        _name: &str,
        _variant_index: u32,
        _variant: &str,
        _len: usize,
    ) -> (r: Result<(), Error>)
        ensures
            refused(r, old(self)@, final(self)@),
    {
        Err(Error::with_kind(ErrorKind::UnsupportedType))
    }

    /// A variant of an enum cannot be expressed.
    pub fn serialize_struct_variant(
        &mut self,
        _name: &str,
        _variant_index: u32,
        _variant: &str,
        _len: usize,
    ) -> (r: Result<(), Error>)
        ensures
            refused(r, old(self)@, final(self)@),
    {
        Err(Error::with_kind(ErrorKind::UnsupportedType))
    }

    /// Opens a list: writes `l`. The items follow, then `end`.
    pub fn serialize_seq(&mut self, _len: Option<usize>) -> (r: Result<(), Error>)
        ensures
            final(self).fallible() == old(self).fallible(),
            wrote(r, old(self)@, final(self)@, seq![LIST], old(self).fallible()),
    {
        let ghost start = self@;
        let ghost whole = seq![LIST];
        self.put_byte(LIST, Ghost(start), Ghost(whole))
    }

    /// Writes one item of a list.
    pub fn serialize_element(&mut self, value: &Value) -> (r: Result<(), Error>)
        ensures
            final(self).fallible() == old(self).fallible(),
            wrote(r, old(self)@, final(self)@, encode(value@), old(self).fallible()),
    {
        self.serialize_value(value)
    }

    /// Closes a list: writes `e`.
    pub fn end(&mut self) -> (r: Result<(), Error>)
        ensures
            final(self).fallible() == old(self).fallible(),
            wrote(r, old(self)@, final(self)@, seq![END], old(self).fallible()),
    {
        let ghost start = self@;
        let ghost whole = seq![END];
        self.put_byte(END, Ghost(start), Ghost(whole))
    }

    /// Opens a dictionary: writes `d`. The entries are handed to what this
    /// gives, which writes them when it is closed.
    pub fn serialize_map(&mut self, _len: Option<usize>) -> (r: Result<SerializeMap, Error>)
        ensures
            final(self).fallible() == old(self).fallible(),
            match r {
                Ok(map) => {
                    &&& map.entries() == Seq::<(Seq<u8>, Seq<u8>)>::empty()
                    &&& map.pending() is None
                    &&& final(self)@ == old(self)@ + seq![DICT]
                },
                Err(_) => old(self).fallible() && partly(old(self)@, final(self)@, seq![DICT]),
            },
    {
        let ghost start = self@;
        let ghost whole = seq![DICT];
        match self.put_byte(DICT, Ghost(start), Ghost(whole)) {
            Ok(()) => Ok(SerializeMap::new()),
            Err(e) => Err(e),
        }
    }

    /// Opens a dictionary for the fields of a struct.
    pub fn serialize_struct(&mut self, _name: &str, len: usize) -> (r: Result<
        SerializeMap,
        Error,
    >)
        ensures
            final(self).fallible() == old(self).fallible(),
            match r {
                Ok(map) => {
                    &&& map.entries() == Seq::<(Seq<u8>, Seq<u8>)>::empty()
                    &&& map.pending() is None
                    &&& final(self)@ == old(self)@ + seq![DICT]
                },
                Err(_) => old(self).fallible() && partly(old(self)@, final(self)@, seq![DICT]),
            },
    {
        self.serialize_map(Some(len))
    }

    /// Writes a value. The entries of a dictionary are written in the order
    /// in which it holds them, which is ascending key order.
    pub fn serialize_value(&mut self, value: &Value) -> (r: Result<(), Error>)
        ensures
            final(self).fallible() == old(self).fallible(),
            wrote(r, old(self)@, final(self)@, encode(value@), old(self).fallible()),
    {
        let ghost start = self@;
        let ghost whole = encode(value@);
        self.put_value(value, Ghost(start), Ghost(whole))
    }
}

/// The encoding of the entries that an encoder has collected for a
/// dictionary: each is its key as a byte string, then its value as it was
/// encoded.
pub open spec fn encode_pairs(entries: Seq<(Seq<u8>, Seq<u8>)>) -> Seq<u8>
    decreases entries.len(),
{
    if entries.len() == 0 {
        Seq::empty()
    } else {
        encode_pairs(entries.drop_last()) + encode_bytes(entries.last().0) + entries.last().1
    }
}

/// The entries of the dictionary that an encoder is writing. Keys and encoded
/// values come in turn, in any order of keys; when the dictionary is closed
/// they are written in ascending key order, each key once, the later value
/// where a key came twice.
#[derive(Debug)]
pub struct SerializeMap {
    entries: Vec<(Vec<u8>, Vec<u8>)>,
    current_key: Option<Vec<u8>>,
}

/// The mathematical entries of collected entries.
pub open spec fn pairs_of(entries: Seq<(Vec<u8>, Vec<u8>)>) -> Seq<(Seq<u8>, Seq<u8>)> {
    Seq::new(entries.len(), |i: int| (entries[i].0@, entries[i].1@))
}

impl SerializeMap {
    /// The entries collected so far, in ascending key order.
    pub closed spec fn entries(&self) -> Seq<(Seq<u8>, Seq<u8>)> {
        pairs_of(self.entries@)
    }

    /// The key that waits for its value.
    pub closed spec fn pending(&self) -> Option<Seq<u8>> {
        match self.current_key {
            Some(k) => Some(k@),
            None => None,
        }
    }

    /// No entries.
    fn new() -> (r: Self)
        ensures
            r.entries() == Seq::<(Seq<u8>, Seq<u8>)>::empty(),
            sorted(r.entries()),
            r.pending() is None,
    {
        let r = SerializeMap { entries: Vec::new(), current_key: None };
        assert(pairs_of(r.entries@) =~= Seq::empty());
        r
    }

    /// Binds `key` to `value` among the entries.
    fn bind(&mut self, key: Vec<u8>, value: Vec<u8>)
        ensures
            final(self).entries() == put(old(self).entries(), key@, value@),
            sorted(old(self).entries()) ==> sorted(final(self).entries()),
            final(self).pending() == old(self).pending(),
    {
        let ghost before = self.entries();
        let mut i: usize = 0;
        proof {
            lemma_slot(before, key@, 0);
        }
        while i < self.entries.len() && bytes_before(
            self.entries[i].0.as_slice(),
            key.as_slice(),
        )
            invariant
                i <= self.entries@.len(),
                before == pairs_of(self.entries@),
                slot_from(before, key@, 0) == slot_from(before, key@, i as int),
            decreases self.entries@.len() - i,
        {
            i += 1;
        }
        proof {
            if sorted(before) {
                lemma_put_sorted(before, key@, value@);
            }
        }
        if i < self.entries.len() && bytes_equal(self.entries[i].0.as_slice(), key.as_slice()) {
            proof {
                assert(pairs_of(self.entries@.update(i as int, (key, value))) =~= before.update(
                    i as int,
                    (key@, value@),
                ));
            }
            self.entries[i] = (key, value);
        } else {
            proof {
                assert(pairs_of(self.entries@.insert(i as int, (key, value))) =~= before.insert(
                    i as int,
                    (key@, value@),
                ));
            }
            self.entries.insert(i, (key, value));
        }
    }

    /// Takes a key. A key that waits for its value must get it first.
    pub fn serialize_key(&mut self, key: Vec<u8>) -> (r: Result<(), Error>)
        ensures
            final(self).entries() == old(self).entries(),
            match r {
                Ok(()) => old(self).pending() is None && final(self).pending() == Some(key@),
                Err(e) => old(self).pending() is Some && final(self).pending()
                    == old(self).pending() && e@
                    == (Failure { kind: ErrorKind::KeyWithoutValue, offset: 0 }),
            },
    {
        if self.current_key.is_some() {
            return Err(Error::with_kind(ErrorKind::KeyWithoutValue));
        }
        self.current_key = Some(key);
        Ok(())
    }

    /// Takes the encoded value of the key that waits, and binds the key to
    /// it.
    pub fn serialize_value(&mut self, value: Vec<u8>) -> (r: Result<(), Error>)
        ensures
            final(self).pending() is None,
            sorted(old(self).entries()) ==> sorted(final(self).entries()),
            match r {
                Ok(()) => old(self).pending() matches Some(key) && final(self).entries() == put(
                    old(self).entries(),
                    key,
                    value@,
                ),
                Err(e) => old(self).pending() is None && final(self).entries()
                    == old(self).entries() && e@
                    == (Failure { kind: ErrorKind::ValueWithoutKey, offset: 0 }),
            },
    {
        let key: Option<Vec<u8>> = self.current_key.take();
        match key {
            Some(key) => {
                self.bind(key, value);
                Ok(())
            },
            None => Err(Error::with_kind(ErrorKind::ValueWithoutKey)),
        }
    }

    /// Binds the name of a field to its encoded value.
    pub fn serialize_field(&mut self, key: &str, value: Vec<u8>) -> (r: Result<(), Error>)
        ensures
            r is Ok,
            final(self).pending() == old(self).pending(),
            sorted(old(self).entries()) ==> sorted(final(self).entries()),
            final(self).entries() == put(old(self).entries(), key.spec_bytes(), value@),
    {
        self.bind(slice_to_vec(key.as_bytes()), value);
        Ok(())
    }

    /// Writes the entries to `ser` in the order in which they are held, and
    /// closes the dictionary with `e`. A key that still waits for its value
    /// is a failure, and nothing is written.
    pub fn end<W: Write>(self, ser: &mut Serializer<W>) -> (r: Result<(), Error>)
        ensures
            final(ser).fallible() == old(ser).fallible(),
            match r {
                Ok(()) => self.pending() is None && final(ser)@ == old(ser)@ + encode_pairs(
                    self.entries(),
                ) + seq![END],
                Err(e) => if self.pending() is Some {
                    e@ == (Failure { kind: ErrorKind::KeyWithoutValue, offset: 0 }) && final(ser)@
                        == old(ser)@
                } else {
                    old(ser).fallible() && partly(
                        old(ser)@,
                        final(ser)@,
                        encode_pairs(self.entries()) + seq![END],
                    )
                },
            },
    {
        if self.current_key.is_some() {
            return Err(Error::with_kind(ErrorKind::KeyWithoutValue));
        }
        let ghost start = ser@;
        let ghost pairs = pairs_of(self.entries@);
        let ghost whole = encode_pairs(pairs) + seq![END];
        let mut i: usize = 0;
        while i < self.entries.len()
            invariant
                i <= self.entries@.len(),
                pairs == pairs_of(self.entries@),
                whole == encode_pairs(pairs) + seq![END],
                start == old(ser)@,
                self.pending() is None,
                ser.fallible() == old(ser).fallible(),
                ser@ == start + encode_pairs(pairs.take(i as int)),
            decreases self.entries@.len() - i,
        {
            proof {
                assert(pairs.take(i + 1).drop_last() =~= pairs.take(i as int));
                lemma_pairs_start(pairs, i + 1);
                let done = encode_pairs(pairs.take(i as int));
                let key = encode_bytes(pairs[i as int].0);
                let item = pairs[i as int].1;
                assert(done + key + item =~= encode_pairs(pairs.take(i + 1)));
                assert(extends(whole, done + key)) by {
                    assert forall|j: int| 0 <= j < (done + key).len() implies whole[j] == (done
                        + key)[j] by {
                        assert((done + key)[j] == (done + key + item)[j]);
                        assert(encode_pairs(pairs)[j] == (done + key + item)[j]);
                    }
                }
                assert(extends(whole, done + key + item)) by {
                    assert forall|j: int| 0 <= j < (done + key + item).len() implies whole[j] == (
                    done + key + item)[j] by {
                        assert(encode_pairs(pairs)[j] == (done + key + item)[j]);
                    }
                }
                lemma_piece(start, whole, start, whole, done, key);
                lemma_piece(start, whole, start, whole, done + key, item);
            }
            ser.put_byte_str(self.entries[i].0.as_slice(), Ghost(start), Ghost(whole))?;
            proof {
                let done = encode_pairs(pairs.take(i as int));
                assert(start + (done + encode_bytes(pairs[i as int].0)) =~= ser@);
            }
            ser.put(self.entries[i].1.as_slice(), Ghost(start), Ghost(whole))?;
            proof {
                assert(ser@ =~= start + encode_pairs(pairs.take(i + 1)));
            }
            i += 1;
        }
        proof {
            assert(pairs.take(pairs.len() as int) =~= pairs);
            lemma_piece(start, whole, start, whole, encode_pairs(pairs), seq![END]);
        }
        ser.put_byte(END, Ghost(start), Ghost(whole))?;
        assert(final(ser)@ =~= start + whole);
        Ok(())
    }
}

/// Turns what an encoder is handed for a key into the bytes of the key. Only
/// text and bytes can be keys.
pub struct MapKeySerializer;

impl MapKeySerializer {
    /// A boolean cannot be a key.
    pub fn serialize_bool(&mut self, _value: bool) -> (r: Result<Vec<u8>, Error>)
        ensures
            unsupported(r),
    {
        Err(Error::with_kind(ErrorKind::UnsupportedType))
    }

    /// A number cannot be a key.
    pub fn serialize_i64(&mut self, _value: i64) -> (r: Result<Vec<u8>, Error>)
        ensures
            unsupported(r),
    {
        Err(Error::with_kind(ErrorKind::UnsupportedType))
    }

    /// A number cannot be a key.
    pub fn serialize_u64(&mut self, _value: u64) -> (r: Result<Vec<u8>, Error>)
        ensures
            unsupported(r),
    {
        Err(Error::with_kind(ErrorKind::UnsupportedType))
    }

    /// A character is a key: its UTF-8 bytes.
    pub fn serialize_char(&mut self, value: char) -> (r: Result<Vec<u8>, Error>)
        ensures
            r matches Ok(key) && key@ == encode_scalar(value as u32),
    {
        Ok(char_utf8(value))
    }

    /// Text is a key: its UTF-8 bytes.
    pub fn serialize_str(&mut self, value: &str) -> (r: Result<Vec<u8>, Error>)
        ensures
            r matches Ok(key) && key@ == value.spec_bytes(),
    {
        Ok(slice_to_vec(value.as_bytes()))
    }

    /// Bytes are a key.
    pub fn serialize_bytes(&mut self, value: &[u8]) -> (r: Result<Vec<u8>, Error>)
        ensures
            r matches Ok(key) && key@ == value@,
    {
        Ok(slice_to_vec(value))
    }

    /// The unit value cannot be a key.
    pub fn serialize_unit(&mut self) -> (r: Result<Vec<u8>, Error>)
        ensures
            unsupported(r),
    {
        Err(Error::with_kind(ErrorKind::UnsupportedType))
    }

    /// An absent value cannot be a key.
    pub fn serialize_none(&mut self) -> (r: Result<Vec<u8>, Error>)
        ensures
            unsupported(r),
    {
        Err(Error::with_kind(ErrorKind::UnsupportedType))
    }

    /// A list cannot be a key.
    pub fn serialize_seq(&mut self, _len: Option<usize>) -> (r: Result<Vec<u8>, Error>)
        ensures
            unsupported(r),
    {
        Err(Error::with_kind(ErrorKind::UnsupportedType))
    }

    /// A dictionary cannot be a key.
    pub fn serialize_map(&mut self, _len: Option<usize>) -> (r: Result<Vec<u8>, Error>)
        ensures
            unsupported(r),
    {
        Err(Error::with_kind(ErrorKind::UnsupportedType))
    }
}

/// Encodes a value into a new vector.
pub fn to_vec(value: &Value) -> (r: Result<Vec<u8>, Error>)
    ensures
        r matches Ok(bytes) && bytes@ == encode(value@),
{
    let mut ser: Serializer<Vec<u8>> = Serializer::new(Vec::new());
    match ser.serialize_value(value) {
        Ok(()) => {
            let bytes: Vec<u8> = ser.into_inner();
            assert(bytes@ =~= encode(value@));
            Ok(bytes)
        },
        Err(e) => Err(e),
    }
}

/// Encodes a value into a sink, and gives the sink back.
pub fn to_writer<W: Write>(writer: W, value: &Value) -> (r: Result<W, Error>)
    ensures
        match r {
            Ok(after) => after.written() == writer.written() + encode(value@)
                && after.fallible() == writer.fallible(),
            Err(_) => writer.fallible(),
        },
{
    let mut ser: Serializer<W> = Serializer::new(writer);
    match ser.serialize_value(value) {
        Ok(()) => Ok(ser.into_inner()),
        Err(e) => Err(e),
    }
}

} // verus!
