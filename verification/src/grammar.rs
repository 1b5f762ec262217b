//! The wire grammar, as mathematics over a sequence of bytes.
//!
//! ```text
//! byte string   <decimal length> ':' <that many bytes>
//! integer       'i' '-'? <digit>+ 'e'
//! list          'l' <value>* 'e'
//! dictionary    'd' (<byte string> <value>)* 'e'
//! ```
//!
//! Each function takes the whole input and a position in it. It gives either
//! what stands at that position and where it ends, or the failure that a
//! decoder reports there. Positions count bytes from the start of the input.

use crate::error::{ErrorKind, Failure};
use crate::order::put;
use crate::value::Number;
use vstd::prelude::*;

verus! {

/// `-`
pub const MINUS: u8 = 45u8;

/// `0`
pub const ZERO: u8 = 48u8;

/// `9`
pub const NINE: u8 = 57u8;

/// `:`
pub const COLON: u8 = 58u8;

/// `d`
pub const DICT: u8 = 100u8;

/// `e`
pub const END: u8 = 101u8;

/// `i`
pub const INT: u8 = 105u8;

/// `l`
pub const LIST: u8 = 108u8;

/// A value, as mathematics. A dictionary is the sequence of its entries in
/// ascending key order.
pub enum Tree {
    ByteStr(Seq<u8>),
    Int(Number),
    List(Seq<Tree>),
    Dict(Seq<(Seq<u8>, Tree)>),
}

/// A range of positions: the payload of a byte string.
pub struct Span {
    pub start: int,
    pub end: int,
}

/// The failure of the given kind at the given offset.
pub open spec fn fail<T>(kind: ErrorKind, offset: int) -> Result<T, Failure> {
    Err(Failure { kind, offset })
}

/// Whether `b` is a decimal digit.
pub open spec fn is_digit(b: u8) -> bool {
    ZERO <= b && b <= NINE
}

/// Whether a value can start with `b`.
pub open spec fn starts_value(b: u8) -> bool {
    is_digit(b) || b == INT || b == LIST || b == DICT
}

/// The number that a run of decimal digits denotes.
pub open spec fn digits_value(s: Seq<u8>) -> nat
    decreases s.len(),
{
    if s.len() == 0 {
        0
    } else {
        digits_value(s.drop_last()) * 10 + (s.last() - ZERO) as nat
    }
}

/// The first position at or after `pos` that holds no digit.
pub open spec fn digits_end(s: Seq<u8>, pos: int) -> int
    decreases s.len() - pos,
{
    if 0 <= pos < s.len() && is_digit(s[pos]) {
        digits_end(s, pos + 1)
    } else {
        pos
    }
}

/// The byte string at `pos`: where its payload lies.
///
/// The length is every digit up to the first other byte, which must be `:`.
/// It must have a digit and fit in `usize`, and the input must hold that many
/// bytes after the colon. Zeros may lead the length.
///
/// Where the input ends in the length or in the payload, the failure is the
/// end of input, at the end of the input. A byte in the length that is
/// neither a digit nor the colon is an invalid length, and a length without a
/// digit or too large for `usize` is a number that cannot be read, both just
/// after that byte or the colon.
pub open spec fn byte_str_at(s: Seq<u8>, pos: int) -> Result<Span, Failure> {
    let j: int = digits_end(s, pos);
    let n: nat = digits_value(s.subrange(pos, j));
    if j >= s.len() {
        fail(ErrorKind::EofWhileParsingValue, s.len() as int)
    } else if s[j] != COLON {
        fail(ErrorKind::InvalidByteStrLen, j + 1)
    } else if j == pos || n > usize::MAX {
        fail(ErrorKind::ParseIntError, j + 1)
    } else if j + 1 + n > s.len() {
        fail(ErrorKind::EofWhileParsingValue, s.len() as int)
    } else {
        Ok(Span { start: j + 1, end: j + 1 + n })
    }
}

/// The text of the integer whose `i` stands just before `pos`: the position of
/// the `e` that closes it. The text is an optional `-` and at least one digit.
///
/// A byte that is no digit where a digit must stand, or a byte in the digits
/// that is neither a digit nor `e`, is an invalid integer at the position of
/// that byte. Where the input ends first, the failure is the end of input.
pub open spec fn integer_at(s: Seq<u8>, pos: int) -> Result<int, Failure> {
    let p: int = if pos < s.len() && s[pos] == MINUS {
        pos + 1
    } else {
        pos
    };
    let j: int = digits_end(s, p);
    if p >= s.len() {
        fail(ErrorKind::EofWhileParsingValue, s.len() as int)
    } else if !is_digit(s[p]) {
        fail(ErrorKind::InvalidInteger, p)
    } else if j >= s.len() {
        fail(ErrorKind::EofWhileParsingValue, s.len() as int)
    } else if s[j] != END {
        fail(ErrorKind::InvalidInteger, j)
    } else {
        Ok(j)
    }
}

/// The number that the text of an integer denotes, if it fits: signed where
/// the text starts with `-`, unsigned where it does not.
pub open spec fn number_of(text: Seq<u8>) -> Option<Number> {
    if text.len() > 0 && text[0] == MINUS {
        let v: nat = digits_value(text.skip(1));
        if v > 0x8000_0000_0000_0000 {
            None
        } else {
            Some(Number::Signed((-(v as int)) as i64))
        }
    } else {
        let v: nat = digits_value(text);
        if v > u64::MAX {
            None
        } else {
            Some(Number::Unsigned(v as u64))
        }
    }
}

/// Where the raw bytes of the byte string at `pos` end.
pub open spec fn raw_byte_str_at(s: Seq<u8>, pos: int) -> Result<int, Failure> {
    match byte_str_at(s, pos) {
        Ok(span) => Ok(span.end),
        Err(e) => Err(e),
    }
}

/// Where the raw bytes of the integer at `pos` end. The byte at `pos` is taken
/// for the `i`; after it stands the text of the integer, an optional `-` and
/// at least one digit, and the `e` that closes it. The text is held to the
/// grammar as `integer_at` holds it; the number itself is not read, so that
/// one too large for any type is captured all the same.
pub open spec fn raw_integer_at(s: Seq<u8>, pos: int) -> Result<int, Failure> {
    match integer_at(s, pos + 1) {
        Ok(j) => Ok(j + 1),
        Err(e) => Err(e),
    }
}

/// Where the raw bytes of the value at `pos` end, or `None` where the byte at
/// `pos` starts no value.
pub open spec fn raw_item_at(s: Seq<u8>, pos: int) -> Option<Result<int, Failure>>
    decreases s.len() - pos, 0int,
{
    if pos < 0 || pos >= s.len() {
        None
    } else if is_digit(s[pos]) {
        Some(raw_byte_str_at(s, pos))
    } else if s[pos] == INT {
        Some(raw_integer_at(s, pos))
    } else if s[pos] == LIST {
        Some(raw_list_tail(s, pos + 1))
    } else if s[pos] == DICT {
        Some(raw_dict_tail(s, pos + 1))
    } else {
        None
    }
}

/// Where the list ends whose next item, or closing `e`, stands at `pos`.
/// Where neither stands there, the list is invalid at `pos`.
pub open spec fn raw_list_tail(s: Seq<u8>, pos: int) -> Result<int, Failure>
    decreases s.len() - pos, 1int,
{
    if pos < 0 || pos >= s.len() {
        fail(ErrorKind::InvalidList, s.len() as int)
    } else if s[pos] == END {
        Ok(pos + 1)
    } else {
        match raw_item_at(s, pos) {
            None => fail(ErrorKind::InvalidList, pos),
            Some(Err(e)) => Err(e),
            Some(Ok(next)) => if pos < next <= s.len() {
                raw_list_tail(s, next)
            } else {
                fail(ErrorKind::InvalidList, pos)
            },
        }
    }
}

/// Where the dictionary ends whose next key, or closing `e`, stands at `pos`.
/// A key must be a byte string; a byte after a key that starts no value makes
/// the dictionary invalid at its position.
pub open spec fn raw_dict_tail(s: Seq<u8>, pos: int) -> Result<int, Failure>
    decreases s.len() - pos, 1int,
{
    if pos < 0 || pos >= s.len() {
        fail(ErrorKind::EofWhileParsingValue, s.len() as int)
    } else if s[pos] == END {
        Ok(pos + 1)
    } else if !is_digit(s[pos]) {
        fail(ErrorKind::KeyMustBeAByteStr, pos)
    } else {
        match raw_byte_str_at(s, pos) {
            Err(e) => Err(e),
            Ok(at) => if !(pos < at <= s.len()) {
                fail(ErrorKind::InvalidDict, pos)
            } else if at == s.len() {
                fail(ErrorKind::EofWhileParsingValue, s.len() as int)
            } else {
                match raw_item_at(s, at) {
                    None => fail(ErrorKind::InvalidDict, at),
                    Some(Err(e)) => Err(e),
                    Some(Ok(next)) => if at < next <= s.len() {
                        raw_dict_tail(s, next)
                    } else {
                        fail(ErrorKind::InvalidDict, at)
                    },
                }
            },
        }
    }
}

/// Where the raw bytes of the list at `pos` end. The byte at `pos` is taken
/// for the `l`.
pub open spec fn raw_list_at(s: Seq<u8>, pos: int) -> Result<int, Failure> {
    if pos >= s.len() {
        fail(ErrorKind::EofWhileParsingValue, s.len() as int)
    } else {
        raw_list_tail(s, pos + 1)
    }
}

/// Where the raw bytes of the dictionary at `pos` end. The byte at `pos` is
/// taken for the `d`.
pub open spec fn raw_dict_at(s: Seq<u8>, pos: int) -> Result<int, Failure> {
    if pos >= s.len() {
        fail(ErrorKind::EofWhileParsingValue, s.len() as int)
    } else {
        raw_dict_tail(s, pos + 1)
    }
}

/// The integer whose `i` stands just before `pos`, and where it ends. A text
/// whose number does not fit fails just after the `e`.
pub open spec fn number_at(s: Seq<u8>, pos: int) -> Result<(Number, int), Failure> {
    match integer_at(s, pos) {
        Err(e) => Err(e),
        Ok(j) => match number_of(s.subrange(pos, j)) {
            None => fail(ErrorKind::ParseIntError, j + 1),
            Some(n) => Ok((n, j + 1)),
        },
    }
}

/// The value at `pos`, and where it ends. The first byte tells what it is: a
/// digit a byte string, `i` an integer, `l` a list, `d` a dictionary. Any
/// other byte is a failure at `pos`: a value was expected.
pub open spec fn value_at(s: Seq<u8>, pos: int) -> Result<(Tree, int), Failure>
    decreases s.len() - pos, 0int,
{
    if pos < 0 || pos >= s.len() {
        fail(ErrorKind::EofWhileParsingValue, s.len() as int)
    } else if is_digit(s[pos]) {
        match byte_str_at(s, pos) {
            Err(e) => Err(e),
            Ok(span) => Ok((Tree::ByteStr(s.subrange(span.start, span.end)), span.end)),
        }
    } else if s[pos] == INT {
        match number_at(s, pos + 1) {
            Err(e) => Err(e),
            Ok((n, end)) => Ok((Tree::Int(n), end)),
        }
    } else if s[pos] == LIST {
        match list_tail(s, pos + 1, Seq::empty()) {
            Err(e) => Err(e),
            Ok((items, end)) => Ok((Tree::List(items), end)),
        }
    } else if s[pos] == DICT {
        match dict_tail(s, pos + 1, Seq::empty()) {
            Err(e) => Err(e),
            Ok((entries, end)) => Ok((Tree::Dict(entries), end)),
        }
    } else {
        fail(ErrorKind::ExpectedSomeValue, pos)
    }
}

/// The items of a list and where it ends: `acc` holds the items before `pos`,
/// where the next item or the closing `e` stands. Where neither stands there,
/// because the input has ended or the byte starts no value, the list is
/// invalid at `pos`.
pub open spec fn list_tail(s: Seq<u8>, pos: int, acc: Seq<Tree>) -> Result<(Seq<Tree>, int),
    Failure>
    decreases s.len() - pos, 1int,
{
    if pos < 0 || pos >= s.len() {
        fail(ErrorKind::InvalidList, s.len() as int)
    } else if s[pos] == END {
        Ok((acc, pos + 1))
    } else if !starts_value(s[pos]) {
        fail(ErrorKind::InvalidList, pos)
    } else {
        match value_at(s, pos) {
            Err(e) => Err(e),
            Ok((item, next)) => if pos < next <= s.len() {
                list_tail(s, next, acc.push(item))
            } else {
                fail(ErrorKind::InvalidList, pos)
            },
        }
    }
}

/// The entries of a dictionary and where it ends: `acc` holds the entries
/// before `pos`, where the next key or the closing `e` stands. Keys may come
/// in any order; where one comes twice, the later entry stays.
///
/// A key that is no byte string fails at `pos`: a key must be a byte string.
/// Where the input ends before a key or a value, the failure is the end of
/// input.
pub open spec fn dict_tail(s: Seq<u8>, pos: int, acc: Seq<(Seq<u8>, Tree)>) -> Result<
    (Seq<(Seq<u8>, Tree)>, int),
    Failure,
>
    decreases s.len() - pos, 1int,
{
    if pos < 0 || pos >= s.len() {
        fail(ErrorKind::EofWhileParsingValue, s.len() as int)
    } else if s[pos] == END {
        Ok((acc, pos + 1))
    } else if !is_digit(s[pos]) {
        fail(ErrorKind::KeyMustBeAByteStr, pos)
    } else {
        match byte_str_at(s, pos) {
            Err(e) => Err(e),
            Ok(key) => if !(pos < key.end <= s.len()) {
                fail(ErrorKind::InvalidDict, pos)
            } else {
                match value_at(s, key.end) {
                    Err(e) => Err(e),
                    Ok((item, next)) => if key.end < next <= s.len() {
                        dict_tail(s, next, put(acc, s.subrange(key.start, key.end), item))
                    } else {
                        fail(ErrorKind::InvalidDict, pos)
                    },
                }
            },
        }
    }
}

/// The value that the whole of `s` encodes: one value, and nothing after it.
pub open spec fn decode(s: Seq<u8>) -> Result<Tree, Failure> {
    match value_at(s, 0) {
        Err(e) => Err(e),
        Ok((tree, end)) => if end < s.len() {
            fail(ErrorKind::TrailingData, end)
        } else {
            Ok(tree)
        },
    }
}

/// The decimal digits of `n`.
pub open spec fn decimal(n: nat) -> Seq<u8>
    decreases n,
{
    if n < 10 {
        seq![(ZERO + n) as u8]
    } else {
        decimal(n / 10).push((ZERO + n % 10) as u8)
    }
}

/// The decimal text of `i`, with `-` before it where it is negative.
pub open spec fn signed_decimal(i: int) -> Seq<u8> {
    if i < 0 {
        seq![MINUS] + decimal((-i) as nat)
    } else {
        decimal(i as nat)
    }
}

/// The text of a number.
pub open spec fn number_text(n: Number) -> Seq<u8> {
    match n {
        Number::Signed(i) => signed_decimal(i as int),
        Number::Unsigned(u) => decimal(u as nat),
    }
}

/// The encoding of a byte string: its length, a colon, its bytes.
pub open spec fn encode_bytes(b: Seq<u8>) -> Seq<u8> {
    decimal(b.len()) + seq![COLON] + b
}

/// The encoding of a number: its text between `i` and `e`.
pub open spec fn encode_number(n: Number) -> Seq<u8> {
    seq![INT] + number_text(n) + seq![END]
}

/// The encoding of a value. The entries of a dictionary are written in the
/// order in which the sequence holds them.
pub open spec fn encode(t: Tree) -> Seq<u8>
    decreases t,
{
    match t {
        Tree::ByteStr(b) => encode_bytes(b),
        Tree::Int(n) => encode_number(n),
        Tree::List(items) => seq![LIST] + encode_items(items) + seq![END],
        Tree::Dict(entries) => seq![DICT] + encode_entries(entries) + seq![END],
    }
}

/// The encodings of the items of a list, one after the other.
pub open spec fn encode_items(items: Seq<Tree>) -> Seq<u8>
    decreases items,
{
    if items.len() == 0 {
        Seq::empty()
    } else {
        encode_items(items.drop_last()) + encode(items.last())
    }
}

/// The encodings of the entries of a dictionary, one after the other: each is
/// its key as a byte string, then its value.
pub open spec fn encode_entries(entries: Seq<(Seq<u8>, Tree)>) -> Seq<u8>
    decreases entries,
{
    if entries.len() == 0 {
        Seq::empty()
    } else {
        encode_entries(entries.drop_last()) + encode_bytes(entries.last().0) + encode(
            entries.last().1,
        )
    }
}

/// Whether `t` starts with all of `s`: an input of which `s` is what has been
/// seen so far.
pub open spec fn extends(t: Seq<u8>, s: Seq<u8>) -> bool {
    s.len() <= t.len() && forall|i: int| 0 <= i < s.len() ==> t[i] == s[i]
}

/// Whether a failure is the one that the grammar gives, or, where the source
/// is a stream, a failure of the stream. Either way the failure is at the
/// offset `at`, where the reader is left.
pub open spec fn failed<T>(
    streaming: bool,
    at: int,
    e: Failure,
    expected: Result<T, Failure>,
) -> bool {
    e.offset == at && ((streaming && e.kind is Io) || expected == Err::<T, Failure>(e))
}

/// A run of digits that ends inside `s` ends at the same place in every
/// input that starts with `s`.
pub proof fn lemma_digits_end_stable(s: Seq<u8>, t: Seq<u8>, pos: int)
    requires
        extends(t, s),
        0 <= pos,
        digits_end(s, pos) < s.len(),
    ensures
        digits_end(t, pos) == digits_end(s, pos),
    decreases s.len() - pos,
{
    if pos < s.len() && is_digit(s[pos]) {
        lemma_digits_end_stable(s, t, pos + 1);
    }
}

/// A run of digits ends at or after its start, and inside the input or at
/// its end.
pub proof fn lemma_digits_end_bounds(s: Seq<u8>, pos: int)
    requires
        0 <= pos <= s.len(),
    ensures
        pos <= digits_end(s, pos) <= s.len(),
        forall|i: int| pos <= i < digits_end(s, pos) ==> is_digit(#[trigger] s[i]),
        digits_end(s, pos) < s.len() ==> !is_digit(s[digits_end(s, pos)]),
    decreases s.len() - pos,
{
    if pos < s.len() && is_digit(s[pos]) {
        lemma_digits_end_bounds(s, pos + 1);
    }
}

/// A run of digits ends at `j` where digits stand from `pos` up to `j` and
/// none stands at `j`.
pub proof fn lemma_digits_end_is(s: Seq<u8>, pos: int, j: int)
    requires
        0 <= pos <= j <= s.len(),
        forall|i: int| pos <= i < j ==> is_digit(#[trigger] s[i]),
        j < s.len() ==> !is_digit(s[j]),
    ensures
        digits_end(s, pos) == j,
    decreases j - pos,
{
    if pos < j {
        lemma_digits_end_is(s, pos + 1, j);
    }
}

/// One more digit: the value so far times ten, plus the digit.
pub proof fn lemma_digits_value_push(s: Seq<u8>, from: int, to: int)
    requires
        0 <= from <= to < s.len(),
    ensures
        digits_value(s.subrange(from, to + 1)) == digits_value(s.subrange(from, to)) * 10 + (s[to]
            - ZERO) as nat,
{
    assert(s.subrange(from, to + 1).drop_last() =~= s.subrange(from, to));
}

/// A byte string that lies inside `s` is the same in every input that starts
/// with `s`.
pub proof fn lemma_byte_str_stable(s: Seq<u8>, t: Seq<u8>, pos: int)
    requires
        extends(t, s),
        0 <= pos <= s.len(),
        byte_str_at(s, pos) is Ok,
    ensures
        byte_str_at(t, pos) == byte_str_at(s, pos),
{
    lemma_digits_end_bounds(s, pos);
    lemma_digits_end_stable(s, t, pos);
    let j: int = digits_end(s, pos);
    assert(t.subrange(pos, j) =~= s.subrange(pos, j));
}

/// The text of an integer that lies inside `s` is the same in every input
/// that starts with `s`.
pub proof fn lemma_integer_stable(s: Seq<u8>, t: Seq<u8>, pos: int)
    requires
        extends(t, s),
        0 <= pos <= s.len(),
        integer_at(s, pos) is Ok,
    ensures
        integer_at(t, pos) == integer_at(s, pos),
{
    let p: int = if pos < s.len() && s[pos] == MINUS {
        pos + 1
    } else {
        pos
    };
    assert(t[pos] == s[pos]);
    assert(t[p] == s[p]);
    lemma_digits_end_bounds(s, p);
    lemma_digits_end_stable(s, t, p);
    let j: int = digits_end(s, p);
    assert(t[j] == s[j]);
}

/// Inside `s`, an input that starts with `s` holds the bytes that `s` holds.
pub proof fn lemma_extends_subrange(t: Seq<u8>, s: Seq<u8>, from: int, to: int)
    requires
        extends(t, s),
        0 <= from <= to <= s.len(),
    ensures
        t.subrange(from, to) == s.subrange(from, to),
{
    assert(t.subrange(from, to) =~= s.subrange(from, to));
}

/// An input that starts with `s` starts with all that `s` starts with.
pub proof fn lemma_extends_transitive(u: Seq<u8>, t: Seq<u8>, s: Seq<u8>)
    requires
        extends(u, t),
        extends(t, s),
    ensures
        extends(u, s),
{
    assert forall|i: int| 0 <= i < s.len() implies u[i] == s[i] by {
        assert(t[i] == s[i]);
        assert(u[i] == t[i]);
    }
}

/// Bytes copied one by one: a copy of the input from `from` up to `to`,
/// with the byte at `to` pushed after it, is a copy up to `to + 1`.
pub proof fn lemma_copy_push(before: Seq<u8>, copy: Seq<u8>, s: Seq<u8>, from: int, to: int)
    requires
        0 <= from <= to < s.len(),
        copy == before + s.subrange(from, to),
    ensures
        copy.push(s[to]) == before + s.subrange(from, to + 1),
{
    assert(copy.push(s[to]) =~= before + s.subrange(from, to + 1));
}

/// A copy of a part of `s` is a copy of the same part of every input that
/// starts with `s`.
pub proof fn lemma_copy_grow(before: Seq<u8>, copy: Seq<u8>, s: Seq<u8>, t: Seq<u8>, from: int,
    to: int)
    requires
        extends(t, s),
        0 <= from <= to <= s.len(),
        copy == before + s.subrange(from, to),
    ensures
        copy == before + t.subrange(from, to),
{
    lemma_extends_subrange(t, s, from, to);
}

/// Two copies of adjoining parts make a copy of the whole.
pub proof fn lemma_copy_join(
    before: Seq<u8>,
    first: Seq<u8>,
    both: Seq<u8>,
    s: Seq<u8>,
    from: int,
    mid: int,
    to: int,
)
    requires
        0 <= from <= mid <= to <= s.len(),
        first == before + s.subrange(from, mid),
        both == first + s.subrange(mid, to),
    ensures
        both == before + s.subrange(from, to),
{
    assert(both =~= before + s.subrange(from, to));
}

/// What a decoder that has consumed a value gives back where bytes were
/// asked for: the payload of a byte string, and of anything else the raw
/// bytes from its first to its last.
pub open spec fn capture_at(s: Seq<u8>, pos: int) -> Result<Span, Failure> {
    if pos < 0 || pos >= s.len() {
        fail(ErrorKind::EofWhileParsingValue, s.len() as int)
    } else if is_digit(s[pos]) {
        byte_str_at(s, pos)
    } else if s[pos] == INT {
        match raw_integer_at(s, pos) {
            Ok(end) => Ok(Span { start: pos, end }),
            Err(e) => Err(e),
        }
    } else if s[pos] == LIST {
        match raw_list_at(s, pos) {
            Ok(end) => Ok(Span { start: pos, end }),
            Err(e) => Err(e),
        }
    } else if s[pos] == DICT {
        match raw_dict_at(s, pos) {
            Ok(end) => Ok(Span { start: pos, end }),
            Err(e) => Err(e),
        }
    } else {
        fail(ErrorKind::ExpectedSomeValue, pos)
    }
}

/// The failure of the grammar that a decoder meets when it looks at a value
/// of a type that it was not asked for, or `None` where a value of another
/// type stands there. A byte string or an integer is read through; a list or
/// a dictionary is told by its first byte.
pub open spec fn unexpected_at(s: Seq<u8>, pos: int) -> Option<Failure> {
    if pos < 0 || pos >= s.len() {
        Some(Failure { kind: ErrorKind::EofWhileParsingValue, offset: s.len() as int })
    } else if is_digit(s[pos]) {
        match byte_str_at(s, pos) {
            Ok(_) => None,
            Err(e) => Some(e),
        }
    } else if s[pos] == INT {
        match number_at(s, pos + 1) {
            Ok(_) => None,
            Err(e) => Some(e),
        }
    } else if s[pos] == LIST || s[pos] == DICT {
        None
    } else {
        Some(Failure { kind: ErrorKind::ExpectedSomeValue, offset: pos })
    }
}

/// What stands at `pos`, where the next item of a list or its closing `e`
/// should: whether it is an item. Anything else, and the end of the input,
/// make the list invalid.
pub open spec fn list_next(s: Seq<u8>, pos: int) -> Result<bool, Failure> {
    if pos < 0 || pos >= s.len() {
        fail(ErrorKind::InvalidList, s.len() as int)
    } else if s[pos] == END {
        Ok(false)
    } else if starts_value(s[pos]) {
        Ok(true)
    } else {
        fail(ErrorKind::InvalidList, pos)
    }
}

/// What stands at `pos`, where the next key of a dictionary or its closing
/// `e` should: whether it is a key. A key must be a byte string.
pub open spec fn dict_next(s: Seq<u8>, pos: int) -> Result<bool, Failure> {
    if pos < 0 || pos >= s.len() {
        fail(ErrorKind::EofWhileParsingValue, s.len() as int)
    } else if s[pos] == END {
        Ok(false)
    } else if is_digit(s[pos]) {
        Ok(true)
    } else {
        fail(ErrorKind::KeyMustBeAByteStr, pos)
    }
}

/// Where a list ends that a caller has read the items of: after the `e` at
/// `pos`. Anything else there, and the end of the input, make the list
/// invalid.
pub open spec fn list_end(s: Seq<u8>, pos: int) -> Result<int, Failure> {
    if pos < 0 || pos >= s.len() {
        fail(ErrorKind::InvalidList, s.len() as int)
    } else if s[pos] == END {
        Ok(pos + 1)
    } else {
        fail(ErrorKind::InvalidList, pos)
    }
}

/// Where a dictionary ends that a caller has read the entries of: after the
/// `e` at `pos`. Anything else there makes the dictionary invalid.
pub open spec fn dict_end(s: Seq<u8>, pos: int) -> Result<int, Failure> {
    if pos < 0 || pos >= s.len() {
        fail(ErrorKind::EofWhileParsingValue, s.len() as int)
    } else if s[pos] == END {
        Ok(pos + 1)
    } else {
        fail(ErrorKind::InvalidDict, pos)
    }
}

/// The word for the type of value that starts with the byte at `pos`.
pub open spec fn found_at(s: Seq<u8>, pos: int) -> Seq<char> {
    if 0 <= pos < s.len() && is_digit(s[pos]) {
        "byte array"@
    } else if 0 <= pos < s.len() && s[pos] == INT {
        "integer"@
    } else if 0 <= pos < s.len() && s[pos] == LIST {
        "sequence"@
    } else {
        "map"@
    }
}

/// What a decoder says that was asked for one type and found another.
pub open spec fn mismatch_text(found: Seq<char>, expected: Seq<char>) -> Seq<char> {
    "unexpected type error. invalid_type="@ + found + ", expected_type="@ + expected
}

/// Whether `e` is the failure of a decoder that was asked for `expected` and
/// found another type at `pos`: the failure of the grammar where there is
/// one, and else a `Deserialize` failure without a place, which says what
/// was found and what was expected. Where the source is a stream, it may
/// also be a failure of the stream. A failure of the grammar or of the stream
/// is at the offset `at`, where the reader is left.
pub open spec fn mismatch(
    streaming: bool,
    at: int,
    e: Failure,
    s: Seq<u8>,
    pos: int,
    expected: Seq<char>,
) -> bool {
    ||| e.offset == at && streaming && e.kind is Io
    ||| e.offset == at && unexpected_at(s, pos) == Some(e)
    ||| {
        &&& unexpected_at(s, pos) is None
        &&& e.offset == 0
        &&& e.kind matches ErrorKind::Deserialize(text)
        &&& text@ == mismatch_text(found_at(s, pos), expected)
    }
}

} // verus!
