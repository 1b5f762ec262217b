//! Errors of decoding and encoding, each with the byte offset of its detection.

use vstd::prelude::*;
use vstd::string::StringExecFns;

verus! {

/// Declares `std::io::Error`, in which the failure of a stream or a sink is
/// carried to the caller. Nothing is claimed of what it holds.
#[verifier::external_type_specification]
#[verifier::external_body]
pub struct ExIoError(std::io::Error);

/// What went wrong.
#[derive(Debug)]
pub enum ErrorKind {
    /// The data does not have the type that the caller asked for.
    Deserialize(String),
    /// The input ended inside a value.
    EofWhileParsingValue,
    /// A value was expected, and the next byte starts none.
    ExpectedSomeValue,
    /// A byte string that should be text is not valid UTF-8.
    Utf8Error,
    /// The length of a byte string holds a byte that is no digit.
    InvalidByteStrLen,
    /// An integer has no digits, or holds a byte that is no digit.
    InvalidInteger,
    /// A dictionary is not closed, or one of its values starts with a byte
    /// that starts no value.
    InvalidDict,
    /// A list is not closed by `e`: the input ends, or a byte stands there
    /// that starts no value.
    InvalidList,
    /// The underlying stream failed.
    Io(std::io::Error),
    /// A dictionary key is not a byte string.
    KeyMustBeAByteStr,
    /// A key was written and no value followed it.
    KeyWithoutValue,
    /// A number has no digits where they are needed, or does not fit in its
    /// type.
    ParseIntError,
    /// A failure reported by the value being encoded.
    Serialize(String),
    /// Bytes follow the value where none may.
    TrailingData,
    /// The value has a type that Bencode cannot express.
    UnsupportedType,
    /// A value was written and no key came before it.
    ValueWithoutKey,
}

impl ErrorKind {
    /// What the kind says of itself, in words.
    pub fn description(&self) -> (r: &str)
        ensures
            r@ == self.text(),
    {
        match self {
            ErrorKind::Deserialize(text) => text.as_str(),
            ErrorKind::EofWhileParsingValue => "eof while parsing value",
            ErrorKind::ExpectedSomeValue => "expected some value",
            ErrorKind::Utf8Error => "invalid utf-8",
            ErrorKind::InvalidByteStrLen => "invalid byte string length",
            ErrorKind::InvalidInteger => "invalid integer",
            ErrorKind::InvalidDict => "invalid dictionary",
            ErrorKind::InvalidList => "invalid list",
            ErrorKind::Io(_) => "i/o error",
            ErrorKind::KeyMustBeAByteStr => "key must be a byte string",
            ErrorKind::KeyWithoutValue => "key without value",
            ErrorKind::ParseIntError => "number out of range",
            ErrorKind::Serialize(text) => text.as_str(),
            ErrorKind::TrailingData => "trailing data error",
            ErrorKind::UnsupportedType => "unsupported type",
            ErrorKind::ValueWithoutKey => "value without key",
        }
    }

    /// The words of `description`.
    pub open spec fn text(&self) -> Seq<char> {
        match self {
            ErrorKind::Deserialize(text) => text@,
            ErrorKind::EofWhileParsingValue => "eof while parsing value"@,
            ErrorKind::ExpectedSomeValue => "expected some value"@,
            ErrorKind::Utf8Error => "invalid utf-8"@,
            ErrorKind::InvalidByteStrLen => "invalid byte string length"@,
            ErrorKind::InvalidInteger => "invalid integer"@,
            ErrorKind::InvalidDict => "invalid dictionary"@,
            ErrorKind::InvalidList => "invalid list"@,
            ErrorKind::Io(_) => "i/o error"@,
            ErrorKind::KeyMustBeAByteStr => "key must be a byte string"@,
            ErrorKind::KeyWithoutValue => "key without value"@,
            ErrorKind::ParseIntError => "number out of range"@,
            ErrorKind::Serialize(text) => text@,
            ErrorKind::TrailingData => "trailing data error"@,
            ErrorKind::UnsupportedType => "unsupported type"@,
            ErrorKind::ValueWithoutKey => "value without key"@,
        }
    }
}

/// The mathematical content of an [`Error`]: its kind and where it was found.
pub struct Failure {
    pub kind: ErrorKind,
    pub offset: int,
}

/// An error of decoding or encoding.
#[derive(Debug)]
pub struct Error {
    kind: ErrorKind,
    byte_offset: usize,
}

impl View for Error {
    type V = Failure;

    closed spec fn view(&self) -> Failure {
        Failure { kind: self.kind, offset: self.byte_offset as int }
    }
}

impl Error {
    /// An error of the given kind, detected at `byte_offset`. An offset of 0
    /// says that the place is unknown or has no meaning.
    pub fn new(kind: ErrorKind, byte_offset: usize) -> (r: Self)
        ensures
            r@ == (Failure { kind, offset: byte_offset as int }),
    {
        Error { kind, byte_offset }
    }

    /// An error of the given kind with no place.
    pub fn with_kind(kind: ErrorKind) -> (r: Self)
        ensures
            r@ == (Failure { kind, offset: 0 }),
    {
        Error::new(kind, 0)
    }

    /// The kind of the error.
    pub fn kind(&self) -> (r: &ErrorKind)
        ensures
            *r == self@.kind,
    {
        &self.kind
    }

    /// The offset at which the error was detected.
    pub fn byte_offset(&self) -> (r: usize)
        ensures
            r as int == self@.offset,
    {
        self.byte_offset
    }

    /// Gives up the error for its kind.
    pub fn into_kind(self) -> (r: ErrorKind)
        ensures
            r == self@.kind,
    {
        self.kind
    }

    /// Where the error was detected, in words to put after what went wrong.
    /// An offset of 0 says nothing of the place, and gives no words.
    pub fn place(&self) -> (r: String)
        ensures
            r@ == place_text(self@.offset),
    {
        let mut text: String = String::from_str("");
        proof {
            assert(text@ =~= Seq::<char>::empty()) by {
                reveal_strlit("");
            }
        }
        if self.byte_offset != 0 {
            text.append(" at byte offset ");
            push_decimal(&mut text, self.byte_offset);
        }
        text
    }

    /// What went wrong and where, in words: the description of the kind,
    /// and after it the place, unless the offset is 0.
    pub fn message(&self) -> (r: String)
        ensures
            r@ == self@.kind.text() + place_text(self@.offset),
    {
        let mut text: String = String::from_str(self.kind.description());
        let place: String = self.place();
        text.append(place.as_str());
        text
    }
}

/// The word for one decimal digit.
pub open spec fn digit_text(d: nat) -> Seq<char> {
    if d == 0 {
        "0"@
    } else if d == 1 {
        "1"@
    } else if d == 2 {
        "2"@
    } else if d == 3 {
        "3"@
    } else if d == 4 {
        "4"@
    } else if d == 5 {
        "5"@
    } else if d == 6 {
        "6"@
    } else if d == 7 {
        "7"@
    } else if d == 8 {
        "8"@
    } else {
        "9"@
    }
}

/// A number in decimal digits.
pub open spec fn decimal_text(n: nat) -> Seq<char>
    decreases n,
{
    if n < 10 {
        digit_text(n)
    } else {
        decimal_text(n / 10) + digit_text(n % 10)
    }
}

/// The words for the place of an error: none for the offset 0, which stands
/// for no place.
pub open spec fn place_text(offset: int) -> Seq<char> {
    if offset == 0 {
        Seq::empty()
    } else {
        " at byte offset "@ + decimal_text(offset as nat)
    }
}

/// The word for one decimal digit.
fn digit_str(d: usize) -> (r: &'static str)
    requires
        d < 10,
    ensures
        r@ == digit_text(d as nat),
{
    if d == 0 {
        "0"
    } else if d == 1 {
        "1"
    } else if d == 2 {
        "2"
    } else if d == 3 {
        "3"
    } else if d == 4 {
        "4"
    } else if d == 5 {
        "5"
    } else if d == 6 {
        "6"
    } else if d == 7 {
        "7"
    } else if d == 8 {
        "8"
    } else {
        "9"
    }
}

/// Appends a number in decimal digits.
fn push_decimal(text: &mut String, n: usize)
    ensures
        final(text)@ == old(text)@ + decimal_text(n as nat),
    decreases n,
{
    if n >= 10 {
        push_decimal(text, n / 10);
    }
    text.append(digit_str(n % 10));
}

} // verus!
