//! Sinks of bytes for the encoder: a vector in memory, or a stream.

use crate::error::{Error, ErrorKind};
use vstd::prelude::*;

verus! {

/// A sink that takes bytes, all or none of a write.
pub trait Write {
    /// All that the sink has taken in the writes that went well.
    spec fn written(&self) -> Seq<u8>;

    /// Whether a write can fail.
    spec fn fallible(&self) -> bool;

    /// Writes all of `buf`.
    fn write_all(&mut self, buf: &[u8]) -> (r: Result<(), Error>)
        ensures
            final(self).fallible() == old(self).fallible(),
            match r {
                Ok(()) => final(self).written() == old(self).written() + buf@,
                Err(_) => old(self).fallible() && final(self).written() == old(self).written(),
            },
    ;
}

/// A sink outside the program: a file, a socket, anything that takes bytes
/// and may fail doing so.
pub trait ByteSink {
    /// Writes all of `buf`, or fails.
    fn write_bytes(&mut self, buf: &[u8]) -> Result<(), std::io::Error>;
}

/// A writer into a stream. It keeps account of what the stream has taken.
pub struct IoWrite<W> {
    writer: W,
    sent: Ghost<Seq<u8>>,
}

impl<W: ByteSink> IoWrite<W> {
    /// The stream that the writer writes into, as it stands.
    pub closed spec fn stream(&self) -> W {
        self.writer
    }

    /// A writer into `writer`, which has taken nothing yet.
    pub fn new(writer: W) -> (r: Self)
        ensures
            r.written() == Seq::<u8>::empty(),
            r.fallible(),
            r.stream() == writer,
    {
        IoWrite { writer, sent: Ghost(Seq::empty()) }
    }

    /// Gives the stream back, as the writes have left it.
    pub fn into_inner(self) -> (r: W)
        ensures
            r == self.stream(),
    {
        self.writer
    }
}

impl<W: ByteSink> Write for IoWrite<W> {
    closed spec fn written(&self) -> Seq<u8> {
        self.sent@
    }

    open spec fn fallible(&self) -> bool {
        true
    }

    fn write_all(&mut self, buf: &[u8]) -> (r: Result<(), Error>)
        ensures
            r matches Err(e) ==> e@.kind is Io && e@.offset == 0,
    {
        match self.writer.write_bytes(buf) {
            Ok(()) => {
                self.sent = Ghost(self.sent@ + buf@);
                Ok(())
            },
            Err(e) => Err(Error::with_kind(ErrorKind::Io(e))),
        }
    }
}

impl Write for Vec<u8> {
    open spec fn written(&self) -> Seq<u8> {
        self@
    }

    open spec fn fallible(&self) -> bool {
        false
    }

    fn write_all(&mut self, buf: &[u8]) -> (r: Result<(), Error>) {
        self.extend_from_slice(buf);
        Ok(())
    }
}

impl Write for &mut Vec<u8> {
    open spec fn written(&self) -> Seq<u8> {
        (**self)@
    }

    open spec fn fallible(&self) -> bool {
        false
    }

    fn write_all(&mut self, buf: &[u8]) -> (r: Result<(), Error>) {
        (**self).extend_from_slice(buf);
        Ok(())
    }
}

} // verus!
