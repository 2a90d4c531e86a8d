//! The seekable byte source the reader pulls from.
//!
//! A source is any resource that supports relative positioning and
//! exact-length reads over a fixed sequence of bytes. The reader owns its
//! source exclusively, so between calls the source's own cursor always
//! matches the reader's bookkeeping. `SliceSource` backs a source with an
//! in-memory byte vector; callers may supply any other implementation, such
//! as one backed by a file.

use vstd::prelude::*;

verus! {

/// A seek or read against the source failed, e.g. an underlying device
/// error or a truncated read. Unrecoverable for the reader.
#[derive(Clone, Copy, Debug, PartialEq, Eq)]
pub struct IoError;

/// A seekable byte source: a fixed sequence of bytes plus a cursor that can
/// be moved relative to its current position and read forward exactly.
///
/// Each operation may fail in place of doing its work; after a failure the
/// cursor is unspecified (only the bytes themselves are unchanged), which is
/// why the reader treats any failure as terminal.
pub trait ByteSource: Sized {
    /// The bytes the source holds, fixed for the source's lifetime.
    /// Implementations verified against this trait override the default
    /// with their real content; the default only spares implementations
    /// outside the verified world, which nothing is proved about.
    open spec fn content(&self) -> Seq<u8> {
        Seq::empty()
    }

    /// The current cursor offset into `content`; the default likewise only
    /// serves unverified implementations.
    open spec fn cursor(&self) -> int {
        0
    }

    /// Whether this source kind can never fail: every operation on it
    /// returns `Ok`. Fallible by default; a kind whose operations always
    /// succeed — such as an in-memory source — overrides this, and the
    /// reader's contracts then rule its I/O errors out.
    open spec fn infallible() -> bool {
        false
    }

    /// Move the cursor to the end of the source and report the total length.
    fn seek_to_end(&mut self) -> (r: Result<u64, IoError>)
        ensures
            final(self).content() == old(self).content(),
            r matches Ok(n) ==> n == old(self).content().len() && final(self).cursor()
                == old(self).content().len(),
            Self::infallible() ==> r is Ok,
    ;

    /// Move the cursor `n` bytes backward.
    fn seek_back(&mut self, n: u64) -> (r: Result<(), IoError>)
        requires
            n <= old(self).cursor(),
        ensures
            final(self).content() == old(self).content(),
            r is Ok ==> final(self).cursor() == old(self).cursor() - n,
            Self::infallible() ==> r is Ok,
    ;

    /// Move the cursor `n` bytes forward.
    fn seek_forward(&mut self, n: u64) -> (r: Result<(), IoError>)
        requires
            old(self).cursor() + n <= old(self).content().len(),
        ensures
            final(self).content() == old(self).content(),
            r is Ok ==> final(self).cursor() == old(self).cursor() + n,
            Self::infallible() ==> r is Ok,
    ;

    /// Read exactly `n` bytes at the cursor, advancing the cursor past them.
    fn read_exact(&mut self, n: usize) -> (r: Result<Vec<u8>, IoError>)
        requires
            0 <= old(self).cursor(),
            old(self).cursor() + n <= old(self).content().len(),
        ensures
            final(self).content() == old(self).content(),
            r matches Ok(buf) ==> buf@ == old(self).content().subrange(
                old(self).cursor(),
                old(self).cursor() + n,
            ) && final(self).cursor() == old(self).cursor() + n,
            Self::infallible() ==> r is Ok,
    ;
}

/// An in-memory byte source: the whole content is a vector, no operation
/// ever fails, and the reader's contracts over it rule I/O errors out.
pub struct SliceSource {
    data: Vec<u8>,
    pos: usize,
}

impl SliceSource {
    /// Wrap a byte vector as a source, with the cursor at its start.
    pub fn new(data: Vec<u8>) -> (r: SliceSource)
        ensures
            r.content() == data@,
            r.cursor() == 0,
    {
        SliceSource { data, pos: 0 }
    }
}

impl ByteSource for SliceSource {
    closed spec fn content(&self) -> Seq<u8> {
        self.data@
    }

    closed spec fn cursor(&self) -> int {
        self.pos as int
    }

    open spec fn infallible() -> bool {
        true
    }

    fn seek_to_end(&mut self) -> (r: Result<u64, IoError>) {
        self.pos = self.data.len();
        Ok(self.pos as u64)
    }

    fn seek_back(&mut self, n: u64) -> (r: Result<(), IoError>) {
        self.pos = self.pos - (n as usize);
        Ok(())
    }

    fn seek_forward(&mut self, n: u64) -> (r: Result<(), IoError>) {
        let total: usize = self.data.len();
        proof {
            assert(self.pos + n <= total);
        }
        self.pos = self.pos + (n as usize);
        Ok(())
    }

    fn read_exact(&mut self, n: usize) -> (r: Result<Vec<u8>, IoError>) {
        let mut buf: Vec<u8> = Vec::new();
        let mut i: usize = 0;
        while i < n
            invariant
                i <= n,
                self.data@ == old(self).data@,
                self.pos == old(self).pos,
                self.pos + n <= self.data.len(),
                buf@ == self.data@.subrange(self.pos as int, self.pos + i),
            decreases n - i,
        {
            buf.push(self.data[self.pos + i]);
            proof {
                assert(buf@ =~= self.data@.subrange(self.pos as int, self.pos + i + 1));
            }
            i = i + 1;
        }
        self.pos = self.pos + n;
        Ok(buf)
    }
}

} // verus!
