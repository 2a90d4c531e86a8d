//! The reverse line reader itself.
//!
//! `ReverseLines` owns a seekable byte source and produces its logical lines
//! last first, pulling one backward chunk at a time. Its whole behaviour is
//! pinned to the model of `crate::model`: construction leaves the boundary
//! at `norm_pos` of the content, and each `next` call emits `step_line` of
//! the current boundary and moves the boundary to `step_pos`.

use vstd::prelude::*;

use crate::model::{
    chunk_start_of, cr_skip, last_lf, lemma_last_lf_props, norm_pos, step_line, step_pos, CR_BYTE,
    LF_BYTE,
};
use crate::source::{ByteSource, IoError};

verus! {

/// Bytes read per backward step when no chunk size is given.
const DEFAULT_SIZE: usize = 4096;

/// Why a call produced no line: the source failed (terminal for the whole
/// reader), or one recovered byte span was not valid UTF-8 (local to that
/// line; later calls continue).
#[derive(Clone, Copy, Debug, PartialEq, Eq)]
pub enum LineError {
    /// A seek or read against the source failed.
    Io,
    /// The recovered byte span is not valid UTF-8.
    Decode,
}

/// What decoding a byte sequence as UTF-8 yields: the decoded characters,
/// or nothing when the bytes are not valid UTF-8. The result depends on the
/// bytes alone.
pub uninterp spec fn utf8_decode(bytes: Seq<u8>) -> Option<Seq<char>>;

/// Relies on `String::from_utf8`: it succeeds exactly on valid UTF-8 input,
/// and the decoded text is a function of the bytes alone.
#[verifier::external_body]
fn decode_utf8(bytes: Vec<u8>) -> (r: Result<String, LineError>)
    ensures
        r matches Ok(text) ==> utf8_decode(bytes@) == Some(text@),
        r matches Err(e) ==> e is Decode && utf8_decode(bytes@) is None,
{
    match String::from_utf8(bytes) {
        Ok(text) => Ok(text),
        Err(_) => Err(LineError::Decode),
    }
}

/// Copy of `v` with the byte order flipped; the scan accumulates a line
/// back to front, so it is flipped once more before decoding.
fn reversed(v: &Vec<u8>) -> (r: Vec<u8>)
    ensures
        r@.len() == v@.len(),
        forall|k: int| 0 <= k < v@.len() ==> r@[k] == v@[v@.len() - 1 - k],
{
    let mut out: Vec<u8> = Vec::new();
    let mut i: usize = v.len();
    while i > 0
        invariant
            i <= v@.len(),
            out@.len() == v@.len() - i,
            forall|k: int| 0 <= k < out@.len() ==> out@[k] == v@[v@.len() - 1 - k],
        decreases i,
    {
        out.push(v[i - 1]);
        i = i - 1;
    }
    out
}

/// Scan `buf` from its last byte to its first. Bytes are pushed onto `acc`
/// until an `LF` is met; its index is returned and nothing further is
/// scanned. `acc` grows only at the end, by the scanned bytes in reverse.
fn scan_chunk(buf: &Vec<u8>, acc: &mut Vec<u8>) -> (r: Option<usize>)
    ensures
        old(acc)@.len() <= final(acc)@.len(),
        forall|k: int| 0 <= k < old(acc)@.len() ==> final(acc)@[k] == old(acc)@[k],
        match r {
            Some(idx) => {
                &&& idx < buf@.len()
                &&& buf@[idx as int] == LF_BYTE
                &&& (forall|j: int| idx < j < buf@.len() ==> buf@[j] != LF_BYTE)
                &&& final(acc)@.len() == old(acc)@.len() + buf@.len() - idx - 1
                &&& (forall|j: int|
                    old(acc)@.len() <= j < final(acc)@.len() ==> final(acc)@[j] == buf@[buf@.len()
                        - 1 - (j - old(acc)@.len())])
            },
            None => {
                &&& (forall|j: int| 0 <= j < buf@.len() ==> buf@[j] != LF_BYTE)
                &&& final(acc)@.len() == old(acc)@.len() + buf@.len()
                &&& (forall|j: int|
                    old(acc)@.len() <= j < final(acc)@.len() ==> final(acc)@[j] == buf@[buf@.len()
                        - 1 - (j - old(acc)@.len())])
            },
        },
{
    let ghost base = acc@.len() as int;
    let mut i: usize = buf.len();
    while i > 0
        invariant
            i <= buf@.len(),
            acc@.len() == base + buf@.len() - i,
            base == old(acc)@.len(),
            forall|k: int| 0 <= k < base ==> acc@[k] == old(acc)@[k],
            forall|j: int| base <= j < acc@.len() ==> acc@[j] == buf@[buf@.len() - 1 - (j - base)],
            forall|j: int| i <= j < buf@.len() ==> buf@[j] != LF_BYTE,
        decreases i,
    {
        let b = buf[i - 1];
        if b == LF_BYTE {
            return Some(i - 1);
        }
        acc.push(b);
        i = i - 1;
    }
    None
}

/// The reverse line reader: an exclusively owned source, the boundary
/// offset between not-yet-scanned and already-emitted content, the chunk
/// size fixed at construction, and the terminal fault flag.
pub struct ReverseLines<R: ByteSource> {
    reader: R,
    reader_pos: u64,
    buf_size: u64,
    is_error: bool,
}

impl<R: ByteSource> ReverseLines<R> {
    /// The bytes of the underlying source.
    pub closed spec fn src(self) -> Seq<u8> {
        self.reader.content()
    }

    /// The boundary offset: content at or after it has been emitted,
    /// content before it has not been scanned yet.
    pub closed spec fn pos(self) -> int {
        self.reader_pos as int
    }

    /// The configured chunk size in bytes.
    pub closed spec fn chunk_len(self) -> int {
        self.buf_size as int
    }

    /// Whether an I/O failure has permanently ended the reader.
    pub closed spec fn faulted(self) -> bool {
        self.is_error
    }

    /// Well-formedness: the chunk size is positive and representable, the
    /// boundary lies within the source, and while no fault has occurred the
    /// source's own cursor agrees with the reader's bookkeeping.
    pub closed spec fn wf(self) -> bool {
        &&& 1 <= self.buf_size <= usize::MAX
        &&& self.reader_pos <= self.reader.content().len()
        &&& self.reader.content().len() <= u64::MAX
        &&& (!self.is_error ==> self.reader.cursor() == self.reader_pos)
    }

    /// Create a reader over `reader` with the default chunk size.
    pub fn new(reader: R) -> (r: Result<ReverseLines<R>, IoError>)
        ensures
            r matches Ok(rl) ==> {
                &&& rl.wf()
                &&& !rl.faulted()
                &&& rl.src() == reader.content()
                &&& rl.chunk_len() == 4096
                &&& rl.pos() == norm_pos(reader.content())
            },
            R::infallible() ==> r is Ok,
    {
        ReverseLines::with_capacity(DEFAULT_SIZE, reader)
    }

    /// Create a reader over `reader` that reads `cap` bytes per backward
    /// step. Seeks to the end to learn the length, then absorbs a single
    /// trailing terminator so the first produced line is real content. Any
    /// I/O failure during this is the constructor's error; a reader is
    /// never returned half-initialized. Over a source kind that cannot
    /// fail, construction always succeeds.
    pub fn with_capacity(cap: usize, reader: R) -> (r: Result<ReverseLines<R>, IoError>)
        requires
            cap >= 1,
        ensures
            r matches Ok(rl) ==> {
                &&& rl.wf()
                &&& !rl.faulted()
                &&& rl.src() == reader.content()
                &&& rl.chunk_len() == cap
                &&& rl.pos() == norm_pos(reader.content())
            },
            R::infallible() ==> r is Ok,
    {
        let mut reader = reader;
        let reader_size = match reader.seek_to_end() {
            Ok(n) => n,
            Err(e) => {
                return Err(e);
            },
        };
        let mut rl = ReverseLines {
            reader,
            reader_pos: reader_size,
            buf_size: cap as u64,
            is_error: false,
        };
        let end_size: u64 = if reader_size < 2 {
            reader_size
        } else {
            2
        };
        let end_buf = match rl.read_to_buffer(end_size) {
            Ok(b) => b,
            Err(e) => {
                return Err(e);
            },
        };
        if end_size == 1 {
            if end_buf[0] != LF_BYTE {
                match rl.move_reader_position(1) {
                    Ok(u) => u,
                    Err(e) => {
                        return Err(e);
                    },
                }
            }
        } else if end_size == 2 {
            if end_buf[0] != CR_BYTE {
                match rl.move_reader_position(1) {
                    Ok(u) => u,
                    Err(e) => {
                        return Err(e);
                    },
                }
            }
            if end_buf[1] != LF_BYTE {
                match rl.move_reader_position(1) {
                    Ok(u) => u,
                    Err(e) => {
                        return Err(e);
                    },
                }
            }
        }
        Ok(rl)
    }

    /// Read `size` bytes ending at the boundary: seek backward by `size`,
    /// read them, seek backward again so the cursor rests at the chunk's
    /// start, and move the boundary down by `size`.
    fn read_to_buffer(&mut self, size: u64) -> (r: Result<Vec<u8>, IoError>)
        requires
            old(self).wf(),
            !old(self).faulted(),
            size <= old(self).pos(),
            size <= usize::MAX,
        ensures
            final(self).src() == old(self).src(),
            final(self).chunk_len() == old(self).chunk_len(),
            final(self).faulted() == old(self).faulted(),
            r matches Ok(buf) ==> {
                &&& final(self).wf()
                &&& final(self).pos() == old(self).pos() - size
                &&& buf@ == old(self).src().subrange(old(self).pos() - size, old(self).pos())
            },
            r is Err ==> final(self).pos() == old(self).pos(),
            R::infallible() ==> r is Ok,
    {
        match self.reader.seek_back(size) {
            Ok(u) => u,
            Err(e) => {
                return Err(e);
            },
        }
        let buf = match self.reader.read_exact(size as usize) {
            Ok(b) => b,
            Err(e) => {
                return Err(e);
            },
        };
        match self.reader.seek_back(size) {
            Ok(u) => u,
            Err(e) => {
                return Err(e);
            },
        }
        self.reader_pos = self.reader_pos - size;
        Ok(buf)
    }

    /// Move the cursor and the boundary forward by `offset` bytes, e.g. to
    /// rest just past a terminator the scan consumed.
    fn move_reader_position(&mut self, offset: u64) -> (r: Result<(), IoError>)
        requires
            old(self).wf(),
            !old(self).faulted(),
            old(self).pos() + offset <= old(self).src().len(),
        ensures
            final(self).src() == old(self).src(),
            final(self).chunk_len() == old(self).chunk_len(),
            final(self).faulted() == old(self).faulted(),
            r is Ok ==> final(self).wf() && final(self).pos() == old(self).pos() + offset,
            r is Err ==> final(self).pos() == old(self).pos(),
            R::infallible() ==> r is Ok,
    {
        match self.reader.seek_forward(offset) {
            Ok(u) => u,
            Err(e) => {
                return Err(e);
            },
        }
        self.reader_pos = self.reader_pos + offset;
        Ok(())
    }

    /// Produce the next line, scanning backward from the boundary.
    ///
    /// A faulted reader yields nothing, and a boundary at the start of the
    /// source with nothing accumulated is the clean end. Otherwise exactly
    /// one item comes back: the decoded text of `step_line` at the current
    /// boundary, a decoding error for that line alone, or an I/O error that
    /// faults the reader for good — and only an I/O error faults it. In the
    /// two non-faulting cases the boundary moves to `step_pos`. Over a
    /// source kind that cannot fail, no I/O error ever comes back.
    pub fn next(&mut self) -> (r: Option<Result<String, LineError>>)
        requires
            old(self).wf(),
        ensures
            final(self).wf(),
            final(self).src() == old(self).src(),
            final(self).chunk_len() == old(self).chunk_len(),
            old(self).faulted() ==> r is None && final(self).faulted() && final(self).pos()
                == old(self).pos(),
            !old(self).faulted() && old(self).pos() == 0 ==> r is None && !final(self).faulted()
                && final(self).pos() == 0,
            !old(self).faulted() && old(self).pos() > 0 ==> r is Some,
            !old(self).faulted() ==> (final(self).faulted() <==> (r matches Some(Err(e)) && e
                is Io)),
            R::infallible() ==> final(self).faulted() == old(self).faulted(),
            (!old(self).faulted() && old(self).pos() > 0 && !final(self).faulted()) ==> {
                &&& final(self).pos() == step_pos(
                    old(self).src(),
                    old(self).pos(),
                    old(self).chunk_len(),
                )
                &&& (r matches Some(Ok(text)) ==> utf8_decode(
                    step_line(old(self).src(), old(self).pos()),
                ) == Some(text@))
                &&& (r matches Some(Err(e)) ==> e is Decode && utf8_decode(
                    step_line(old(self).src(), old(self).pos()),
                ) is None)
            },
    {
        if self.is_error {
            return None;
        }
        let ghost s = self.src();
        let ghost p0 = self.pos();
        let ghost c = self.chunk_len();
        let mut result: Vec<u8> = Vec::new();
        loop
            invariant
                self.wf(),
                !self.is_error,
                !old(self).faulted(),
                s == old(self).src(),
                p0 == old(self).pos(),
                c == old(self).chunk_len(),
                self.src() == s,
                self.chunk_len() == c,
                0 <= self.pos() <= p0 <= s.len(),
                result@.len() == p0 - self.pos(),
                forall|k: int| 0 <= k < result@.len() ==> result@[k] == s[p0 - 1 - k],
                forall|j: int| self.pos() <= j < p0 ==> s[j] != LF_BYTE,
                forall|q: int|
                    0 <= q < self.pos() ==> chunk_start_of(p0, c, q) == chunk_start_of(
                        self.pos(),
                        c,
                        q,
                    ),
            decreases self.pos(),
        {
            if self.reader_pos < 1 {
                if result.len() == 0 {
                    return None;
                }
                let line = reversed(&result);
                proof {
                    lemma_last_lf_props(s, p0);
                    assert(last_lf(s, p0) == -1);
                    assert(line@ =~= step_line(s, p0));
                }
                return Some(decode_utf8(line));
            }
            let size: u64 = if self.buf_size < self.reader_pos {
                self.buf_size
            } else {
                self.reader_pos
            };
            let ghost p_before = self.pos();
            let buf = match self.read_to_buffer(size) {
                Ok(b) => b,
                Err(_) => {
                    self.is_error = true;
                    return Some(Err(LineError::Io));
                },
            };
            let ghost chunk_lo = self.pos();
            let scan = scan_chunk(&buf, &mut result);
            match scan {
                Some(idx) => {
                    let ghost q = chunk_lo + idx;
                    proof {
                        assert(s[q] == LF_BYTE);
                        assert forall|j: int| q < j < p0 implies s[j] != LF_BYTE by {
                            if j < p_before {
                                assert(buf@[j - chunk_lo] != LF_BYTE);
                            }
                        }
                        lemma_last_lf_props(s, p0);
                        assert(last_lf(s, p0) == q);
                        assert(chunk_start_of(p_before, c, q) == chunk_lo);
                        assert(chunk_start_of(p0, c, q) == chunk_lo);
                    }
                    let mut offset: u64 = idx as u64;
                    if idx >= 1 && buf[idx - 1] == CR_BYTE {
                        offset = offset - 1;
                        proof {
                            assert(s[q - 1] == CR_BYTE);
                            assert(cr_skip(s, p0, c, q));
                        }
                    } else {
                        proof {
                            assert(!(q >= 1 && cr_skip(s, p0, c, q)));
                        }
                    }
                    match self.move_reader_position(offset) {
                        Ok(u) => u,
                        Err(_) => {
                            self.is_error = true;
                            return Some(Err(LineError::Io));
                        },
                    }
                    let line = reversed(&result);
                    proof {
                        assert(self.pos() == step_pos(s, p0, c));
                        assert(line@ =~= step_line(s, p0));
                    }
                    return Some(decode_utf8(line));
                },
                None => {
                    proof {
                        assert forall|j: int| self.pos() <= j < p0 implies s[j] != LF_BYTE by {
                            if j < p_before {
                                assert(buf@[j - chunk_lo] != LF_BYTE);
                            }
                        }
                        assert forall|q: int|
                            0 <= q < self.pos() implies chunk_start_of(p0, c, q)
                            == chunk_start_of(self.pos(), c, q) by {
                            assert(chunk_start_of(p_before, c, q) == chunk_start_of(
                                chunk_lo,
                                c,
                                q,
                            ));
                        }
                    }
                },
            }
        }
    }
}

} // verus!
