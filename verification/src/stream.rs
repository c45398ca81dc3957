//! The byte-stream capability that every archive operation runs on.
//!
//! An archive can live on a disk file, in a memory buffer, or behind a
//! hardware transfer channel.  The pipelines only need a small capability
//! set from such a stream: exact-length read, write, seek, and reporting
//! the current position.  The [`Stream`] trait states that capability
//! together with the obligations any implementation must meet; the
//! [`MemoryStream`] type is a fully verified in-memory implementation,
//! used by the tests and available to callers that build archives in RAM.

use vstd::prelude::*;

verus! {

/// A seek target, measured from the start, the current position, or the end
/// of the stream.
#[derive(Debug, Clone, Copy, PartialEq, Eq, Structural)]
pub enum SeekFrom {
    Start(u64),
    Current(i64),
    End(i64),
}

/// Failure of an exact-length read: either the stream ended before the
/// requested count, or the underlying stream failed on its own terms.
#[derive(Debug, Clone, Copy, PartialEq, Eq)]
pub enum ReadExactError<E> {
    UnexpectedEof,
    Other(E),
}

/// The absolute position a seek resolves to.
pub open spec fn seek_target(pos: SeekFrom, cursor: int, len: int) -> int {
    match pos {
        SeekFrom::Start(offset) => offset as int,
        SeekFrom::Current(delta) => cursor + delta,
        SeekFrom::End(delta) => len + delta,
    }
}

/// The content of a stream after writing `data` at position `at`.
///
/// Bytes before `at` are kept; a gap between the old end and `at` reads as
/// zeros (the behaviour of a sparse file); bytes past the written region are
/// kept as well.  Writing nothing changes nothing.
pub open spec fn overwrite(content: Seq<u8>, at: int, data: Seq<u8>) -> Seq<u8>
    recommends
        0 <= at,
{
    Seq::new(
        if data.len() > 0 && at + data.len() > content.len() {
            (at + data.len()) as nat
        } else {
            content.len()
        },
        |i: int| if at <= i < at + data.len() {
            data[i - at]
        } else if i < content.len() {
            content[i]
        } else {
            0u8
        },
    )
}

/// The capability an archive pipeline requires from its host environment.
///
/// A stream is modelled by the byte sequence it stores (`content`) and a
/// cursor.  Every operation may fail with an implementation-defined error
/// value; the pipelines never interpret that value beyond forwarding it.
/// On success each operation must behave exactly as the model says.
///
/// `reliable()` marks implementations whose operations cannot fail while
/// the model permits them (an in-memory buffer, for instance).  A stream
/// backed by a device or a file may return `false` and keep the right to
/// fail at any point.
pub trait Stream: Sized {
    /// The implementation-defined error value of this stream.
    type Error;

    /// The bytes the stream stores.  An implementation the verifier sees
    /// overrides this with its real model; the default lets a host
    /// environment implement only the executable operations.
    open spec fn content(&self) -> Seq<u8> {
        Seq::empty()
    }

    /// The current cursor position.
    open spec fn cursor(&self) -> int {
        0
    }

    /// Implementation-specific well-formedness.
    open spec fn inv(&self) -> bool {
        true
    }

    /// True if operations succeed whenever the model allows them to.  A
    /// stream that keeps the right to fail at any point leaves this
    /// false.
    open spec fn reliable(&self) -> bool {
        false
    }

    /// Read exactly `n` bytes at the cursor, advancing it; fails if fewer
    /// than `n` bytes are available there.
    fn read_exact(&mut self, n: usize) -> (r: Result<Vec<u8>, ReadExactError<Self::Error>>)
        requires
            old(self).inv(),
        ensures
            final(self).inv(),
            final(self).reliable() == old(self).reliable(),
            final(self).content() == old(self).content(),
            0 <= final(self).cursor(),
            r matches Ok(v) ==> {
                &&& 0 <= old(self).cursor()
                &&& old(self).cursor() + n <= old(self).content().len()
                &&& v@ == old(self).content().subrange(
                    old(self).cursor(),
                    old(self).cursor() + n,
                )
                &&& final(self).cursor() == old(self).cursor() + n
            },
            old(self).reliable() && 0 <= old(self).cursor() && old(self).cursor() + n <= old(
                self,
            ).content().len() ==> r is Ok,
    ;

    /// Write the whole buffer at the cursor, advancing it.  An
    /// implementation must either write every byte and return the count, or
    /// fail; it must never report a partial write as success, and a failed
    /// write may leave at most a prefix of the buffer written in place.
    fn write(&mut self, buf: &[u8]) -> (r: Result<usize, Self::Error>)
        requires
            old(self).inv(),
        ensures
            final(self).inv(),
            final(self).reliable() == old(self).reliable(),
            0 <= final(self).cursor(),
            r matches Ok(n) ==> {
                &&& n == buf@.len()
                &&& 0 <= old(self).cursor()
                &&& final(self).content() == overwrite(old(self).content(), old(self).cursor(), buf@)
                &&& final(self).cursor() == old(self).cursor() + buf@.len()
            },
            r is Err ==> (exists|k: int|
                0 <= k <= buf@.len() && final(self).content() == overwrite(
                    old(self).content(),
                    old(self).cursor(),
                    buf@.take(k),
                )),
            old(self).reliable() && 0 <= old(self).cursor() && old(self).cursor() + buf@.len()
                <= usize::MAX ==> r is Ok,
    ;

    /// Move the cursor; on success the returned position equals the resolved
    /// target.
    fn seek(&mut self, pos: SeekFrom) -> (r: Result<u64, Self::Error>)
        requires
            old(self).inv(),
        ensures
            final(self).inv(),
            final(self).reliable() == old(self).reliable(),
            final(self).content() == old(self).content(),
            0 <= final(self).cursor(),
            r matches Ok(p) ==> {
                &&& p as int == seek_target(pos, old(self).cursor(), old(self).content().len() as int)
                &&& final(self).cursor() == p as int
            },
            old(self).reliable() && 0 <= seek_target(
                pos,
                old(self).cursor(),
                old(self).content().len() as int,
            ) <= usize::MAX ==> r is Ok,
    ;

    /// Report the current cursor position without moving it.
    fn stream_position(&mut self) -> (r: Result<u64, Self::Error>)
        requires
            old(self).inv(),
        ensures
            final(self).inv(),
            final(self).reliable() == old(self).reliable(),
            final(self).content() == old(self).content(),
            final(self).cursor() == old(self).cursor(),
            r matches Ok(p) ==> p as int == old(self).cursor(),
            old(self).reliable() && old(self).cursor() <= u64::MAX ==> r is Ok,
    ;
}

/// The error value of [`MemoryStream`]: a cursor or size that does not fit
/// in the address space of a memory buffer.
#[derive(Debug, Clone, Copy, PartialEq, Eq, Structural)]
pub struct OutOfBounds;

/// A byte stream held entirely in memory.
pub struct MemoryStream {
    data: Vec<u8>,
    pos: usize,
}

impl MemoryStream {
    /// An empty stream with the cursor at the start.
    pub fn new() -> (s: MemoryStream)
        ensures
            s.inv(),
            s.reliable(),
            s.content() == Seq::<u8>::empty(),
            s.cursor() == 0,
    {
        MemoryStream { data: Vec::new(), pos: 0 }
    }

    /// A stream over existing bytes, cursor at the start.
    pub fn from_vec(data: Vec<u8>) -> (s: MemoryStream)
        ensures
            s.inv(),
            s.reliable(),
            s.content() == data@,
            s.cursor() == 0,
    {
        MemoryStream { data, pos: 0 }
    }

    /// Give up the stream and keep its bytes.
    pub fn into_vec(self) -> (v: Vec<u8>)
        ensures
            v@ == self.content(),
    {
        self.data
    }
}

impl Stream for MemoryStream {
    type Error = OutOfBounds;

    closed spec fn content(&self) -> Seq<u8> {
        self.data@
    }

    closed spec fn cursor(&self) -> int {
        self.pos as int
    }

    closed spec fn inv(&self) -> bool {
        true
    }

    closed spec fn reliable(&self) -> bool {
        true
    }

    fn read_exact(&mut self, n: usize) -> (r: Result<Vec<u8>, ReadExactError<OutOfBounds>>) {
        if n > self.data.len() || self.pos > self.data.len() - n {
            return Err(ReadExactError::UnexpectedEof);
        }
        let mut v: Vec<u8> = Vec::new();
        let mut i: usize = 0;
        while i < n
            invariant
                i <= n,
                self.pos + n <= self.data.len(),
                v@ =~= self.data@.subrange(self.pos as int, self.pos + i),
            decreases n - i,
        {
            v.push(self.data[self.pos + i]);
            i = i + 1;
        }
        self.pos = self.pos + n;
        Ok(v)
    }

    fn write(&mut self, buf: &[u8]) -> (r: Result<usize, OutOfBounds>) {
        if usize::MAX - buf.len() < self.pos {
            proof {
                assert(buf@.take(0) =~= Seq::<u8>::empty());
                assert(self.data@ =~= overwrite(self.data@, self.pos as int, buf@.take(0)));
            }
            return Err(OutOfBounds);
        }
        if buf.len() == 0 {
            proof {
                assert(self.data@ =~= overwrite(self.data@, self.pos as int, buf@));
            }
            return Ok(0);
        }
        let ghost start = self.data@;
        let ghost at = self.pos as int;

        // Zero-fill any gap between the current end and the cursor.
        while self.data.len() < self.pos
            invariant
                start.len() <= self.data@.len() <= if at > start.len() {
                    at
                } else {
                    start.len() as int
                },
                self.pos == at,
                forall|k: int| 0 <= k < start.len() ==> self.data@[k] == start[k],
                forall|k: int| start.len() <= k < self.data@.len() ==> self.data@[k] == 0u8,
            decreases self.pos - self.data.len(),
        {
            self.data.push(0);
        }

        let ghost padded = self.data@;
        let mut i: usize = 0;
        while i < buf.len()
            invariant
                i <= buf@.len(),
                self.pos == at,
                at + buf@.len() <= usize::MAX,
                padded.len() >= at || padded.len() == start.len(),
                at <= padded.len(),
                self.data@.len() == if at + i > padded.len() {
                    at + i
                } else {
                    padded.len() as int
                },
                forall|k: int| 0 <= k < padded.len() && !(at <= k < at + i) ==> self.data@[k]
                    == padded[k],
                forall|k: int| at <= k < at + i ==> self.data@[k] == buf@[k - at],
            decreases buf@.len() - i,
        {
            let idx = self.pos + i;
            if idx < self.data.len() {
                self.data.set(idx, buf[i]);
            } else {
                self.data.push(buf[i]);
            }
            i = i + 1;
        }
        proof {
            let target = overwrite(start, at, buf@);
            assert(self.data@.len() == target.len());
            assert forall|k: int| 0 <= k < self.data@.len() implies self.data@[k] == target[k] by {
                if at <= k < at + buf@.len() {
                    assert(self.data@[k] == buf@[k - at]);
                } else if k < start.len() {
                    assert(self.data@[k] == padded[k]);
                    assert(padded[k] == start[k]);
                } else {
                    assert(k < padded.len());
                    assert(self.data@[k] == padded[k]);
                    assert(padded[k] == 0u8);
                }
            }
            assert(self.data@ =~= overwrite(start, at, buf@));
        }
        self.pos = self.pos + buf.len();
        Ok(buf.len())
    }

    fn seek(&mut self, pos: SeekFrom) -> (r: Result<u64, OutOfBounds>) {
        let target: i128 = match pos {
            SeekFrom::Start(offset) => offset as i128,
            SeekFrom::Current(delta) => self.pos as i128 + delta as i128,
            SeekFrom::End(delta) => self.data.len() as i128 + delta as i128,
        };
        if 0 <= target && target <= usize::MAX as i128 {
            self.pos = target as usize;
            Ok(self.pos as u64)
        } else {
            Err(OutOfBounds)
        }
    }

    fn stream_position(&mut self) -> (r: Result<u64, OutOfBounds>) {
        Ok(self.pos as u64)
    }
}

} // verus!
