//! Where volume bytes come from.
//!
//! [`ByteSource`] is the one door through which the reader fetches bytes: a disk image,
//! a device, a buffer. [`MemorySource`] is a buffer; [`OffsetReader`] presents one
//! partition of a source as if it began at offset zero, and refuses every read that
//! would escape the partition, so the filesystem layer cannot wander into an adjacent
//! one no matter how corrupt the structures it follows.

use vstd::prelude::*;
use crate::error::{IoFault, NtfsError};
use crate::walk;

verus! {

/// The bytes of `all` in `[offset, offset + len)`, as far as there are any.
pub open spec fn clipped(all: Seq<u8>, offset: int, len: int) -> Seq<u8> {
    let start = if offset < all.len() {
        offset
    } else {
        all.len() as int
    };
    let end = if offset + len < all.len() {
        offset + len
    } else {
        all.len() as int
    };
    all.subrange(start, end)
}

/// Exactly the `len` bytes of `all` at `offset`, or the end-of-source fault when they
/// are not all there.
pub open spec fn fetched(all: Seq<u8>, offset: int, len: int) -> Result<Seq<u8>, NtfsError> {
    if len == 0 {
        Ok(Seq::empty())
    } else if offset + len <= all.len() {
        Ok(all.subrange(offset, offset + len))
    } else {
        Err(NtfsError::Io(IoFault::UnexpectedEof))
    }
}

/// Whether `e` reports that the source failed for a reason of its own. That a source ends
/// too early is no such failure.
pub open spec fn source_failed(e: NtfsError) -> bool {
    e matches NtfsError::Io(fault) && fault is Other
}

/// What a function that reads from a source owes: exactly the `expected` outcome, unless
/// it may be let down by the source (it asks the source for bytes, and the source may
/// fail on its own) and was.
pub open spec fn delivered<T>(
    outcome: Result<T, NtfsError>,
    expected: Result<T, NtfsError>,
    unsure: bool,
) -> bool {
    outcome == expected || (unsure && (outcome matches Err(e) && source_failed(e)))
}

/// A source of bytes, addressed from zero.
///
/// What is proved of a reader holds for every source whose two methods keep their
/// contracts for some `bytes` and `flaky`. A source outside the proofs (a file, a device)
/// need not name them: it stands for the bytes that it holds.
pub trait ByteSource {
    /// All the bytes of the source. Nothing is known of those of a source that does not
    /// name them.
    open spec fn bytes(&self) -> Seq<u8> {
        arbitrary()
    }

    /// Whether a read may fail although the bytes are there (a worn disk, a broken
    /// connection).
    open spec fn flaky(&self) -> bool {
        true
    }

    /// Reads up to `len` bytes at `offset`: all that are there.
    fn read_at(&mut self, offset: u64, len: usize) -> (r: Result<Vec<u8>, NtfsError>)
        ensures
            final(self).bytes() == old(self).bytes(),
            final(self).flaky() == old(self).flaky(),
            delivered(
                walk::model(r),
                Ok(clipped(old(self).bytes(), offset as int, len as int)),
                old(self).flaky(),
            ),
    ;

    /// How many bytes there are.
    fn size(&mut self) -> (r: Result<u64, NtfsError>)
        ensures
            final(self).bytes() == old(self).bytes(),
            final(self).flaky() == old(self).flaky(),
            match r {
                Ok(n) => n == old(self).bytes().len(),
                Err(e) => old(self).flaky() && source_failed(e),
            },
    ;
}

/// Reads exactly `len` bytes at `offset`.
///
/// # Errors
///
/// [`NtfsError::Io`] when the source ends before, or fails.
pub fn read_exact_at<S: ByteSource>(source: &mut S, offset: u64, len: usize) -> (r: Result<
    Vec<u8>,
    NtfsError,
>)
    ensures
        final(source).bytes() == old(source).bytes(),
        final(source).flaky() == old(source).flaky(),
        delivered(
            walk::model(r),
            fetched(old(source).bytes(), offset as int, len as int),
            old(source).flaky() && len > 0,
        ),
{
    if len == 0 {
        let nothing: Vec<u8> = Vec::new();
        return Ok(nothing);
    }
    match source.read_at(offset, len) {
        Ok(found) => if found.len() == len {
            Ok(found)
        } else {
            Err(NtfsError::Io(IoFault::UnexpectedEof))
        },
        Err(e) => Err(e),
    }
}

/// Copies the bytes of `s` in `[start, end)`.
fn copy_range(s: &Vec<u8>, start: usize, end: usize) -> (r: Vec<u8>)
    requires
        start <= end <= s@.len(),
    ensures
        r@ == s@.subrange(start as int, end as int),
{
    vstd::slice::slice_to_vec(vstd::slice::slice_subrange(s.as_slice(), start, end))
}

/// A source held in memory.
#[derive(Debug, Clone)]
pub struct MemorySource {
    data: Vec<u8>,
}

impl MemorySource {
    /// Wraps a buffer.
    pub fn new(data: Vec<u8>) -> (r: Self)
        ensures
            r.bytes() == data@,
            !r.flaky(),
    {
        MemorySource { data }
    }
}

impl ByteSource for MemorySource {
    closed spec fn bytes(&self) -> Seq<u8> {
        self.data@
    }

    open spec fn flaky(&self) -> bool {
        false
    }

    fn read_at(&mut self, offset: u64, len: usize) -> (r: Result<Vec<u8>, NtfsError>) {
        let total: usize = self.data.len();
        if offset >= total as u64 {
            let nothing: Vec<u8> = Vec::new();
            assert(nothing@ =~= clipped(self.bytes(), offset as int, len as int));
            return Ok(nothing);
        }
        let start: usize = offset as usize;
        let end: usize = if len < total - start {
            start + len
        } else {
            total
        };
        Ok(copy_range(&self.data, start, end))
    }

    fn size(&mut self) -> (r: Result<u64, NtfsError>) {
        Ok(self.data.len() as u64)
    }
}

/// Where a seek counts from.
#[derive(Debug, Clone, Copy, PartialEq, Eq, Structural)]
pub enum SeekFrom {
    /// From the start.
    Start(u64),
    /// From the end.
    End(i64),
    /// From the current position.
    Current(i64),
}

/// A view of `[base, base + len)` within an underlying source, addressed as if it began
/// at offset 0.
#[derive(Debug)]
pub struct OffsetReader<R> {
    inner: R,
    base: u64,
    len: u64,
    pos: u64,
}

impl<R: ByteSource> OffsetReader<R> {
    /// Where the window begins in the underlying source.
    pub closed spec fn base(&self) -> u64 {
        self.base
    }

    /// The length that the window was made with.
    pub closed spec fn window_len(&self) -> u64 {
        self.len
    }

    /// The position of the next read.
    pub closed spec fn position(&self) -> u64 {
        self.pos
    }

    /// All the bytes of the underlying source.
    pub closed spec fn underlying(&self) -> Seq<u8> {
        self.inner.bytes()
    }

    /// Creates a window of `len` bytes starting at absolute byte `base`. The source is
    /// asked to go there, so that one that cannot is known at once.
    ///
    /// # Errors
    ///
    /// [`NtfsError::Io`] if the underlying source fails when it goes to `base`.
    pub fn new(inner: R, base: u64, len: u64) -> (r: Result<Self, NtfsError>)
        ensures
            match r {
                Ok(window) => {
                    &&& window.base() == base
                    &&& window.window_len() == len
                    &&& window.position() == 0
                    &&& window.underlying() == inner.bytes()
                    &&& window.flaky() == inner.flaky()
                },
                Err(e) => inner.flaky() && source_failed(e),
            },
    {
        let mut inner = inner;
        match inner.read_at(base, 0) {
            Ok(_) => Ok(OffsetReader { inner, base, len, pos: 0 }),
            Err(e) => Err(e),
        }
    }

    /// The partition length in bytes.
    #[must_use]
    pub fn len(&self) -> (r: u64)
        ensures
            r == self.window_len(),
    {
        self.len
    }

    /// Whether the partition window is empty.
    #[must_use]
    pub fn is_empty(&self) -> (r: bool)
        ensures
            r == (self.window_len() == 0),
    {
        self.len == 0
    }

    /// What a read of up to `room` bytes at the current position yields: never a byte
    /// outside the window.
    pub open spec fn next_bytes(&self, room: int) -> Result<Seq<u8>, NtfsError> {
        let remaining = if self.position() < self.window_len() {
            self.window_len() - self.position()
        } else {
            0
        };
        let wanted = if room < remaining {
            room
        } else {
            remaining
        };
        if remaining == 0 {
            Ok(Seq::empty())
        } else if self.base() + self.position() > u64::MAX {
            Err(NtfsError::Io(IoFault::InvalidInput("offset overflow")))
        } else {
            Ok(clipped(self.underlying(), self.base() + self.position(), wanted))
        }
    }

    /// Reads into `buf` from the current position, as much as the window and the source
    /// still hold, and moves past it. Returns how many bytes were read.
    ///
    /// # Errors
    ///
    /// [`NtfsError::Io`] when the absolute position does not fit in 64 bits, or the
    /// source fails.
    pub fn read(&mut self, buf: &mut [u8]) -> (r: Result<usize, NtfsError>)
        ensures
            final(self).base() == old(self).base(),
            final(self).window_len() == old(self).window_len(),
            final(self).underlying() == old(self).underlying(),
            final(self).flaky() == old(self).flaky(),
            final(buf)@.len() == old(buf)@.len(),
            match r {
                Ok(n) => old(self).next_bytes(old(buf)@.len() as int) matches Ok(found) && {
                    &&& n == found.len()
                    &&& final(buf)@ == found + old(buf)@.skip(n as int)
                    &&& final(self).position() == old(self).position() + n
                },
                Err(e) => {
                    &&& final(buf)@ == old(buf)@
                    &&& final(self).position() == old(self).position()
                    &&& old(self).position() < old(self).window_len()
                    &&& (old(self).flaky() && source_failed(e) && old(self).base() + old(
                        self,
                    ).position() <= u64::MAX) || old(self).next_bytes(old(buf)@.len() as int)
                        == Err::<Seq<u8>, NtfsError>(e)
                },
            },
    {
        if self.pos >= self.len {
            assert(Seq::<u8>::empty() + old(buf)@.skip(0) =~= old(buf)@);
            return Ok(0);
        }
        let remaining: u64 = self.len - self.pos;
        let room: usize = buf.len();
        let wanted: usize = if (room as u64) < remaining {
            room
        } else {
            remaining as usize
        };
        let absolute: u64 = match self.base.checked_add(self.pos) {
            Some(a) => a,
            None => {
                return Err(NtfsError::Io(IoFault::InvalidInput("offset overflow")));
            },
        };
        let found = match self.inner.read_at(absolute, wanted) {
            Ok(f) => f,
            Err(e) => {
                return Err(e);
            },
        };
        let n: usize = found.len();
        let mut i: usize = 0;
        while i < n
            invariant
                i <= n,
                n == found@.len(),
                n <= buf@.len(),
                buf@ == found@.take(i as int) + old(buf)@.skip(i as int),
                buf@.len() == old(buf)@.len(),
            decreases n - i,
        {
            let b: u8 = found[i];
            let ghost before = buf@;
            buf[i] = b;
            i += 1;
            assert(buf@ =~= found@.take(i as int) + old(buf)@.skip(i as int));
        }
        assert(found@.take(n as int) =~= found@);
        self.pos = self.pos + n as u64;
        Ok(n)
    }

    /// The position that a seek asks for, counted from the start of the window.
    pub open spec fn seek_target(&self, from: SeekFrom) -> int {
        match from {
            SeekFrom::Start(n) => n as int,
            SeekFrom::Current(d) => self.position() + d,
            SeekFrom::End(d) => self.window_len() + d,
        }
    }

    /// Moves the position. A position past the end is allowed; reads there return
    /// nothing. A target beyond 64 bits is capped.
    ///
    /// # Errors
    ///
    /// [`NtfsError::Io`] for a target before the partition start.
    pub fn seek(&mut self, from: SeekFrom) -> (r: Result<u64, NtfsError>)
        ensures
            final(self).base() == old(self).base(),
            final(self).window_len() == old(self).window_len(),
            final(self).underlying() == old(self).underlying(),
            final(self).flaky() == old(self).flaky(),
            old(self).seek_target(from) < 0 ==> {
                &&& r == Err::<u64, NtfsError>(
                    NtfsError::Io(IoFault::InvalidInput("seek before partition start")),
                )
                &&& final(self).position() == old(self).position()
            },
            old(self).seek_target(from) >= 0 ==> {
                &&& r == Ok::<u64, NtfsError>(final(self).position())
                &&& final(self).position() == (if old(self).seek_target(from) > u64::MAX {
                    u64::MAX as int
                } else {
                    old(self).seek_target(from)
                })
            },
    {
        let target: i128 = match from {
            SeekFrom::Start(n) => n as i128,
            SeekFrom::Current(d) => self.pos as i128 + d as i128,
            SeekFrom::End(d) => self.len as i128 + d as i128,
        };
        if target < 0 {
            return Err(NtfsError::Io(IoFault::InvalidInput("seek before partition start")));
        }
        self.pos = if target > u64::MAX as i128 {
            u64::MAX
        } else {
            target as u64
        };
        Ok(self.pos)
    }
}

impl<R: ByteSource> ByteSource for OffsetReader<R> {
    open spec fn bytes(&self) -> Seq<u8> {
        clipped(self.underlying(), self.base() as int, self.window_len() as int)
    }

    closed spec fn flaky(&self) -> bool {
        self.inner.flaky()
    }

    fn read_at(&mut self, offset: u64, len: usize) -> (r: Result<Vec<u8>, NtfsError>) {
        if offset >= self.len {
            let nothing: Vec<u8> = Vec::new();
            assert(nothing@ =~= clipped(self.bytes(), offset as int, len as int));
            return Ok(nothing);
        }
        let remaining: u64 = self.len - offset;
        let wanted: usize = if (len as u64) < remaining {
            len
        } else {
            remaining as usize
        };
        match self.base.checked_add(offset) {
            None => match self.inner.size() {
                // No source reaches as far as that.
                Ok(_) => {
                    let nothing: Vec<u8> = Vec::new();
                    assert(nothing@ =~= clipped(self.bytes(), offset as int, len as int));
                    Ok(nothing)
                },
                Err(e) => Err(e),
            },
            Some(absolute) => {
                let ghost window = self.bytes();
                let found = self.inner.read_at(absolute, wanted);
                assert(clipped(window, offset as int, len as int) =~= clipped(
                    old(self).inner.bytes(),
                    absolute as int,
                    wanted as int,
                ));
                found
            },
        }
    }

    fn size(&mut self) -> (r: Result<u64, NtfsError>) {
        match self.inner.size() {
            Ok(total) => {
                if total <= self.base {
                    Ok(0)
                } else if total - self.base < self.len {
                    Ok(total - self.base)
                } else {
                    Ok(self.len)
                }
            },
            Err(e) => Err(e),
        }
    }
}

/// A window shows the bytes of its partition and nothing else: byte `i` of the window is
/// byte `base + i` of the underlying source, and there is no byte at or past the
/// window's length.
pub proof fn law_window_stays_inside_the_partition<R: ByteSource>(window: OffsetReader<R>, i: int)
    requires
        0 <= i < window.bytes().len(),
    ensures
        window.bytes().len() <= window.window_len(),
        window.base() + i < window.underlying().len(),
        window.bytes()[i] == window.underlying()[window.base() + i],
{
}

/// A read gives the bytes that are there: as many as were asked for, or as many as are left,
/// and byte `i` of it is byte `offset + i` of the source.
pub proof fn law_reads_give_what_is_there(all: Seq<u8>, offset: int, len: int)
    requires
        0 <= offset,
        0 <= len,
    ensures
        offset >= all.len() ==> clipped(all, offset, len).len() == 0,
        offset + len <= all.len() ==> clipped(all, offset, len).len() == len,
        offset <= all.len() < offset + len ==> clipped(all, offset, len).len() == all.len() - offset,
        forall|i: int|
            0 <= i < clipped(all, offset, len).len() ==> #[trigger] clipped(all, offset, len)[i]
                == all[offset + i],
{
}

/// An exact read gives every byte that was asked for or fails, and it fails only where the
/// source ends too early.
pub proof fn law_exact_reads_are_whole(all: Seq<u8>, offset: int, len: int)
    requires
        0 <= offset,
        0 <= len,
    ensures
        fetched(all, offset, len) is Ok <==> len == 0 || offset + len <= all.len(),
        fetched(all, offset, len) matches Ok(found) ==> {
            &&& found.len() == len
            &&& forall|i: int| 0 <= i < len ==> #[trigger] found[i] == all[offset + i]
        },
        fetched(all, offset, len) matches Err(e) ==> e == NtfsError::Io(IoFault::UnexpectedEof),
{
}

/// A read through a window gives the window's own bytes from the position on, as many as
/// there is room for.
pub proof fn law_window_reads_follow_the_position<R: ByteSource>(
    window: OffsetReader<R>,
    room: int,
)
    requires
        0 <= room,
        window.position() <= window.bytes().len(),
    ensures
        ({
            let left = window.bytes().len() - window.position();
            window.base() + window.position() <= u64::MAX ==> (window.next_bytes(
                room,
            ) matches Ok(found) && {
                &&& found.len() == if room < left {
                    room
                } else {
                    left
                }
                &&& forall|i: int|
                    0 <= i < found.len() ==> #[trigger] found[i] == window.bytes()[window.position()
                        + i]
            })
        }),
        window.base() + window.window_len() <= window.underlying().len() ==> window.bytes().len()
            == window.window_len(),
        window.base() <= window.underlying().len() < window.base() + window.window_len()
            ==> window.bytes().len() == window.underlying().len() - window.base(),
        window.base() >= window.underlying().len() ==> window.bytes().len() == 0,
{
}

/// Seeks count from the start, the position and the end of the window, not of the source.
pub proof fn law_seeks_count_from_the_window<R: ByteSource>(
    window: OffsetReader<R>,
    n: u64,
    d: i64,
)
    ensures
        window.seek_target(SeekFrom::Start(n)) == n,
        window.seek_target(SeekFrom::Current(d)) - window.position() == d,
        window.seek_target(SeekFrom::End(d)) - window.window_len() == d,
{
}

} // verus!
