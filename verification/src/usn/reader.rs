//! Streaming reader of USN journal records.
//!
//! For multi-GB `$UsnJrnl:$J` journals where loading everything into memory is
//! impractical, [`UsnJournalReader`] walks a source in 64 KiB windows, skipping the
//! zero-filled gaps the change journal leaves behind and decoding each
//! `USN_RECORD_V2`/`V3` it finds.

use vstd::prelude::*;
use crate::bytes;
use crate::error::NtfsError;
use crate::source;
use crate::source::ByteSource;
use crate::text;
use crate::usn::record;
use crate::usn::record::{UsnRecord, UsnRecordView};
use crate::walk;

verus! {

/// Bytes in one window.
pub const WINDOW: usize = 0x1_0000;

/// Where a reader stands: the window `[start, end)` of the journal that is held, the
/// position of the next read, and whether the end was reached.
#[verifier::ext_equal]
pub struct Journal {
    pub bytes: Seq<u8>,
    pub start: int,
    pub pos: int,
    pub end: int,
    pub done: bool,
}

/// A record length rounded up to a multiple of eight.
pub open spec fn aligned(length: int) -> int {
    (length + 7) / 8 * 8
}

/// The record in `frame` when its version is 2 or 3 and it parses.
#[verifier::opaque]
pub open spec fn decoded(frame: Seq<u8>) -> Option<UsnRecordView> {
    let outcome = if bytes::u16_at(frame, 4) == 2 {
        record::parsed_record(frame, record::layout_v2())
    } else {
        record::parsed_record(frame, record::layout_v3())
    };
    if bytes::u16_at(frame, 4) != 2 && bytes::u16_at(frame, 4) != 3 {
        None
    } else {
        match outcome {
            Ok(found) => Some(found),
            Err(_) => None,
        }
    }
}

/// Whether a record stands somewhere in the journal.
pub open spec fn stands_in(journal: Seq<u8>, found: UsnRecordView) -> bool {
    exists|at: int, length: int|
        0 <= at && 8 <= length && at + length <= journal.len() && #[trigger] decoded(
            journal.subrange(at, at + length),
        ) == Some(found)
}

impl Journal {
    /// Whether the window lies in the journal and the position near the window. Padding
    /// may carry the position past the window's end.
    pub open spec fn ok(self) -> bool {
        &&& 0 <= self.start <= self.pos
        &&& self.start <= self.end <= self.bytes.len()
        &&& self.end - self.start <= WINDOW
        &&& self.pos <= self.end + 8
    }

    /// Where a window that begins at `from` ends.
    pub open spec fn window_end(self, from: int) -> int {
        if from + WINDOW < self.bytes.len() {
            from + WINDOW
        } else {
            self.bytes.len() as int
        }
    }

    /// The state after the window is moved on, and whether there was more. What is left
    /// of the window is kept, unless the position is at its very start or past its end:
    /// reading then goes on behind the window.
    pub open spec fn filled(self) -> (Journal, bool) {
        if self.end >= self.bytes.len() {
            (Journal { done: true, ..self }, false)
        } else if self.start < self.pos < self.end {
            (Journal { start: self.pos, end: self.window_end(self.pos), ..self }, true)
        } else {
            (
                Journal {
                    start: self.end,
                    pos: self.end,
                    end: self.window_end(self.end),
                    ..self
                },
                true,
            )
        }
    }

    /// The state `n` bytes further on.
    pub open spec fn moved(self, n: int) -> Journal {
        Journal { pos: self.pos + n, ..self }
    }

    /// Whether the next eight bytes are zero.
    pub open spec fn at_zeroes(self) -> bool {
        bytes::has_at(self.bytes, self.pos, bytes::zeros(8))
    }

    /// The state after the zeroes at the position, and whether anything else follows.
    pub open spec fn skipped(self) -> (Journal, bool)
        decreases self.bytes.len() - self.end, self.end + 16 - self.pos,
    {
        if !self.ok() {
            (self, false)
        } else if self.pos + 8 <= self.end {
            if self.at_zeroes() {
                self.moved(8).skipped()
            } else {
                (self, true)
            }
        } else if !self.filled().1 {
            (self.filled().0, false)
        } else {
            self.filled().0.skipped()
        }
    }

    /// The length that the record at the position declares.
    pub open spec fn length(self) -> int {
        bytes::u32_at(self.bytes, self.pos) as int
    }

    /// The bytes of the record at the position.
    pub open spec fn frame(self) -> Seq<u8> {
        self.bytes.subrange(self.pos, self.pos + self.length())
    }

    /// Whether the record at the position lies in the window.
    pub open spec fn fits(self) -> bool {
        self.pos + self.length() <= self.end
    }

    /// Whether the record at the position declares a length that a record can have.
    pub open spec fn plausible(self) -> bool {
        8 <= self.length() <= WINDOW
    }

    /// The state in which the next record is looked for: a used-up window is moved on.
    pub open spec fn ready(self) -> (Journal, bool) {
        if self.pos >= self.end {
            self.filled()
        } else {
            (self, true)
        }
    }

    /// The state at the next thing that is not zero, and whether there is one.
    pub open spec fn located(self) -> (Journal, bool) {
        if self.ready().1 {
            self.ready().0.skipped()
        } else {
            self.ready()
        }
    }

    /// One step at something that is not zero: the record that was decoded there, if one
    /// was, and the state after it. A length that no record has, and a record that does
    /// not fit even after the window was moved on, are passed over eight bytes at a time.
    pub open spec fn step(self) -> (Option<UsnRecordView>, Journal) {
        if !self.plausible() {
            (None, self.moved(8))
        } else if self.fits() {
            (decoded(self.frame()), self.moved(aligned(self.length())))
        } else {
            let (next, more) = self.filled();
            if more && next.pos + self.length() <= next.end {
                (
                    decoded(next.bytes.subrange(next.pos, next.pos + self.length())),
                    next.moved(aligned(self.length())),
                )
            } else {
                (None, next.moved(8))
            }
        }
    }

    /// The next record, if there is one, and the state after it.
    pub open spec fn next(self) -> (Option<UsnRecordView>, Journal)
        decreases self.bytes.len() - self.end, self.end + 16 - self.pos,
    {
        if self.done || !self.ok() {
            (None, self)
        } else {
            let (found, more) = self.located();
            if !more {
                (None, found)
            } else {
                let (outcome, after) = found.step();
                proof {
                    lemma_located_advances(self);
                    lemma_step_advances(found);
                }
                match outcome {
                    Some(_) => (outcome, after),
                    None => after.next(),
                }
            }
        }
    }
}

/// Skipping moves forward only, and stops at eight bytes that are not all zero.
pub proof fn lemma_skipped_advances(j: Journal)
    requires
        j.ok(),
    ensures
        j.skipped().0.ok(),
        j.skipped().0.bytes == j.bytes,
        j.skipped().0.end > j.end || (j.skipped().0.end == j.end && j.skipped().0.pos >= j.pos),
        j.skipped().1 ==> j.skipped().0.pos + 8 <= j.skipped().0.end,
        j.skipped().1 ==> j.skipped().0.done == j.done,
        !j.skipped().1 ==> j.skipped().0.done,
    decreases j.bytes.len() - j.end, j.end + 16 - j.pos,
{
    if j.pos + 8 <= j.end {
        if j.at_zeroes() {
            lemma_skipped_advances(j.moved(8));
        }
    } else if j.filled().1 {
        lemma_skipped_advances(j.filled().0);
    }
}

/// Looking for the next record moves forward only.
pub proof fn lemma_located_advances(j: Journal)
    requires
        j.ok(),
    ensures
        j.located().0.ok(),
        j.located().0.bytes == j.bytes,
        j.located().0.end > j.end || (j.located().0.end == j.end && j.located().0.pos >= j.pos),
        j.located().1 ==> j.located().0.pos + 8 <= j.located().0.end,
        j.located().1 ==> j.located().0.done == j.done,
        !j.located().1 ==> j.located().0.done,
{
    lemma_skipped_advances(j.ready().0);
}

/// A step moves forward.
pub proof fn lemma_step_advances(j: Journal)
    requires
        j.ok(),
        j.pos + 8 <= j.end,
    ensures
        j.step().1.ok(),
        j.step().1.bytes == j.bytes,
        j.step().1.end > j.end || (j.step().1.end == j.end && j.step().1.pos > j.pos),
{
}

/// A record that is returned stands in the journal.
pub proof fn law_returned_records_stand_in_the_journal(j: Journal)
    requires
        j.ok(),
    ensures
        j.next().0 matches Some(found) ==> stands_in(j.bytes, found),
        j.next().1.ok(),
        j.next().1.bytes == j.bytes,
    decreases j.bytes.len() - j.end, j.end + 16 - j.pos,
{
    if !j.done {
        lemma_located_advances(j);
        let (found, more) = j.located();
        if more {
            lemma_step_advances(found);
            lemma_step_stands(found);
            if found.step().0 is None {
                law_returned_records_stand_in_the_journal(found.step().1);
            }
        }
    }
}

proof fn lemma_step_stands(j: Journal)
    requires
        j.ok(),
        j.pos + 8 <= j.end,
    ensures
        j.step().0 matches Some(found) ==> stands_in(j.bytes, found),
{
    let length = j.length();
    if j.plausible() && j.step().0 is Some {
        let at = if j.fits() {
            j.pos
        } else {
            j.filled().0.pos
        };
        assert(decoded(j.bytes.subrange(at, at + length)) is Some);
    }
}

/// Every record that is returned moves the reader on, so a journal is walked in finitely
/// many steps.
pub proof fn law_each_record_moves_the_reader_on(j: Journal)
    requires
        j.ok(),
    ensures
        j.next().0 is Some ==> j.next().1.end > j.end || (j.next().1.end == j.end
            && j.next().1.pos > j.pos),
    decreases j.bytes.len() - j.end, j.end + 16 - j.pos,
{
    if !j.done {
        lemma_located_advances(j);
        let (found, more) = j.located();
        if more {
            lemma_step_advances(found);
            if found.step().0 is None {
                law_each_record_moves_the_reader_on(found.step().1);
            }
        }
    }
}

/// Where no record is left the end was reached.
pub proof fn law_no_record_means_the_end(j: Journal)
    requires
        j.ok(),
    ensures
        j.next().0 is None ==> j.next().1.done,
    decreases j.bytes.len() - j.end, j.end + 16 - j.pos,
{
    if !j.done {
        lemma_located_advances(j);
        let (found, more) = j.located();
        if more {
            lemma_step_advances(found);
            if found.step().0 is None {
                law_no_record_means_the_end(found.step().1);
            }
        }
    }
}

/// Once the end was reached no record follows.
pub proof fn law_the_end_is_final(j: Journal)
    requires
        j.done,
    ensures
        j.next() == (None::<UsnRecordView>, j),
{
}

proof fn lemma_zeroes_are_skipped(j: Journal)
    requires
        j.ok(),
        forall|i: int| 0 <= i < j.bytes.len() ==> #[trigger] j.bytes[i] == 0,
    ensures
        !j.skipped().1,
    decreases j.bytes.len() - j.end, j.end + 16 - j.pos,
{
    if j.pos + 8 <= j.end {
        assert(j.bytes.subrange(j.pos, j.pos + 8) =~= bytes::zeros(8));
        lemma_zeroes_are_skipped(j.moved(8));
    } else if j.filled().1 {
        lemma_zeroes_are_skipped(j.filled().0);
    }
}

/// A journal of zeroes holds no record, however long it is.
pub proof fn law_zeroes_hold_no_record(j: Journal)
    requires
        j.ok(),
        forall|i: int| 0 <= i < j.bytes.len() ==> #[trigger] j.bytes[i] == 0,
    ensures
        j.next().0 is None,
{
    if j.ready().1 {
        lemma_zeroes_are_skipped(j.ready().0);
    }
}

/// A well-formed record at the position, inside the window, is the next one.
pub proof fn law_a_record_in_the_window_is_next(j: Journal)
    requires
        j.ok(),
        !j.done,
        j.pos + 8 <= j.end,
        j.plausible(),
        j.fits(),
        decoded(j.frame()) is Some,
    ensures
        j.next() == (decoded(j.frame()), j.moved(aligned(j.length()))),
{
    assert(!j.at_zeroes()) by {
        if j.at_zeroes() {
            let eight = j.bytes.subrange(j.pos, j.pos + 8);
            assert(eight[0] == 0 && eight[1] == 0 && eight[2] == 0 && eight[3] == 0);
            assert(j.length() == 0) by {
                assert(j.bytes[j.pos] == eight[0]);
                assert(j.bytes[j.pos + 1] == eight[1]);
                assert(j.bytes[j.pos + 2] == eight[2]);
                assert(j.bytes[j.pos + 3] == eight[3]);
            }
        }
    }
}

/// The records of a journal from `pos` on that is made of whole records, each padded to
/// eight bytes, and of zero words: all of them, in order. `None` for another journal.
pub open spec fn records_from(journal: Seq<u8>, pos: int) -> Option<Seq<UsnRecordView>>
    decreases journal.len() - pos,
{
    let length = bytes::u32_at(journal, pos) as int;
    if pos >= journal.len() {
        if pos == journal.len() {
            Some(Seq::empty())
        } else {
            None
        }
    } else if bytes::has_at(journal, pos, bytes::zeros(8)) {
        records_from(journal, pos + 8)
    } else if 8 <= length <= WINDOW && pos + aligned(length) <= journal.len() {
        match decoded(journal.subrange(pos, pos + length)) {
            Some(found) => match records_from(journal, pos + aligned(length)) {
                Some(rest) => Some(seq![found] + rest),
                None => None,
            },
            None => None,
        }
    } else {
        None
    }
}

impl Journal {
    /// Every record that is still to come.
    pub open spec fn drained(self) -> Seq<UsnRecordView>
        decreases self.bytes.len() - self.end, self.end + 16 - self.pos,
    {
        if !self.ok() {
            Seq::empty()
        } else {
            match self.next().0 {
                Some(found) => {
                    proof {
                        law_each_record_moves_the_reader_on(self);
                        law_returned_records_stand_in_the_journal(self);
                    }
                    seq![found] + self.next().1.drained()
                },
                None => Seq::empty(),
            }
        }
    }

    /// Whether the window is as full as it can be and begins on an eight-byte boundary,
    /// as does the position in it.
    pub open spec fn in_step(self) -> bool {
        &&& self.ok()
        &&& !self.done
        &&& self.start % 8 == 0
        &&& self.pos % 8 == 0
        &&& self.pos <= self.end
        &&& self.end == self.window_end(self.start) || self.end == self.start
    }
}

proof fn lemma_tidy_length(journal: Seq<u8>, pos: int)
    requires
        pos % 8 == 0,
        records_from(journal, pos) is Some,
    ensures
        journal.len() % 8 == 0,
    decreases journal.len() - pos,
{
    let length = bytes::u32_at(journal, pos) as int;
    if pos < journal.len() {
        if bytes::has_at(journal, pos, bytes::zeros(8)) {
            lemma_tidy_length(journal, pos + 8);
        } else {
            lemma_tidy_length(journal, pos + aligned(length));
        }
    }
}

/// Skipping passes over no record.
proof fn lemma_skipping_keeps_records(j: Journal)
    requires
        j.in_step(),
        j.bytes.len() % 8 == 0,
        records_from(j.bytes, j.pos) is Some,
    ensures
        j.skipped().1 ==> {
            let k = j.skipped().0;
            &&& k.in_step()
            &&& !k.at_zeroes()
            &&& k.pos + 8 <= k.end
            &&& records_from(j.bytes, k.pos) == records_from(j.bytes, j.pos)
        },
        !j.skipped().1 ==> records_from(j.bytes, j.pos) == Some(Seq::<UsnRecordView>::empty()),
    decreases j.bytes.len() - j.end, j.end + 16 - j.pos,
{
    if j.pos + 8 <= j.end {
        if j.at_zeroes() {
            lemma_skipping_keeps_records(j.moved(8));
        }
    } else {
        assert(j.pos == j.end);
        if j.filled().1 {
            lemma_skipping_keeps_records(j.filled().0);
        }
    }
}

/// A step at a record of a journal of whole records takes that record.
proof fn lemma_step_takes_the_first(k: Journal)
    requires
        k.in_step(),
        k.bytes.len() % 8 == 0,
        k.pos + 8 <= k.end,
        !k.at_zeroes(),
        records_from(k.bytes, k.pos) is Some,
    ensures
        k.step().0 is Some,
        k.step().1.in_step(),
        k.step().1.bytes == k.bytes,
        records_from(k.bytes, k.step().1.pos) is Some,
        records_from(k.bytes, k.pos)->0 == seq![k.step().0->0] + records_from(
            k.bytes,
            k.step().1.pos,
        )->0,
{
    let length = k.length();
    assert(8 <= length <= WINDOW);
    assert(k.pos + aligned(length) <= k.bytes.len());
    assert(length <= aligned(length) < length + 8 && aligned(length) % 8 == 0);
    if k.fits() {
        assert(k.pos + aligned(length) <= k.end);
    } else {
        assert(k.start < k.pos);
        let (next, more) = k.filled();
        assert(more && next.pos == k.pos && next.pos + length <= next.end);
        assert(next.pos + aligned(length) <= next.end);
    }
}

/// The next record of a journal of whole records is the first that is left.
proof fn lemma_next_is_the_first(j: Journal)
    requires
        j.in_step(),
        j.bytes.len() % 8 == 0,
        records_from(j.bytes, j.pos) is Some,
    ensures
        match j.next().0 {
            Some(found) => {
                let after = j.next().1;
                &&& after.in_step()
                &&& after.bytes == j.bytes
                &&& records_from(j.bytes, after.pos) matches Some(rest) && records_from(
                    j.bytes,
                    j.pos,
                ) == Some(seq![found] + rest)
            },
            None => records_from(j.bytes, j.pos) == Some(Seq::<UsnRecordView>::empty()),
        },
{
    let k = j.ready().0;
    if j.ready().1 {
        assert(k.in_step() && k.pos == j.pos && k.bytes == j.bytes);
        lemma_skipping_keeps_records(k);
        lemma_skipped_advances(k);
        let (found, more) = k.skipped();
        if more {
            lemma_step_takes_the_first(found);
        }
    } else {
        assert(j.pos == j.bytes.len());
    }
}

proof fn lemma_draining_keeps_records(j: Journal)
    requires
        j.in_step(),
        j.bytes.len() % 8 == 0,
        records_from(j.bytes, j.pos) is Some,
    ensures
        records_from(j.bytes, j.pos) == Some(j.drained()),
    decreases j.bytes.len() - j.end, j.end + 16 - j.pos,
{
    lemma_next_is_the_first(j);
    law_each_record_moves_the_reader_on(j);
    law_returned_records_stand_in_the_journal(j);
    if j.next().0 is Some {
        lemma_draining_keeps_records(j.next().1);
    }
}

/// No record is lost, repeated or reordered: a journal of whole records and zero words,
/// read from its start, yields exactly its records in order, wherever the windows fall.
pub proof fn law_every_record_is_read_once_in_order(journal: Seq<u8>)
    requires
        records_from(journal, 0) is Some,
    ensures
        records_from(journal, 0) == Some(
            (Journal { bytes: journal, start: 0, pos: 0, end: 0, done: false }).drained(),
        ),
{
    let j = Journal { bytes: journal, start: 0, pos: 0, end: 0, done: false };
    lemma_tidy_length(journal, 0);
    lemma_draining_keeps_records(j);
}

/// Streaming reader of the USN records in a source.
pub struct UsnJournalReader<R: ByteSource> {
    reader: R,
    buf: Vec<u8>,
    buf_offset: usize,
    stream_pos: u64,
    total_size: u64,
    done: bool,
}

impl<R: ByteSource> View for UsnJournalReader<R> {
    type V = Journal;

    closed spec fn view(&self) -> Journal {
        Journal {
            bytes: self.reader.bytes(),
            start: self.stream_pos - self.buf@.len(),
            pos: self.stream_pos - self.buf@.len() + self.buf_offset,
            end: self.stream_pos as int,
            done: self.done,
        }
    }
}

/// Decodes the record in a frame.
fn decode_frame(frame: &[u8]) -> (r: Option<UsnRecord>)
    requires
        frame@.len() >= 8,
    ensures
        match r {
            Some(found) => decoded(frame@) == Some(found@),
            None => decoded(frame@) is None,
        },
{
    proof {
        reveal(decoded);
    }
    let version: u16 = bytes::le_u16(frame, 4);
    let outcome = match version {
        2 => record::parse_usn_record_v2(frame),
        3 => record::parse_usn_record_v3(frame),
        _ => {
            return None;
        },
    };
    match outcome {
        Ok(found) => Some(found),
        Err(_) => None,
    }
}

impl<R: ByteSource> UsnJournalReader<R> {
    /// Whether the underlying source may fail on its own.
    pub closed spec fn flaky(&self) -> bool {
        self.reader.flaky()
    }

    /// Whether the buffer holds the window of the journal that the reader is at.
    pub closed spec fn wf(&self) -> bool {
        &&& self@.ok()
        &&& self.total_size == self.reader.bytes().len()
        &&& self.buf@ == self.reader.bytes().subrange(self@.start, self@.end)
    }

    /// Creates a streaming reader, recording the source's total length.
    ///
    /// # Errors
    ///
    /// [`NtfsError::Io`] if the source cannot be sized.
    pub fn new(reader: R) -> (r: Result<Self, NtfsError>)
        ensures
            match r {
                Ok(journal) => {
                    &&& journal.wf()
                    &&& journal.flaky() == reader.flaky()
                    &&& journal@ == (Journal {
                        bytes: reader.bytes(),
                        start: 0,
                        pos: 0,
                        end: 0,
                        done: false,
                    })
                },
                Err(e) => reader.flaky() && source::source_failed(e),
            },
    {
        let mut reader = reader;
        let total_size: u64 = match reader.size() {
            Ok(size) => size,
            Err(e) => {
                return Err(e);
            },
        };
        let buf: Vec<u8> = Vec::new();
        assert(buf@ =~= reader.bytes().subrange(0, 0));
        Ok(
            UsnJournalReader {
                reader,
                buf,
                buf_offset: 0,
                stream_pos: 0,
                total_size,
                done: false,
            },
        )
    }

    /// Moves the window on; `false` when the journal has no more bytes.
    fn fill_buffer(&mut self) -> (r: Result<bool, NtfsError>)
        requires
            old(self).wf(),
        ensures
            final(self).wf(),
            final(self).flaky() == old(self).flaky(),
            final(self)@.bytes == old(self)@.bytes,
            match r {
                Ok(more) => (final(self)@, more) == old(self)@.filled(),
                Err(e) => {
                    &&& old(self).flaky()
                    &&& source::source_failed(e)
                    &&& final(self)@.end == old(self)@.end
                    &&& final(self)@.done == old(self)@.done
                    &&& final(self)@.pos <= final(self)@.end
                    &&& final(self)@.pos >= old(self)@.pos || final(self)@.pos
                        == final(self)@.end
                },
            },
    {
        if self.stream_pos >= self.total_size {
            self.done = true;
            return Ok(false);
        }
        let ghost before = self@;
        let mut kept: Vec<u8> = Vec::new();
        if self.buf_offset > 0 && self.buf_offset < self.buf.len() {
            kept = vstd::slice::slice_to_vec(
                vstd::slice::slice_subrange(
                    self.buf.as_slice(),
                    self.buf_offset,
                    self.buf.len(),
                ),
            );
            assert(kept@ =~= before.bytes.subrange(before.pos, before.end));
        } else {
            assert(kept@ =~= before.bytes.subrange(before.end, before.end));
        }
        self.buf = kept;
        self.buf_offset = 0;
        let room: usize = WINDOW - self.buf.len();
        let mut found = match self.reader.read_at(self.stream_pos, room) {
            Ok(found) => found,
            Err(e) => {
                return Err(e);
            },
        };
        let n: usize = found.len();
        if n == 0 {
            self.done = true;
            return Ok(self.buf.len() > 0);
        }
        self.buf.append(&mut found);
        self.stream_pos = self.stream_pos + n as u64;
        assert(self.buf@ =~= self.reader.bytes().subrange(self@.start, self@.end));
        Ok(true)
    }

    /// Moves past zeroes, eight bytes at a time; `false` when nothing else follows.
    fn skip_zeros(&mut self) -> (r: Result<bool, NtfsError>)
        requires
            old(self).wf(),
        ensures
            final(self).wf(),
            final(self).flaky() == old(self).flaky(),
            final(self)@.bytes == old(self)@.bytes,
            match r {
                Ok(more) => (final(self)@, more) == old(self)@.skipped(),
                Err(e) => old(self).flaky() && source::source_failed(e),
            },
    {
        loop
            invariant
                self.wf(),
                self.flaky() == old(self).flaky(),
                self@.bytes == old(self)@.bytes,
                self@.skipped() == old(self)@.skipped(),
            decreases self.total_size - self.stream_pos, self.buf@.len() + 16 - self.buf_offset,
        {
            if self.buf_offset + 8 <= self.buf.len() {
                if !self.zeroes_here() {
                    return Ok(true);
                }
                self.buf_offset = self.buf_offset + 8;
            } else {
                match self.fill_buffer() {
                    Ok(more) => {
                        if !more {
                            return Ok(false);
                        }
                    },
                    Err(e) => {
                        return Err(e);
                    },
                }
            }
        }
    }

    /// Whether the next eight bytes are zero.
    fn zeroes_here(&self) -> (r: bool)
        requires
            self.wf(),
            self.buf_offset + 8 <= self.buf@.len(),
        ensures
            r == self@.at_zeroes(),
    {
        let at: usize = self.buf_offset;
        let ghost eight = self@.bytes.subrange(self@.pos, self@.pos + 8);
        assert(forall|k: int| 0 <= k < 8 ==> self.buf@[at + k] == #[trigger] eight[k]);
        let mut i: usize = 0;
        while i < 8
            invariant
                i <= 8,
                at == self.buf_offset,
                self.wf(),
                at + 8 <= self.buf@.len(),
                eight == self@.bytes.subrange(self@.pos, self@.pos + 8),
                forall|k: int| 0 <= k < 8 ==> self.buf@[at + k] == #[trigger] eight[k],
                forall|k: int| 0 <= k < i ==> #[trigger] eight[k] == 0,
            decreases 8 - i,
        {
            if self.buf[at + i] != 0 {
                proof {
                    assert(eight[i as int] != 0);
                    assert(bytes::zeros(8)[i as int] == 0);
                }
                return false;
            }
            assert(eight[i as int] == 0);
            i += 1;
        }
        assert(eight =~= bytes::zeros(8));
        true
    }

    /// Moves the window on until it holds `length` bytes at the position; `false` when it
    /// cannot.
    fn reach(&mut self, length: usize) -> (r: bool)
        requires
            old(self).wf(),
            old(self)@.pos + 8 <= old(self)@.end,
            8 <= length <= WINDOW,
        ensures
            final(self).wf(),
            final(self).flaky() == old(self).flaky(),
            final(self)@.bytes == old(self)@.bytes,
            final(self)@.pos <= final(self)@.end,
            final(self)@.end > old(self)@.end || (final(self)@.end == old(self)@.end
                && final(self)@.pos >= old(self)@.pos),
            r ==> final(self)@.pos + length <= final(self)@.end,
            !old(self).flaky() ==> if old(self)@.pos + length <= old(self)@.end {
                r && final(self)@ == old(self)@
            } else {
                let (next, more) = old(self)@.filled();
                final(self)@ == next && r == (more && next.pos + length <= next.end)
            },
    {
        if self.buf_offset + length <= self.buf.len() {
            return true;
        }
        match self.fill_buffer() {
            Ok(more) => more && self.buf_offset + length <= self.buf.len(),
            Err(_) => false,
        }
    }

    /// Moves to the next thing that is not zero; `false` when there is none.
    fn locate(&mut self) -> (r: Result<bool, NtfsError>)
        requires
            old(self).wf(),
        ensures
            final(self).wf(),
            final(self).flaky() == old(self).flaky(),
            final(self)@.bytes == old(self)@.bytes,
            match r {
                Ok(more) => (final(self)@, more) == old(self)@.located(),
                Err(e) => old(self).flaky() && source::source_failed(e),
            },
    {
        if self.buf_offset >= self.buf.len() {
            match self.fill_buffer() {
                Ok(more) => {
                    if !more {
                        return Ok(false);
                    }
                },
                Err(e) => {
                    return Err(e);
                },
            }
        }
        self.skip_zeros()
    }

    /// Takes one step at something that is not zero.
    fn take_step(&mut self) -> (r: Option<UsnRecord>)
        requires
            old(self).wf(),
            old(self)@.pos + 8 <= old(self)@.end,
        ensures
            final(self).wf(),
            final(self).flaky() == old(self).flaky(),
            final(self)@.bytes == old(self)@.bytes,
            final(self)@.end > old(self)@.end || (final(self)@.end == old(self)@.end
                && final(self)@.pos > old(self)@.pos),
            match r {
                Some(found) => stands_in(old(self)@.bytes, found@) && (!old(self).flaky() ==> old(
                    self,
                )@.step() == (Some(found@), final(self)@)),
                None => !old(self).flaky() ==> old(self)@.step() == (
                    None::<UsnRecordView>,
                    final(self)@,
                ),
            },
    {
        proof {
            lemma_record_fields(self);
        }
        let length: usize = bytes::le_u32(self.buf.as_slice(), self.buf_offset) as usize;
        if length < 8 || length > WINDOW {
            self.buf_offset = self.buf_offset + 8;
            return None;
        }
        if !self.reach(length) {
            self.buf_offset = self.buf_offset + 8;
            return None;
        }
        self.take_frame(length)
    }

    /// Decodes the `length` bytes at the position, and moves past them and their padding.
    fn take_frame(&mut self, length: usize) -> (r: Option<UsnRecord>)
        requires
            old(self).wf(),
            8 <= length <= WINDOW,
            old(self)@.pos + length <= old(self)@.end,
        ensures
            final(self).wf(),
            final(self).flaky() == old(self).flaky(),
            final(self)@ == old(self)@.moved(aligned(length as int)),
            match r {
                Some(found) => {
                    &&& decoded(
                        old(self)@.bytes.subrange(old(self)@.pos, old(self)@.pos + length),
                    ) == Some(found@)
                    &&& stands_in(old(self)@.bytes, found@)
                },
                None => decoded(
                    old(self)@.bytes.subrange(old(self)@.pos, old(self)@.pos + length),
                ) is None,
            },
    {
        let at: usize = self.buf_offset;
        let frame = vstd::slice::slice_subrange(self.buf.as_slice(), at, at + length);
        assert(frame@ =~= self@.bytes.subrange(self@.pos, self@.pos + length));
        let outcome = decode_frame(frame);
        self.buf_offset = at + (length + 7) / 8 * 8;
        outcome
    }

    /// The next record; `None` when the journal has no more.
    ///
    /// A length that no record has, and a record that does not parse, are passed over. A
    /// source that fails while a record is being completed costs that record alone.
    pub fn next(&mut self) -> (r: Option<Result<UsnRecord, NtfsError>>)
        requires
            old(self).wf(),
        ensures
            final(self).wf(),
            final(self).flaky() == old(self).flaky(),
            final(self)@.bytes == old(self)@.bytes,
            old(self)@.done ==> r is None && final(self)@ == old(self)@,
            r is None ==> final(self)@.done,
            match r {
                Some(Ok(found)) => stands_in(old(self)@.bytes, found@) && (!old(self).flaky()
                    ==> old(self)@.next() == (Some(found@), final(self)@)),
                Some(Err(e)) => old(self).flaky() && source::source_failed(e),
                None => !old(self).flaky() ==> old(self)@.next() == (
                    None::<UsnRecordView>,
                    final(self)@,
                ),
            },
    {
        loop
            invariant
                self.wf(),
                self.flaky() == old(self).flaky(),
                self@.bytes == old(self)@.bytes,
                !old(self).flaky() ==> self@.next() == old(self)@.next(),
                old(self)@.done ==> self@ == old(self)@,
            decreases self.total_size - self.stream_pos, self.buf@.len() + 16 - self.buf_offset,
        {
            if self.done {
                return None;
            }
            proof {
                lemma_located_advances(self@);
            }
            match self.locate() {
                Ok(more) => {
                    if !more {
                        return None;
                    }
                },
                Err(e) => {
                    return Some(Err(e));
                },
            }
            match self.take_step() {
                Some(found) => {
                    return Some(Ok(found));
                },
                None => {},
            }
        }
    }
}

/// The length field in the buffer is the one in the journal.
proof fn lemma_record_fields<R: ByteSource>(reader: &UsnJournalReader<R>)
    requires
        reader.wf(),
        reader@.pos + 8 <= reader@.end,
    ensures
        reader.buf_offset + 8 <= reader.buf@.len(),
        bytes::u32_at(reader.buf@, reader.buf_offset as int) == reader@.length(),
{
}

/// What was written to a journal at one place: eight zero bytes, or a record of a version,
/// with its length and where its name stands in it.
pub enum Written {
    Gap,
    Entry { record: UsnRecordView, length: int, name_at: int, name_length: int },
}

/// Whether a record of version 2 or 3 is written in `frame`, which is all of it.
pub open spec fn holds_record(
    frame: Seq<u8>,
    r: UsnRecordView,
    name_at: int,
    name_length: int,
) -> bool {
    let fixed = if r.major_version == 2 {
        0x3Cint
    } else {
        0x4Cint
    };
    &&& r.file.record_number < 0x1_0000_0000_0000
    &&& r.parent.record_number < 0x1_0000_0000_0000
    &&& r.major_version == 2 || r.major_version == 3
    &&& r.major_version == 2 ==> record::holds_v2(frame, r, name_at, name_length)
    &&& r.major_version == 3 ==> record::holds_v3(frame, r, name_at, name_length)
    &&& record::is_framed(frame, frame.len() as int, fixed, name_at, name_length)
    &&& r.filename == text::utf16le_text(frame.subrange(name_at, name_at + name_length))
}

/// Whether `items` are written in `journal` from `pos` to its end, each record padded to a
/// multiple of eight bytes.
pub open spec fn is_written(journal: Seq<u8>, pos: int, items: Seq<Written>) -> bool
    decreases items.len(),
{
    if items.len() == 0 {
        pos == journal.len()
    } else {
        match items[0] {
            Written::Gap => {
                &&& pos + 8 <= journal.len()
                &&& forall|i: int| pos <= i < pos + 8 ==> #[trigger] journal[i] == 0
                &&& is_written(journal, pos + 8, items.skip(1))
            },
            Written::Entry { record, length, name_at, name_length } => {
                let padding = (8 - length % 8) % 8;
                &&& 0 < length <= 0x1_0000
                &&& pos + length + padding <= journal.len()
                &&& holds_record(journal.subrange(pos, pos + length), record, name_at, name_length)
                &&& is_written(journal, pos + length + padding, items.skip(1))
            },
        }
    }
}

/// The records among what was written, in order.
pub open spec fn written_records(items: Seq<Written>) -> Seq<UsnRecordView>
    decreases items.len(),
{
    if items.len() == 0 {
        Seq::empty()
    } else {
        match items[0] {
            Written::Gap => written_records(items.skip(1)),
            Written::Entry { record, .. } => seq![record] + written_records(items.skip(1)),
        }
    }
}

proof fn lemma_written_frame(frame: Seq<u8>, r: UsnRecordView, name_at: int, name_length: int)
    requires
        holds_record(frame, r, name_at, name_length),
    ensures
        decoded(frame) == Some(r),
        bytes::u32_at(frame, 0) == frame.len(),
        frame.len() >= 0x3C,
{
    reveal(decoded);
    bytes::law_numbers_read_back(frame, 0, frame.len());
    let length = frame.len() as int;
    if r.major_version == 2 {
        bytes::law_numbers_read_back(frame, 4, 2);
        record::law_written_v2_records_parse_back(frame, r, length, name_at, name_length);
    } else {
        bytes::law_numbers_read_back(frame, 4, 3);
        record::law_written_v3_records_parse_back(frame, r, length, name_at, name_length);
    }
}

proof fn lemma_written_gap(journal: Seq<u8>, pos: int)
    requires
        0 <= pos,
        pos + 8 <= journal.len(),
        forall|i: int| pos <= i < pos + 8 ==> #[trigger] journal[i] == 0,
    ensures
        records_from(journal, pos) == records_from(journal, pos + 8),
{
    assert(journal.subrange(pos, pos + 8) =~= bytes::zeros(8));
}

proof fn lemma_written_entry(
    journal: Seq<u8>,
    pos: int,
    length: int,
    r: UsnRecordView,
    name_at: int,
    name_length: int,
)
    requires
        0 <= pos,
        0 < length <= 0x1_0000,
        pos + length + (8 - length % 8) % 8 <= journal.len(),
        holds_record(journal.subrange(pos, pos + length), r, name_at, name_length),
        records_from(journal, pos + length + (8 - length % 8) % 8) is Some,
    ensures
        records_from(journal, pos) == Some(
            seq![r] + records_from(journal, pos + length + (8 - length % 8) % 8)->0,
        ),
{
    let frame = journal.subrange(pos, pos + length);
    lemma_written_frame(frame, r, name_at, name_length);
    assert(frame[0] == journal[pos] && frame[1] == journal[pos + 1] && frame[2] == journal[pos + 2]
        && frame[3] == journal[pos + 3]);
    assert(bytes::u32_at(journal, pos) == length);
    assert(length + (8 - length % 8) % 8 == aligned(length));
    if bytes::has_at(journal, pos, bytes::zeros(8)) {
        let eight = journal.subrange(pos, pos + 8);
        assert(eight[0] == 0 && eight[1] == 0 && eight[2] == 0 && eight[3] == 0);
        assert(eight[0] == journal[pos] && eight[1] == journal[pos + 1] && eight[2] == journal[pos
            + 2] && eight[3] == journal[pos + 3]);
    }
}

proof fn lemma_written_journal(journal: Seq<u8>, pos: int, items: Seq<Written>)
    requires
        0 <= pos,
        is_written(journal, pos, items),
    ensures
        records_from(journal, pos) == Some(written_records(items)),
    decreases items.len(),
{
    if items.len() > 0 {
        match items[0] {
            Written::Gap => {
                lemma_written_journal(journal, pos + 8, items.skip(1));
                lemma_written_gap(journal, pos);
            },
            Written::Entry { record, length, name_at, name_length } => {
                let padding = (8 - length % 8) % 8;
                lemma_written_journal(journal, pos + length + padding, items.skip(1));
                lemma_written_entry(journal, pos, length, record, name_at, name_length);
            },
        }
    }
}

/// What was written is what is read: the records of both versions come back with their
/// fields, all of them and in order, over any gaps and wherever the windows fall.
pub proof fn law_written_journals_are_read_back(journal: Seq<u8>, items: Seq<Written>)
    requires
        is_written(journal, 0, items),
    ensures
        (Journal { bytes: journal, start: 0, pos: 0, end: 0, done: false }).drained()
            == written_records(items),
{
    lemma_written_journal(journal, 0, items);
    law_every_record_is_read_once_in_order(journal);
}

proof fn lemma_nonzero_length(j: Journal)
    requires
        j.ok(),
        j.pos + 8 <= j.end,
        j.length() != 0,
    ensures
        !j.at_zeroes(),
{
    if j.at_zeroes() {
        let eight = j.bytes.subrange(j.pos, j.pos + 8);
        assert(eight[0] == 0 && eight[1] == 0 && eight[2] == 0 && eight[3] == 0);
        assert(eight[0] == j.bytes[j.pos] && eight[1] == j.bytes[j.pos + 1] && eight[2]
            == j.bytes[j.pos + 2] && eight[3] == j.bytes[j.pos + 3]);
    }
}

proof fn lemma_empty_step_is_passed(j: Journal)
    requires
        j.ok(),
        !j.done,
        j.pos + 8 <= j.end,
        j.length() != 0,
        j.step().0 is None,
    ensures
        j.next() == j.step().1.next(),
{
    lemma_nonzero_length(j);
    assert(j.located() == (j, true));
}

/// A length that no record can have is passed over eight bytes at a time, and what follows
/// is still found.
pub proof fn law_an_impossible_length_costs_eight_bytes(j: Journal, length: u32)
    requires
        j.ok(),
        !j.done,
        j.pos + 8 <= j.end,
        bytes::spells(j.bytes, j.pos, 4, length as nat),
        0 < length < 8 || length > 0x1_0000,
    ensures
        j.next() == (Journal { pos: j.pos + 8, ..j }).next(),
{
    bytes::law_numbers_read_back(j.bytes, j.pos, length as nat);
    lemma_empty_step_is_passed(j);
}

proof fn lemma_other_versions_do_not_decode(frame: Seq<u8>, version: u16)
    requires
        bytes::spells(frame, 4, 2, version as nat),
        version != 2,
        version != 3,
    ensures
        decoded(frame) is None,
{
    reveal(decoded);
    bytes::law_numbers_read_back(frame, 4, version as nat);
}

/// A record of another version is passed over whole, with its padding, and what follows is
/// still found.
pub proof fn law_other_versions_are_passed_over(j: Journal, length: u32, version: u16)
    requires
        j.ok(),
        !j.done,
        8 <= length <= 0x1_0000,
        j.pos + length <= j.end,
        bytes::spells(j.bytes.subrange(j.pos, j.pos + length), 0, 4, length as nat),
        bytes::spells(j.bytes.subrange(j.pos, j.pos + length), 4, 2, version as nat),
        version != 2,
        version != 3,
    ensures
        j.next() == (Journal { pos: j.pos + length + (8 - length as int % 8) % 8, ..j }).next(),
{
    let frame = j.bytes.subrange(j.pos, j.pos + length);
    bytes::law_numbers_read_back(frame, 0, length as nat);
    assert(frame[0] == j.bytes[j.pos] && frame[1] == j.bytes[j.pos + 1] && frame[2]
        == j.bytes[j.pos + 2] && frame[3] == j.bytes[j.pos + 3]);
    assert(j.length() == length);
    lemma_other_versions_do_not_decode(frame, version);
    lemma_empty_step_is_passed(j);
    assert(aligned(length as int) == length + (8 - length as int % 8) % 8);
}

} // verus!
