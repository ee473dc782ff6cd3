//! MFT file-record-segment header parsing and update-sequence-array (fixup).
//!
//! Every `$MFT` entry is a fixed-size *file record segment* (typically 1024 bytes)
//! beginning with a `FILE` signature. To protect against torn writes, NTFS replaces
//! the last two bytes of every sector with an incrementing **Update Sequence Number
//! (USN)**; the displaced originals are stored in the **Update Sequence Array
//! (USA)**. Reading a record means verifying that each sector still carries the
//! expected USN (a mismatch is a torn write or tampering) and restoring the
//! originals before the bytes are interpreted.

use vstd::prelude::*;
use crate::bytes;
use crate::error::NtfsError;
use crate::layout;

verus! {

/// Bytes required to read the full record header (through the record number at 0x2C).
pub const HEADER_LEN: usize = 0x30;

/// Parsed MFT file-record-segment header.
#[derive(Debug, Clone, PartialEq, Eq)]
pub struct MftRecordHeader {
    /// Record signature: `FILE` (normal) or `BAAD` (chkdsk marked it corrupt).
    pub signature: [u8; 4],
    /// Byte offset of the Update Sequence Array within the record.
    pub usa_offset: u16,
    /// Number of u16 entries in the USA (1 USN + one original per sector).
    pub usa_count: u16,
    /// `$LogFile` sequence number of the last change to this record.
    pub lsn: u64,
    /// Reuse counter, incremented each time this record number is reallocated.
    pub sequence_number: u16,
    /// Number of hard links (`$FILE_NAME` attributes) to this record.
    pub hard_link_count: u16,
    /// Byte offset of the first attribute.
    pub first_attribute_offset: u16,
    /// Record flags (see `is_in_use` and `is_directory`).
    pub flags: u16,
    /// Bytes of the record actually used.
    pub used_size: u32,
    /// Bytes allocated to the record (the record size).
    pub allocated_size: u32,
    /// File reference to the base record (0 when this *is* the base record).
    pub base_record: u64,
    /// Id to assign to the next attribute added.
    pub next_attr_id: u16,
    /// This record's own number (Windows XP and later).
    pub record_number: u32,
}

/// The header that the bytes of a record hold.
pub open spec fn header_of(buf: Seq<u8>) -> MftRecordHeader {
    MftRecordHeader {
        signature: bytes::quad_at(buf, 0),
        usa_offset: bytes::u16_at(buf, 0x04),
        usa_count: bytes::u16_at(buf, 0x06),
        lsn: bytes::u64_at(buf, 0x08),
        sequence_number: bytes::u16_at(buf, 0x10),
        hard_link_count: bytes::u16_at(buf, 0x12),
        first_attribute_offset: bytes::u16_at(buf, 0x14),
        flags: bytes::u16_at(buf, 0x16),
        used_size: bytes::u32_at(buf, 0x18),
        allocated_size: bytes::u32_at(buf, 0x1C),
        base_record: bytes::u64_at(buf, 0x20),
        next_attr_id: bytes::u16_at(buf, 0x28),
        record_number: bytes::u32_at(buf, 0x2C),
    }
}

/// The outcome of parsing a record header: the fields, unless the buffer is too short
/// or signed neither `FILE` nor `BAAD`.
pub open spec fn parsed_header(buf: Seq<u8>) -> Result<MftRecordHeader, NtfsError> {
    if buf.len() < HEADER_LEN {
        Err(
            NtfsError::TooShort {
                what: "MFT record header",
                need: HEADER_LEN,
                got: buf.len() as usize,
            },
        )
    } else if !bytes::has_at(buf, 0, layout::SIGNATURE_FILE@) && !bytes::has_at(
        buf,
        0,
        layout::SIGNATURE_BAAD@,
    ) {
        Err(NtfsError::BadRecordSignature(bytes::quad_at(buf, 0)))
    } else {
        Ok(header_of(buf))
    }
}

impl MftRecordHeader {
    /// Whether the in-use flag is set.
    pub open spec fn in_use(self) -> bool {
        self.flags & layout::RECORD_IN_USE != 0
    }

    /// Whether the directory flag is set.
    pub open spec fn directory(self) -> bool {
        self.flags & layout::RECORD_DIRECTORY != 0
    }

    /// `true` if the record is currently allocated (in use).
    #[must_use]
    pub fn is_in_use(&self) -> (r: bool)
        ensures
            r == self.in_use(),
    {
        self.flags & layout::RECORD_IN_USE != 0
    }

    /// `true` if the record describes a directory.
    #[must_use]
    pub fn is_directory(&self) -> (r: bool)
        ensures
            r == self.directory(),
    {
        self.flags & layout::RECORD_DIRECTORY != 0
    }

    /// `true` if this is a base record (not an extension/child record).
    #[must_use]
    pub fn is_base_record(&self) -> (r: bool)
        ensures
            r == (self.base_record == 0),
    {
        self.base_record == 0
    }

    /// `true` if chkdsk marked this record corrupt (`BAAD` signature).
    #[must_use]
    pub fn is_corrupt(&self) -> (r: bool)
        ensures
            r == (self.signature@ == layout::SIGNATURE_BAAD@),
            r == (self.signature@ == seq![0x42u8, 0x41, 0x41, 0x44]),
    {
        let r = bytes::quad_is(self.signature.as_slice(), 0, layout::SIGNATURE_BAAD);
        assert(layout::SIGNATURE_BAAD@ =~= seq![0x42u8, 0x41, 0x41, 0x44]);
        assert(self.signature@.subrange(0, 4) =~= self.signature@);
        r
    }

    /// Parses a record header from the start of a record buffer.
    ///
    /// Does not apply the fixup (the header fields all precede the first sector
    /// boundary). Validates the `FILE`/`BAAD` signature.
    ///
    /// # Errors
    ///
    /// [`NtfsError::TooShort`] if `buf` is smaller than the header, or
    /// [`NtfsError::BadRecordSignature`] for an unrecognised signature.
    pub fn parse(buf: &[u8]) -> (r: Result<MftRecordHeader, NtfsError>)
        ensures
            r == parsed_header(buf@),
    {
        if buf.len() < HEADER_LEN {
            return Err(
                NtfsError::TooShort {
                    what: "MFT record header",
                    need: HEADER_LEN,
                    got: buf.len(),
                },
            );
        }
        let signature = bytes::quad(buf, 0);
        if !bytes::quad_is(buf, 0, layout::SIGNATURE_FILE) && !bytes::quad_is(
            buf,
            0,
            layout::SIGNATURE_BAAD,
        ) {
            return Err(NtfsError::BadRecordSignature(signature));
        }
        Ok(
            MftRecordHeader {
                signature,
                usa_offset: bytes::le_u16(buf, 0x04),
                usa_count: bytes::le_u16(buf, 0x06),
                lsn: bytes::le_u64(buf, 0x08),
                sequence_number: bytes::le_u16(buf, 0x10),
                hard_link_count: bytes::le_u16(buf, 0x12),
                first_attribute_offset: bytes::le_u16(buf, 0x14),
                flags: bytes::le_u16(buf, 0x16),
                used_size: bytes::le_u32(buf, 0x18),
                allocated_size: bytes::le_u32(buf, 0x1C),
                base_record: bytes::le_u64(buf, 0x20),
                next_attr_id: bytes::le_u16(buf, 0x28),
                record_number: bytes::le_u32(buf, 0x2C),
            },
        )
    }
}

/// Where the protected last two bytes of sector `i` begin.
pub open spec fn sector_tail(sector_size: int, i: int) -> int {
    (i + 1) * sector_size - 2
}

/// Why the update sequence array of `buf` cannot be applied at all, if it cannot.
pub open spec fn usa_defect(buf: Seq<u8>, sector_size: int) -> Option<NtfsError> {
    let offset = bytes::u16_at(buf, 0x04) as int;
    let count = bytes::u16_at(buf, 0x06) as int;
    if buf.len() < HEADER_LEN {
        Some(
            NtfsError::TooShort { what: "MFT record", need: HEADER_LEN, got: buf.len() as usize },
        )
    } else if sector_size < 2 {
        Some(NtfsError::BadUpdateSequence("sector size smaller than 2 bytes"))
    } else if count == 0 {
        Some(NtfsError::BadUpdateSequence("usa_count is zero"))
    } else if offset + 2 * count > buf.len() {
        Some(NtfsError::BadUpdateSequence("usa extends past record"))
    } else if (count - 1) * sector_size > usize::MAX {
        Some(NtfsError::BadUpdateSequence("sector span overflow"))
    } else if (count - 1) * sector_size > buf.len() {
        Some(NtfsError::BadUpdateSequence("fixup sectors exceed record size"))
    } else {
        None
    }
}

/// `buf` after the two bytes at `from` were copied, one after the other, to `to`.
pub open spec fn copy_pair(buf: Seq<u8>, to: int, from: int) -> Seq<u8> {
    let half = buf.update(to, buf[from]);
    half.update(to + 1, half[from + 1])
}

/// Sectors `i..n` fixed up in order: each tail is checked against `usn` and then
/// replaced by its original from the array at `usa`. The walk stops at the first tail
/// that does not match; what was restored before stays restored.
pub open spec fn fixup_from(
    buf: Seq<u8>,
    sector_size: int,
    usa: int,
    usn: u16,
    i: int,
    n: int,
) -> (Seq<u8>, Result<(), NtfsError>)
    decreases n - i,
{
    let tail = sector_tail(sector_size, i);
    if i >= n {
        (buf, Ok(()))
    } else if bytes::u16_at(buf, tail) != usn {
        (
            buf,
            Err(
                NtfsError::FixupMismatch {
                    sector: i as usize,
                    expected: usn,
                    found: bytes::u16_at(buf, tail),
                },
            ),
        )
    } else {
        fixup_from(copy_pair(buf, tail, usa + 2 + 2 * i), sector_size, usa, usn, i + 1, n)
    }
}

/// The bytes after the update-sequence fixup, and whether it succeeded.
pub open spec fn fixup(buf: Seq<u8>, sector_size: int) -> (Seq<u8>, Result<(), NtfsError>) {
    match usa_defect(buf, sector_size) {
        Some(e) => (buf, Err(e)),
        None => {
            let usa = bytes::u16_at(buf, 0x04) as int;
            fixup_from(
                buf,
                sector_size,
                usa,
                bytes::u16_at(buf, usa),
                0,
                bytes::u16_at(buf, 0x06) - 1,
            )
        },
    }
}

/// A record with its fixup applied, or why it could not be.
pub open spec fn fixed_up(buf: Seq<u8>, sector_size: int) -> Result<Seq<u8>, NtfsError> {
    match fixup(buf, sector_size) {
        (after, Ok(_)) => Ok(after),
        (_, Err(e)) => Err(e),
    }
}

/// Applies the NTFS update-sequence-array fixup to a raw record buffer in place.
///
/// Verifies that each protected sector's last two bytes equal the USN, then restores
/// the displaced original bytes from the USA.
///
/// # Errors
///
/// [`NtfsError::FixupMismatch`] when a sector tail does not match the USN (torn write
/// / tampering), or [`NtfsError::BadUpdateSequence`] when the USA is malformed.
pub fn apply_fixup(buf: &mut [u8], sector_size: usize) -> (r: Result<(), NtfsError>)
    ensures
        (final(buf)@, r) == fixup(old(buf)@, sector_size as int),
        final(buf)@.len() == old(buf)@.len(),
{
    if buf.len() < HEADER_LEN {
        return Err(NtfsError::TooShort { what: "MFT record", need: HEADER_LEN, got: buf.len() });
    }
    if sector_size < 2 {
        return Err(NtfsError::BadUpdateSequence("sector size smaller than 2 bytes"));
    }
    let usa_offset: usize = bytes::le_u16(buf, 0x04) as usize;
    let usa_count: usize = bytes::le_u16(buf, 0x06) as usize;
    if usa_count == 0 {
        return Err(NtfsError::BadUpdateSequence("usa_count is zero"));
    }
    if usa_offset + 2 * usa_count > buf.len() {
        return Err(NtfsError::BadUpdateSequence("usa extends past record"));
    }
    let sectors: usize = usa_count - 1;
    let span: usize = match sectors.checked_mul(sector_size) {
        Some(s) => s,
        None => {
            return Err(NtfsError::BadUpdateSequence("sector span overflow"));
        },
    };
    if span > buf.len() {
        return Err(NtfsError::BadUpdateSequence("fixup sectors exceed record size"));
    }
    let usn: u16 = bytes::le_u16(buf, usa_offset);
    let whole: usize = buf.len();
    let mut i: usize = 0;
    while i < sectors
        invariant
            whole == buf@.len(),
            sector_size >= 2,
            i <= sectors,
            sectors * sector_size == span,
            span <= buf@.len(),
            usa_offset + 2 * (sectors + 1) <= buf@.len(),
            buf@.len() == old(buf)@.len(),
            fixup(old(buf)@, sector_size as int) == fixup_from(
                buf@,
                sector_size as int,
                usa_offset as int,
                usn,
                i as int,
                sectors as int,
            ),
        decreases sectors - i,
    {
        assert((i + 1) * sector_size <= sectors * sector_size) by (nonlinear_arith)
            requires
                i + 1 <= sectors,
                sector_size >= 2,
        ;
        assert((i + 1) * sector_size >= sector_size) by (nonlinear_arith)
            requires
                i >= 0,
                sector_size >= 2,
        ;
        let tail: usize = (i + 1) * sector_size - 2;
        let found: u16 = bytes::le_u16(buf, tail);
        if found != usn {
            return Err(NtfsError::FixupMismatch { sector: i, expected: usn, found });
        }
        let original: usize = usa_offset + 2 + 2 * i;
        let ghost before = buf@;
        let first: u8 = buf[original];
        buf[tail] = first;
        let second: u8 = buf[original + 1];
        buf[tail + 1] = second;
        assert(buf@ =~= copy_pair(before, tail as int, original as int));
        i += 1;
    }
    Ok(())
}

/// Whether `j` is one of the two protected bytes of a sector among the first `n`.
pub open spec fn in_some_tail(sector_size: int, n: int, j: int) -> bool {
    exists|i: int|
        0 <= i < n && (#[trigger] sector_tail(sector_size, i) == j || sector_tail(sector_size, i) + 1
            == j)
}

proof fn lemma_tail_in_span(sector_size: int, i: int, n: int)
    requires
        0 <= i < n,
        sector_size >= 2,
    ensures
        0 <= sector_tail(sector_size, i),
        sector_tail(sector_size, i) + 2 <= n * sector_size,
{
    assert((i + 1) * sector_size <= n * sector_size) by (nonlinear_arith)
        requires
            i + 1 <= n,
            sector_size >= 2,
    ;
    assert((i + 1) * sector_size >= sector_size) by (nonlinear_arith)
        requires
            i >= 0,
            sector_size >= 2,
    ;
}

proof fn lemma_fixup_from_frame(
    buf: Seq<u8>,
    sector_size: int,
    usa: int,
    usn: u16,
    i: int,
    n: int,
)
    requires
        0 <= i,
        sector_size >= 2,
        n * sector_size <= buf.len(),
    ensures
        ({
            let after = fixup_from(buf, sector_size, usa, usn, i, n).0;
            &&& after.len() == buf.len()
            &&& forall|j: int|
                0 <= j < buf.len() && !in_some_tail(sector_size, n, j) ==> #[trigger] after[j]
                    == buf[j]
        }),
    decreases n - i,
{
    let tail = sector_tail(sector_size, i);
    if i < n && bytes::u16_at(buf, tail) == usn {
        lemma_tail_in_span(sector_size, i, n);
        let next = copy_pair(buf, tail, usa + 2 + 2 * i);
        lemma_fixup_from_frame(next, sector_size, usa, usn, i + 1, n);
        assert forall|j: int|
            0 <= j < buf.len() && !in_some_tail(sector_size, n, j) implies #[trigger] fixup_from(
            buf,
            sector_size,
            usa,
            usn,
            i,
            n,
        ).0[j] == buf[j] by {
            assert(j != tail && j != tail + 1);
            assert(next[j] == buf[j]);
        }
    }
}

/// The fixup keeps the length of the record and touches nothing but the protected
/// sector tails, whether it succeeds or not.
pub proof fn law_fixup_touches_only_sector_tails(buf: Seq<u8>, sector_size: int)
    ensures
        fixup(buf, sector_size).0.len() == buf.len(),
        forall|j: int|
            0 <= j < buf.len() && !in_some_tail(sector_size, bytes::u16_at(buf, 0x06) - 1, j)
                ==> #[trigger] fixup(buf, sector_size).0[j] == buf[j],
{
    if usa_defect(buf, sector_size) is None {
        let usa = bytes::u16_at(buf, 0x04) as int;
        lemma_fixup_from_frame(
            buf,
            sector_size,
            usa,
            bytes::u16_at(buf, usa),
            0,
            bytes::u16_at(buf, 0x06) - 1,
        );
    }
}

/// Whether the update sequence array of `n + 1` entries at `usa` shares no byte with
/// the tails of the first `n` sectors.
pub open spec fn usa_clear_of_tails(sector_size: int, usa: int, n: int) -> bool {
    forall|j: int|
        usa <= j < usa + 2 * (n + 1) ==> !#[trigger] in_some_tail(sector_size, n, j)
}

proof fn lemma_tails_are_apart(sector_size: int, a: int, b: int)
    requires
        sector_size >= 2,
        a < b,
    ensures
        sector_tail(sector_size, a) + 2 <= sector_tail(sector_size, b),
{
    assert((a + 1) * sector_size + sector_size <= (b + 1) * sector_size) by (nonlinear_arith)
        requires
            a + 1 <= b,
            sector_size >= 2,
    ;
}

proof fn lemma_fixup_from_restores(
    buf: Seq<u8>,
    sector_size: int,
    usa: int,
    usn: u16,
    i: int,
    n: int,
)
    requires
        0 <= i,
        0 <= usa,
        sector_size >= 2,
        n * sector_size <= buf.len(),
        usa + 2 * (n + 1) <= buf.len(),
        usa_clear_of_tails(sector_size, usa, n),
    ensures
        ({
            let (after, outcome) = fixup_from(buf, sector_size, usa, usn, i, n);
            &&& outcome is Ok <==> forall|k: int|
                i <= k < n ==> bytes::u16_at(buf, #[trigger] sector_tail(sector_size, k)) == usn
            &&& outcome is Ok ==> forall|k: int|
                i <= k < n ==> bytes::u16_at(after, #[trigger] sector_tail(sector_size, k))
                    == bytes::u16_at(buf, usa + 2 + 2 * k)
            &&& forall|k: int|
                #![trigger sector_tail(sector_size, k)]
                0 <= k < i ==> after[sector_tail(sector_size, k)] == buf[sector_tail(
                    sector_size,
                    k,
                )] && after[sector_tail(sector_size, k) + 1] == buf[sector_tail(sector_size, k) + 1]
        }),
    decreases n - i,
{
    let tail = sector_tail(sector_size, i);
    if i < n && bytes::u16_at(buf, tail) == usn {
        lemma_tail_in_span(sector_size, i, n);
        let from = usa + 2 + 2 * i;
        let next = copy_pair(buf, tail, from);
        assert(in_some_tail(sector_size, n, tail));
        assert(in_some_tail(sector_size, n, tail + 1));
        assert(!in_some_tail(sector_size, n, from) && !in_some_tail(sector_size, n, from + 1));
        assert(from != tail && from + 1 != tail && from != tail + 1);
        lemma_fixup_from_restores(next, sector_size, usa, usn, i + 1, n);
        let (after, outcome) = fixup_from(next, sector_size, usa, usn, i + 1, n);
        assert forall|k: int| i + 1 <= k < n implies bytes::u16_at(
            next,
            #[trigger] sector_tail(sector_size, k),
        ) == bytes::u16_at(buf, sector_tail(sector_size, k)) by {
            lemma_tails_are_apart(sector_size, i, k);
            lemma_tail_in_span(sector_size, k, n);
        }
        assert forall|k: int| 0 <= k < n implies #[trigger] bytes::u16_at(next, usa + 2 + 2 * k)
            == bytes::u16_at(buf, usa + 2 + 2 * k) by {
            let p = usa + 2 + 2 * k;
            assert(!in_some_tail(sector_size, n, p) && !in_some_tail(sector_size, n, p + 1));
        }
        assert forall|k: int| #![trigger sector_tail(sector_size, k)] 0 <= k < i implies after[sector_tail(
            sector_size,
            k,
        )] == buf[sector_tail(sector_size, k)] && after[sector_tail(sector_size, k) + 1]
            == buf[sector_tail(sector_size, k) + 1] by {
            lemma_tails_are_apart(sector_size, k, i);
            lemma_tail_in_span(sector_size, k, n);
        }
        assert(next[tail] == buf[from] && next[tail + 1] == buf[from + 1]);
        if outcome is Ok {
            assert forall|k: int| i <= k < n implies bytes::u16_at(
                after,
                #[trigger] sector_tail(sector_size, k),
            ) == bytes::u16_at(buf, usa + 2 + 2 * k) by {
                if k == i {
                    assert(after[tail] == next[tail] && after[tail + 1] == next[tail + 1]);
                } else {
                    assert(bytes::u16_at(next, usa + 2 + 2 * k) == bytes::u16_at(
                        buf,
                        usa + 2 + 2 * k,
                    ));
                }
            }
            assert forall|k: int| i <= k < n implies bytes::u16_at(
                buf,
                #[trigger] sector_tail(sector_size, k),
            ) == usn by {
                if k > i {
                    assert(bytes::u16_at(next, sector_tail(sector_size, k)) == usn);
                }
            }
        }
    } else if i < n {
        assert(bytes::u16_at(buf, sector_tail(sector_size, i)) != usn);
    }
}

/// When the update sequence array lies clear of the sector tails, the fixup succeeds
/// if and only if every protected tail carries the update sequence number, and then
/// every tail holds the original that the array kept for it.
pub proof fn law_fixup_restores_the_originals(buf: Seq<u8>, sector_size: int)
    requires
        usa_defect(buf, sector_size) is None,
        usa_clear_of_tails(
            sector_size,
            bytes::u16_at(buf, 0x04) as int,
            bytes::u16_at(buf, 0x06) - 1,
        ),
    ensures
        ({
            let usa = bytes::u16_at(buf, 0x04) as int;
            let n = bytes::u16_at(buf, 0x06) - 1;
            let (after, outcome) = fixup(buf, sector_size);
            &&& outcome is Ok <==> forall|k: int|
                0 <= k < n ==> bytes::u16_at(buf, #[trigger] sector_tail(sector_size, k))
                    == bytes::u16_at(buf, usa)
            &&& outcome is Ok ==> forall|k: int|
                0 <= k < n ==> bytes::u16_at(after, #[trigger] sector_tail(sector_size, k))
                    == bytes::u16_at(buf, usa + 2 + 2 * k)
        }),
{
    let usa = bytes::u16_at(buf, 0x04) as int;
    lemma_fixup_from_restores(
        buf,
        sector_size,
        usa,
        bytes::u16_at(buf, usa),
        0,
        bytes::u16_at(buf, 0x06) - 1,
    );
}

/// Whether `buf` begins with the fields of `h`, each at its place.
pub open spec fn holds_header(buf: Seq<u8>, h: MftRecordHeader) -> bool {
    &&& buf.len() >= 0x30
    &&& forall|i: int| 0 <= i < 4 ==> #[trigger] buf[i] == h.signature@[i]
    &&& bytes::spells(buf, 0x04, 2, h.usa_offset as nat)
    &&& bytes::spells(buf, 0x06, 2, h.usa_count as nat)
    &&& bytes::spells(buf, 0x08, 8, h.lsn as nat)
    &&& bytes::spells(buf, 0x10, 2, h.sequence_number as nat)
    &&& bytes::spells(buf, 0x12, 2, h.hard_link_count as nat)
    &&& bytes::spells(buf, 0x14, 2, h.first_attribute_offset as nat)
    &&& bytes::spells(buf, 0x16, 2, h.flags as nat)
    &&& bytes::spells(buf, 0x18, 4, h.used_size as nat)
    &&& bytes::spells(buf, 0x1C, 4, h.allocated_size as nat)
    &&& bytes::spells(buf, 0x20, 8, h.base_record as nat)
    &&& bytes::spells(buf, 0x28, 2, h.next_attr_id as nat)
    &&& bytes::spells(buf, 0x2C, 4, h.record_number as nat)
}

/// A header that was written parses back to its fields, each from its own place, when it is
/// signed `FILE` or `BAAD`, and is refused with its signature otherwise.
pub proof fn law_written_headers_parse_back(buf: Seq<u8>, h: MftRecordHeader)
    requires
        holds_header(buf, h),
    ensures
        h.signature@ == seq![0x46u8, 0x49, 0x4C, 0x45] || h.signature@ == seq![
            0x42u8,
            0x41,
            0x41,
            0x44,
        ] ==> parsed_header(buf) == Ok::<MftRecordHeader, NtfsError>(h),
        h.signature@ != seq![0x46u8, 0x49, 0x4C, 0x45] && h.signature@ != seq![
            0x42u8,
            0x41,
            0x41,
            0x44,
        ] ==> parsed_header(buf) == Err::<MftRecordHeader, NtfsError>(
            NtfsError::BadRecordSignature(h.signature),
        ),
{
    let quad = bytes::quad_at(buf, 0);
    assert(buf[0] == h.signature@[0] && buf[1] == h.signature@[1] && buf[2] == h.signature@[2]
        && buf[3] == h.signature@[3]);
    assert(quad =~= h.signature);
    assert(buf.subrange(0, 4) =~= h.signature@);
    assert(layout::SIGNATURE_FILE@ =~= seq![0x46u8, 0x49, 0x4C, 0x45]);
    assert(layout::SIGNATURE_BAAD@ =~= seq![0x42u8, 0x41, 0x41, 0x44]);
    bytes::law_numbers_read_back(buf, 0x04, h.usa_offset as nat);
    bytes::law_numbers_read_back(buf, 0x06, h.usa_count as nat);
    bytes::law_numbers_read_back(buf, 0x08, h.lsn as nat);
    bytes::law_numbers_read_back(buf, 0x10, h.sequence_number as nat);
    bytes::law_numbers_read_back(buf, 0x12, h.hard_link_count as nat);
    bytes::law_numbers_read_back(buf, 0x14, h.first_attribute_offset as nat);
    bytes::law_numbers_read_back(buf, 0x16, h.flags as nat);
    bytes::law_numbers_read_back(buf, 0x18, h.used_size as nat);
    bytes::law_numbers_read_back(buf, 0x1C, h.allocated_size as nat);
    bytes::law_numbers_read_back(buf, 0x20, h.base_record as nat);
    bytes::law_numbers_read_back(buf, 0x28, h.next_attr_id as nat);
    bytes::law_numbers_read_back(buf, 0x2C, h.record_number as nat);
}

/// The lowest flag bit says that a record is in use, the next that it is a directory.
pub proof fn law_flag_bits_have_their_places(h: MftRecordHeader)
    ensures
        h.in_use() <==> h.flags % 2 == 1,
        h.directory() <==> h.flags / 2 % 2 == 1,
{
    let flags = h.flags;
    assert(flags & 1u16 != 0 <==> flags % 2 == 1) by (bit_vector);
    assert(flags & 2u16 != 0 <==> flags / 2 % 2 == 1) by (bit_vector);
}

/// Where the last two bytes of sector `k` stand.
pub open spec fn last_two(sector_size: int, k: int) -> int {
    sector_size * k + sector_size - 2
}

/// Whether byte `j` is among the last two of one of the first `n` sectors.
pub open spec fn is_last(sector_size: int, n: int, j: int) -> bool {
    exists|k: int|
        0 <= k < n && 0 <= j - #[trigger] last_two(sector_size, k) < 2
}

proof fn lemma_last_two(sector_size: int, k: int)
    ensures
        last_two(sector_size, k) == sector_tail(sector_size, k),
{
    assert(sector_size * k + sector_size == (k + 1) * sector_size) by (nonlinear_arith);
}

/// Whether `buf` is `plain` under protection: the last two bytes of each of the first `n`
/// sectors are `usn`, and the array at `usa` holds `usn` and then what they displaced.
pub open spec fn protects(
    buf: Seq<u8>,
    plain: Seq<u8>,
    sector_size: int,
    usa: int,
    usn: u16,
    n: int,
) -> bool {
    &&& buf.len() == plain.len()
    &&& bytes::spells(buf, 0x04, 2, usa as nat)
    &&& bytes::spells(buf, 0x06, 2, (n + 1) as nat)
    &&& bytes::spells(buf, usa, 2, usn as nat)
    &&& forall|k: int|
        #![trigger last_two(sector_size, k)]
        0 <= k < n ==> {
            let at = last_two(sector_size, k);
            &&& bytes::spells(buf, at, 2, usn as nat)
            &&& plain[at] == buf[usa + 2 + 2 * k]
            &&& plain[at + 1] == buf[usa + 3 + 2 * k]
        }
    &&& forall|j: int|
        0 <= j < buf.len() ==> #[trigger] is_last(sector_size, n, j) || buf[j] == plain[j]
}

proof fn lemma_last_are_tails(sector_size: int, n: int, j: int)
    ensures
        in_some_tail(sector_size, n, j) ==> is_last(sector_size, n, j),
        is_last(sector_size, n, j) ==> in_some_tail(sector_size, n, j),
{
    if in_some_tail(sector_size, n, j) {
        let k = choose|k: int|
            0 <= k < n && (#[trigger] sector_tail(sector_size, k) == j || sector_tail(
                sector_size,
                k,
            ) + 1 == j);
        lemma_last_two(sector_size, k);
        assert(0 <= j - last_two(sector_size, k) < 2);
    }
    if is_last(sector_size, n, j) {
        let k = choose|k: int| 0 <= k < n && 0 <= j - #[trigger] last_two(sector_size, k) < 2;
        lemma_last_two(sector_size, k);
        assert(sector_tail(sector_size, k) == j || sector_tail(sector_size, k) + 1 == j);
    }
}

/// What a protected record has to be for the fixup to undo it: room for the array and for
/// the sectors, and no tail among the array's bytes.
pub open spec fn has_room(len: int, sector_size: int, usa: int, n: int) -> bool {
    &&& 0x30 <= len <= usize::MAX
    &&& sector_size >= 2
    &&& 0 <= n
    &&& 0 <= usa
    &&& usa + 2 * (n + 1) <= len
    &&& n * sector_size <= len
    &&& forall|j: int| usa <= j < usa + 2 * (n + 1) ==> !#[trigger] is_last(sector_size, n, j)
}

proof fn lemma_protected_is_framed(
    buf: Seq<u8>,
    plain: Seq<u8>,
    sector_size: int,
    usa: int,
    usn: u16,
    n: int,
)
    requires
        protects(buf, plain, sector_size, usa, usn, n),
        has_room(buf.len() as int, sector_size, usa, n),
    ensures
        bytes::u16_at(buf, 0x04) == usa,
        bytes::u16_at(buf, 0x06) == n + 1,
        bytes::u16_at(buf, usa) == usn,
        usa_defect(buf, sector_size) is None,
        usa_clear_of_tails(sector_size, usa, n),
        forall|k: int|
            0 <= k < n ==> bytes::u16_at(buf, #[trigger] sector_tail(sector_size, k)) == usn,
{
    bytes::law_numbers_read_back(buf, 0x04, usa as nat);
    bytes::law_numbers_read_back(buf, 0x06, (n + 1) as nat);
    bytes::law_numbers_read_back(buf, usa, usn as nat);
    assert forall|j: int| usa <= j < usa + 2 * (n + 1) implies !#[trigger] in_some_tail(
        sector_size,
        n,
        j,
    ) by {
        lemma_last_are_tails(sector_size, n, j);
    }
    assert forall|k: int| 0 <= k < n implies bytes::u16_at(
        buf,
        #[trigger] sector_tail(sector_size, k),
    ) == usn by {
        lemma_last_two(sector_size, k);
        bytes::law_numbers_read_back(buf, last_two(sector_size, k), usn as nat);
    }
}

proof fn lemma_pair_is_copied(a: Seq<u8>, i: int, b: Seq<u8>, j: int)
    requires
        bytes::u16_at(a, i) == bytes::u16_at(b, j),
    ensures
        a[i] == b[j],
        a[i + 1] == b[j + 1],
{
}

proof fn lemma_restored_tail(
    buf: Seq<u8>,
    plain: Seq<u8>,
    after: Seq<u8>,
    sector_size: int,
    usa: int,
    usn: u16,
    n: int,
    j: int,
)
    requires
        protects(buf, plain, sector_size, usa, usn, n),
        is_last(sector_size, n, j),
        forall|k: int|
            0 <= k < n ==> bytes::u16_at(after, #[trigger] sector_tail(sector_size, k))
                == bytes::u16_at(buf, usa + 2 + 2 * k),
    ensures
        after[j] == plain[j],
{
    let k = choose|k: int| 0 <= k < n && 0 <= j - #[trigger] last_two(sector_size, k) < 2;
    let at = last_two(sector_size, k);
    lemma_last_two(sector_size, k);
    assert(bytes::u16_at(after, sector_tail(sector_size, k)) == bytes::u16_at(
        buf,
        usa + 2 + 2 * k,
    ));
    lemma_pair_is_copied(after, at, buf, usa + 2 + 2 * k);
    assert(plain[at] == buf[usa + 2 + 2 * k] && plain[at + 1] == buf[usa + 3 + 2 * k]);
}

proof fn lemma_framed_passes(buf: Seq<u8>, sector_size: int, usa: int, usn: u16, n: int)
    requires
        bytes::u16_at(buf, 0x04) == usa,
        bytes::u16_at(buf, 0x06) == n + 1,
        bytes::u16_at(buf, usa) == usn,
        usa_defect(buf, sector_size) is None,
        usa_clear_of_tails(sector_size, usa, n),
        forall|k: int|
            0 <= k < n ==> bytes::u16_at(buf, #[trigger] sector_tail(sector_size, k)) == usn,
    ensures
        fixup(buf, sector_size).1 == Ok::<(), NtfsError>(()),
        fixup(buf, sector_size).0 == fixup_from(buf, sector_size, usa, usn, 0, n).0,
        forall|k: int|
            0 <= k < n ==> bytes::u16_at(
                fixup(buf, sector_size).0,
                #[trigger] sector_tail(sector_size, k),
            ) == bytes::u16_at(buf, usa + 2 + 2 * k),
{
    lemma_fixup_from_restores(buf, sector_size, usa, usn, 0, n);
    let outcome = fixup_from(buf, sector_size, usa, usn, 0, n).1;
    assert(outcome is Ok);
    assert(outcome->Ok_0 == ());
}

proof fn lemma_protected_byte(
    buf: Seq<u8>,
    plain: Seq<u8>,
    sector_size: int,
    usa: int,
    usn: u16,
    n: int,
    j: int,
)
    requires
        protects(buf, plain, sector_size, usa, usn, n),
        has_room(buf.len() as int, sector_size, usa, n),
        0 <= j < buf.len(),
    ensures
        fixup(buf, sector_size).0[j] == plain[j],
{
    lemma_protected_is_framed(buf, plain, sector_size, usa, usn, n);
    lemma_framed_passes(buf, sector_size, usa, usn, n);
    let after = fixup(buf, sector_size).0;
    if is_last(sector_size, n, j) {
        lemma_restored_tail(buf, plain, after, sector_size, usa, usn, n, j);
    } else {
        lemma_fixup_from_frame(buf, sector_size, usa, usn, 0, n);
        lemma_last_are_tails(sector_size, n, j);
        assert(after[j] == buf[j]);
        assert(buf[j] == plain[j]);
    }
}

/// The fixup undoes the protection: a record that was written with its sector tails
/// displaced into the update sequence array comes back byte for byte.
pub proof fn law_fixup_undoes_protection(
    buf: Seq<u8>,
    plain: Seq<u8>,
    sector_size: int,
    usa: int,
    usn: u16,
    n: int,
)
    requires
        protects(buf, plain, sector_size, usa, usn, n),
        has_room(buf.len() as int, sector_size, usa, n),
    ensures
        fixup(buf, sector_size) == (plain, Ok::<(), NtfsError>(())),
{
    let after = fixup(buf, sector_size).0;
    assert forall|j: int| 0 <= j < buf.len() implies #[trigger] after[j] == plain[j] by {
        lemma_protected_byte(buf, plain, sector_size, usa, usn, n, j);
    }
    lemma_protected_is_framed(buf, plain, sector_size, usa, usn, n);
    lemma_framed_passes(buf, sector_size, usa, usn, n);
    law_fixup_touches_only_sector_tails(buf, sector_size);
    assert(after =~= plain);
}

proof fn lemma_first_torn_sector(
    buf: Seq<u8>,
    sector_size: int,
    usa: int,
    usn: u16,
    i: int,
    torn: int,
    n: int,
)
    requires
        0 <= i <= torn < n,
        0 <= usa,
        sector_size >= 2,
        n * sector_size <= buf.len(),
        usa + 2 * (n + 1) <= buf.len(),
        forall|k: int|
            i <= k < torn ==> bytes::u16_at(buf, #[trigger] sector_tail(sector_size, k)) == usn,
        bytes::u16_at(buf, sector_tail(sector_size, torn)) != usn,
    ensures
        fixup_from(buf, sector_size, usa, usn, i, n).1 == Err::<(), NtfsError>(
            NtfsError::FixupMismatch {
                sector: torn as usize,
                expected: usn,
                found: bytes::u16_at(buf, sector_tail(sector_size, torn)),
            },
        ),
    decreases torn - i,
{
    if i < torn {
        let tail = sector_tail(sector_size, i);
        lemma_tail_in_span(sector_size, i, n);
        let next = copy_pair(buf, tail, usa + 2 + 2 * i);
        assert forall|k: int| i < k <= torn implies bytes::u16_at(
            next,
            #[trigger] sector_tail(sector_size, k),
        ) == bytes::u16_at(buf, sector_tail(sector_size, k)) by {
            lemma_tails_are_apart(sector_size, i, k);
            lemma_tail_in_span(sector_size, k, n);
        }
        assert(bytes::u16_at(buf, sector_tail(sector_size, i)) == usn);
        lemma_first_torn_sector(next, sector_size, usa, usn, i + 1, torn, n);
    }
}

/// A record with a torn sector is refused, and the complaint names the first one, what its
/// tail should carry and what it does.
pub proof fn law_the_first_torn_sector_is_named(
    buf: Seq<u8>,
    sector_size: int,
    usa: int,
    usn: u16,
    n: int,
    torn: int,
    found: u16,
)
    requires
        bytes::spells(buf, 0x04, 2, usa as nat),
        bytes::spells(buf, 0x06, 2, (n + 1) as nat),
        bytes::spells(buf, usa, 2, usn as nat),
        0x30 <= buf.len() <= usize::MAX,
        sector_size >= 2,
        0 <= usa,
        0 <= torn < n,
        usa + 2 * (n + 1) <= buf.len(),
        n * sector_size <= buf.len(),
        forall|k: int|
            0 <= k < torn ==> bytes::spells(
                buf,
                #[trigger] sector_tail(sector_size, k),
                2,
                usn as nat,
            ),
        bytes::spells(buf, (torn + 1) * sector_size - 2, 2, found as nat),
        found != usn,
    ensures
        fixup(buf, sector_size).1 == Err::<(), NtfsError>(
            NtfsError::FixupMismatch { sector: torn as usize, expected: usn, found },
        ),
{
    bytes::law_numbers_read_back(buf, 0x04, usa as nat);
    bytes::law_numbers_read_back(buf, 0x06, (n + 1) as nat);
    bytes::law_numbers_read_back(buf, usa, usn as nat);
    bytes::law_numbers_read_back(buf, (torn + 1) * sector_size - 2, found as nat);
    assert forall|k: int| 0 <= k < torn implies bytes::u16_at(
        buf,
        #[trigger] sector_tail(sector_size, k),
    ) == usn by {
        bytes::law_numbers_read_back(buf, sector_tail(sector_size, k), usn as nat);
    }
    lemma_first_torn_sector(buf, sector_size, usa, usn, 0, torn, n);
}

/// A record whose update sequence array is empty, reaches past the record, or guards more
/// sectors than the record has is refused, and so is one shorter than its header. Its bytes
/// are left as they are.
pub proof fn law_malformed_arrays_are_refused(
    buf: Seq<u8>,
    sector_size: int,
    usa: int,
    count: int,
)
    requires
        0 <= usa,
        0 <= count,
        bytes::spells(buf, 0x04, 2, usa as nat),
        bytes::spells(buf, 0x06, 2, count as nat),
        buf.len() < 0x30 || sector_size < 2 || count == 0 || usa + 2 * count > buf.len() || (count
            - 1) * sector_size > buf.len(),
    ensures
        fixup(buf, sector_size).0 == buf,
        fixup(buf, sector_size).1 is Err,
{
    bytes::law_numbers_read_back(buf, 0x04, usa as nat);
    bytes::law_numbers_read_back(buf, 0x06, count as nat);
}

/// A header that is cut off is refused.
pub proof fn law_short_headers_are_refused(buf: Seq<u8>)
    requires
        buf.len() < 0x30,
    ensures
        parsed_header(buf) is Err,
{
}

} // verus!
