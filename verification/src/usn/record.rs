//! `USN_RECORD_V2` and `USN_RECORD_V3`.
//!
//! The two versions differ in the width of their file references: 64 bits in V2, 128 in
//! V3, of which NTFS uses the low half. Every later field moves up by 16 bytes.

use vstd::prelude::*;
use crate::bytes;
use crate::error::NtfsError;
use crate::file_name;
use crate::file_name::FileReference;
use crate::text;
use crate::time::Filetime;
use crate::walk;

verus! {

/// Bytes in the fixed part of a V2 record.
pub const USN_V2_MIN_SIZE: usize = 0x3C;

/// Bytes in the fixed part of a V3 record.
pub const USN_V3_MIN_SIZE: usize = 0x4C;

/// Reason flag: the file was created.
pub const REASON_FILE_CREATE: u32 = 0x0000_0100;

/// Reason flag: the file was deleted.
pub const REASON_FILE_DELETE: u32 = 0x0000_0200;

/// Reason flag: the last handle to the file was closed.
pub const REASON_CLOSE: u32 = 0x8000_0000;

/// One change to a file.
#[derive(Debug, Clone, PartialEq, Eq)]
pub struct UsnRecord {
    /// MFT record number of the file.
    pub mft_entry: u64,
    /// Sequence number of that record.
    pub mft_sequence: u16,
    /// MFT record number of the parent directory.
    pub parent_mft_entry: u64,
    /// Sequence number of that record.
    pub parent_mft_sequence: u16,
    /// Update sequence number: the record's offset in the journal.
    pub usn: i64,
    /// When the change was made.
    pub timestamp: Filetime,
    /// Why the record was logged: a set of `REASON_*` flags.
    pub reason: u32,
    /// Name of the file.
    pub filename: String,
    /// `FILE_ATTRIBUTE_*` flags.
    pub file_attributes: u32,
    /// Where the change came from.
    pub source_info: u32,
    /// Security id of the file.
    pub security_id: u32,
    /// Version of the record.
    pub major_version: u16,
}

/// The mathematical content of a [`UsnRecord`].
#[verifier::ext_equal]
pub struct UsnRecordView {
    pub file: FileReference,
    pub parent: FileReference,
    pub usn: i64,
    pub timestamp: Filetime,
    pub reason: u32,
    pub filename: Seq<char>,
    pub file_attributes: u32,
    pub source_info: u32,
    pub security_id: u32,
    pub major_version: u16,
}

impl View for UsnRecord {
    type V = UsnRecordView;

    open spec fn view(&self) -> UsnRecordView {
        UsnRecordView {
            file: FileReference { record_number: self.mft_entry, sequence: self.mft_sequence },
            parent: FileReference {
                record_number: self.parent_mft_entry,
                sequence: self.parent_mft_sequence,
            },
            usn: self.usn,
            timestamp: self.timestamp,
            reason: self.reason,
            filename: self.filename@,
            file_attributes: self.file_attributes,
            source_info: self.source_info,
            security_id: self.security_id,
            major_version: self.major_version,
        }
    }
}

/// The signed number whose two's complement is `raw`.
pub open spec fn signed(raw: u64) -> i64 {
    if raw <= i64::MAX {
        raw as i64
    } else {
        (raw - 0x1_0000_0000_0000_0000) as i64
    }
}

/// Reads a two's complement number.
fn to_signed(raw: u64) -> (r: i64)
    ensures
        r == signed(raw),
{
    if raw <= 0x7FFF_FFFF_FFFF_FFFF {
        raw as i64
    } else {
        (raw - 0x8000_0000_0000_0000) as i64 + i64::MIN
    }
}

/// The layout of a record version: how long its fixed part is, where the parent
/// reference lies, and how far the later fields are moved up.
#[derive(Clone, Copy)]
pub struct UsnLayout {
    pub what: &'static str,
    pub version: u16,
    pub fixed: usize,
    pub parent: usize,
    pub shift: usize,
}

/// The layout of a V2 record.
pub open spec fn layout_v2() -> UsnLayout {
    UsnLayout {
        what: "USN_RECORD_V2",
        version: 2,
        fixed: USN_V2_MIN_SIZE,
        parent: 0x10,
        shift: 0,
    }
}

/// The layout of a V3 record.
pub open spec fn layout_v3() -> UsnLayout {
    UsnLayout {
        what: "USN_RECORD_V3",
        version: 3,
        fixed: USN_V3_MIN_SIZE,
        parent: 0x18,
        shift: 0x10,
    }
}

/// The outcome of parsing a record: its fields, unless the bytes are too few, the record
/// declares a length outside them or another version, or its name does not lie inside
/// it.
pub open spec fn parsed_record(data: Seq<u8>, layout: UsnLayout) -> Result<
    UsnRecordView,
    NtfsError,
> {
    let length = bytes::u32_at(data, 0);
    let shift = layout.shift as int;
    let start = bytes::u16_at(data, shift + 0x3A) as int;
    let end = start + bytes::u16_at(data, shift + 0x38);
    if data.len() < layout.fixed {
        Err(
            NtfsError::TooShort {
                what: layout.what,
                need: layout.fixed,
                got: data.len() as usize,
            },
        )
    } else if length < layout.fixed || length > data.len() {
        Err(NtfsError::BadUsnRecord("record length out of range"))
    } else if bytes::u16_at(data, 0x04) != layout.version {
        Err(NtfsError::BadUsnRecord("unexpected major version"))
    } else if end > length {
        Err(NtfsError::BadUsnRecord("file name extends past record"))
    } else {
        Ok(
            UsnRecordView {
                file: file_name::reference_of(bytes::u64_at(data, 0x08)),
                parent: file_name::reference_of(bytes::u64_at(data, layout.parent as int)),
                usn: signed(bytes::u64_at(data, shift + 0x18)),
                timestamp: Filetime(bytes::u64_at(data, shift + 0x20)),
                reason: bytes::u32_at(data, shift + 0x28),
                filename: text::utf16le_text(data.subrange(start, end)),
                file_attributes: bytes::u32_at(data, shift + 0x34),
                source_info: bytes::u32_at(data, shift + 0x2C),
                security_id: bytes::u32_at(data, shift + 0x30),
                major_version: layout.version,
            },
        )
    }
}

/// Parses a record of a version.
fn parse_record(data: &[u8], layout: UsnLayout) -> (r: Result<UsnRecord, NtfsError>)
    requires
        layout == layout_v2() || layout == layout_v3(),
    ensures
        walk::model(r) == parsed_record(data@, layout),
{
    if data.len() < layout.fixed {
        return Err(
            NtfsError::TooShort { what: layout.what, need: layout.fixed, got: data.len() },
        );
    }
    let length: usize = bytes::le_u32(data, 0) as usize;
    if length < layout.fixed || length > data.len() {
        return Err(NtfsError::BadUsnRecord("record length out of range"));
    }
    if bytes::le_u16(data, 0x04) != layout.version {
        return Err(NtfsError::BadUsnRecord("unexpected major version"));
    }
    let shift: usize = layout.shift;
    let start: usize = bytes::le_u16(data, shift + 0x3A) as usize;
    let end: usize = start + bytes::le_u16(data, shift + 0x38) as usize;
    if end > length {
        return Err(NtfsError::BadUsnRecord("file name extends past record"));
    }
    let file = FileReference::from_u64(bytes::le_u64(data, 0x08));
    let parent = FileReference::from_u64(bytes::le_u64(data, layout.parent));
    let filename = text::decode_utf16le(vstd::slice::slice_subrange(data, start, end));
    Ok(
        UsnRecord {
            mft_entry: file.record_number,
            mft_sequence: file.sequence,
            parent_mft_entry: parent.record_number,
            parent_mft_sequence: parent.sequence,
            usn: to_signed(bytes::le_u64(data, shift + 0x18)),
            timestamp: Filetime(bytes::le_u64(data, shift + 0x20)),
            reason: bytes::le_u32(data, shift + 0x28),
            filename,
            file_attributes: bytes::le_u32(data, shift + 0x34),
            source_info: bytes::le_u32(data, shift + 0x2C),
            security_id: bytes::le_u32(data, shift + 0x30),
            major_version: layout.version,
        },
    )
}

/// Parses a `USN_RECORD_V2`.
///
/// # Errors
///
/// [`NtfsError::TooShort`] when the fixed part does not fit,
/// [`NtfsError::BadUsnRecord`] when the length, the version or the name is out of range.
pub fn parse_usn_record_v2(data: &[u8]) -> (r: Result<UsnRecord, NtfsError>)
    ensures
        walk::model(r) == parsed_record(data@, layout_v2()),
{
    parse_record(
        data,
        UsnLayout {
            what: "USN_RECORD_V2",
            version: 2,
            fixed: USN_V2_MIN_SIZE,
            parent: 0x10,
            shift: 0,
        },
    )
}

/// Parses a `USN_RECORD_V3`.
///
/// # Errors
///
/// As [`parse_usn_record_v2`].
pub fn parse_usn_record_v3(data: &[u8]) -> (r: Result<UsnRecord, NtfsError>)
    ensures
        walk::model(r) == parsed_record(data@, layout_v3()),
{
    parse_record(
        data,
        UsnLayout {
            what: "USN_RECORD_V3",
            version: 3,
            fixed: USN_V3_MIN_SIZE,
            parent: 0x18,
            shift: 0x10,
        },
    )
}

/// The raw 64-bit value of a file reference.
pub open spec fn raw_reference(r: FileReference) -> nat {
    (r.record_number + 0x1_0000_0000_0000 * r.sequence) as nat
}

/// The eight-byte two's complement of a signed number.
pub open spec fn raw_signed(v: i64) -> nat {
    if v < 0 {
        (v + 0x1_0000_0000_0000_0000) as nat
    } else {
        v as nat
    }
}

/// Whether `data` begins with a written V2 record: its fields at their places, and its
/// name in the `name_length` bytes at `name_at`.
pub open spec fn holds_v2(data: Seq<u8>, r: UsnRecordView, name_at: int, name_length: int) -> bool {
    &&& bytes::spells(data, 0x04, 2, 2)
    &&& bytes::spells(data, 0x08, 8, raw_reference(r.file))
    &&& bytes::spells(data, 0x10, 8, raw_reference(r.parent))
    &&& bytes::spells(data, 0x18, 8, raw_signed(r.usn))
    &&& bytes::spells(data, 0x20, 8, r.timestamp.0 as nat)
    &&& bytes::spells(data, 0x28, 4, r.reason as nat)
    &&& bytes::spells(data, 0x2C, 4, r.source_info as nat)
    &&& bytes::spells(data, 0x30, 4, r.security_id as nat)
    &&& bytes::spells(data, 0x34, 4, r.file_attributes as nat)
    &&& bytes::spells(data, 0x38, 2, name_length as nat)
    &&& bytes::spells(data, 0x3A, 2, name_at as nat)
}

/// Whether `data` begins with a written V3 record: 16-byte references, of which the low
/// halves count, and every later field 16 bytes further on.
pub open spec fn holds_v3(data: Seq<u8>, r: UsnRecordView, name_at: int, name_length: int) -> bool {
    &&& bytes::spells(data, 0x04, 2, 3)
    &&& bytes::spells(data, 0x08, 8, raw_reference(r.file))
    &&& bytes::spells(data, 0x18, 8, raw_reference(r.parent))
    &&& bytes::spells(data, 0x28, 8, raw_signed(r.usn))
    &&& bytes::spells(data, 0x30, 8, r.timestamp.0 as nat)
    &&& bytes::spells(data, 0x38, 4, r.reason as nat)
    &&& bytes::spells(data, 0x3C, 4, r.source_info as nat)
    &&& bytes::spells(data, 0x40, 4, r.security_id as nat)
    &&& bytes::spells(data, 0x44, 4, r.file_attributes as nat)
    &&& bytes::spells(data, 0x48, 2, name_length as nat)
    &&& bytes::spells(data, 0x4A, 2, name_at as nat)
}

/// Whether the record's declared length reaches to the end of its fixed part and of its
/// name, and not past the data.
pub open spec fn is_framed(
    data: Seq<u8>,
    length: int,
    fixed: int,
    name_at: int,
    name_length: int,
) -> bool {
    &&& bytes::spells(data, 0, 4, length as nat)
    &&& fixed <= length <= data.len()
    &&& 0 <= name_at && 0 <= name_length && name_at + name_length <= length
}

proof fn lemma_raw_reference(r: FileReference)
    requires
        r.record_number < 0x1_0000_0000_0000,
    ensures
        raw_reference(r) <= u64::MAX,
        file_name::reference_of(raw_reference(r) as u64) == r,
{
}

/// A V2 record that was written with given fields parses back to those fields: each is
/// found at its own place, and none depends on the bytes of another.
pub proof fn law_written_v2_records_parse_back(
    data: Seq<u8>,
    r: UsnRecordView,
    length: int,
    name_at: int,
    name_length: int,
)
    requires
        r.major_version == 2,
        r.file.record_number < 0x1_0000_0000_0000,
        r.parent.record_number < 0x1_0000_0000_0000,
        holds_v2(data, r, name_at, name_length),
        is_framed(data, length, 0x3C, name_at, name_length),
        r.filename == text::utf16le_text(data.subrange(name_at, name_at + name_length)),
    ensures
        parsed_record(data, layout_v2()) == Ok::<UsnRecordView, NtfsError>(r),
{
    lemma_raw_reference(r.file);
    lemma_raw_reference(r.parent);
    bytes::law_numbers_read_back(data, 0, length as nat);
    bytes::law_numbers_read_back(data, 0x04, 2);
    bytes::law_numbers_read_back(data, 0x08, raw_reference(r.file));
    bytes::law_numbers_read_back(data, 0x10, raw_reference(r.parent));
    bytes::law_numbers_read_back(data, 0x18, raw_signed(r.usn));
    bytes::law_numbers_read_back(data, 0x20, r.timestamp.0 as nat);
    bytes::law_numbers_read_back(data, 0x28, r.reason as nat);
    bytes::law_numbers_read_back(data, 0x2C, r.source_info as nat);
    bytes::law_numbers_read_back(data, 0x30, r.security_id as nat);
    bytes::law_numbers_read_back(data, 0x34, r.file_attributes as nat);
    bytes::law_numbers_read_back(data, 0x38, name_length as nat);
    bytes::law_numbers_read_back(data, 0x3A, name_at as nat);
}

/// A V3 record that was written with given fields parses back to those fields. The upper
/// halves of the two references, which NTFS leaves empty, are not looked at.
pub proof fn law_written_v3_records_parse_back(
    data: Seq<u8>,
    r: UsnRecordView,
    length: int,
    name_at: int,
    name_length: int,
)
    requires
        r.major_version == 3,
        r.file.record_number < 0x1_0000_0000_0000,
        r.parent.record_number < 0x1_0000_0000_0000,
        holds_v3(data, r, name_at, name_length),
        is_framed(data, length, 0x4C, name_at, name_length),
        r.filename == text::utf16le_text(data.subrange(name_at, name_at + name_length)),
    ensures
        parsed_record(data, layout_v3()) == Ok::<UsnRecordView, NtfsError>(r),
{
    lemma_raw_reference(r.file);
    lemma_raw_reference(r.parent);
    bytes::law_numbers_read_back(data, 0, length as nat);
    bytes::law_numbers_read_back(data, 0x04, 3);
    bytes::law_numbers_read_back(data, 0x08, raw_reference(r.file));
    bytes::law_numbers_read_back(data, 0x18, raw_reference(r.parent));
    bytes::law_numbers_read_back(data, 0x28, raw_signed(r.usn));
    bytes::law_numbers_read_back(data, 0x30, r.timestamp.0 as nat);
    bytes::law_numbers_read_back(data, 0x38, r.reason as nat);
    bytes::law_numbers_read_back(data, 0x3C, r.source_info as nat);
    bytes::law_numbers_read_back(data, 0x40, r.security_id as nat);
    bytes::law_numbers_read_back(data, 0x44, r.file_attributes as nat);
    bytes::law_numbers_read_back(data, 0x48, name_length as nat);
    bytes::law_numbers_read_back(data, 0x4A, name_at as nat);
}

/// A record is refused when the data does not hold its fixed part, when it declares a
/// length that is shorter or reaches past the data, when it is of another version, and
/// when its name reaches past it; of no other is anything lost.
pub proof fn law_only_malformed_records_are_refused(
    data: Seq<u8>,
    three: bool,
    length: u32,
    version: u16,
    name_at: u16,
    name_length: u16,
)
    requires
        ({
            let fixed = if three {
                0x4Cint
            } else {
                0x3Cint
            };
            &&& bytes::spells(data, 0, 4, length as nat)
            &&& bytes::spells(data, 0x04, 2, version as nat)
            &&& data.len() >= fixed ==> bytes::spells(data, fixed - 4, 2, name_length as nat)
            &&& data.len() >= fixed ==> bytes::spells(data, fixed - 2, 2, name_at as nat)
        }),
    ensures
        ({
            let fixed = if three {
                0x4Cint
            } else {
                0x3Cint
            };
            let wanted = if three {
                3int
            } else {
                2int
            };
            parsed_record(
                data,
                if three {
                    layout_v3()
                } else {
                    layout_v2()
                },
            ) is Ok <==> data.len() >= fixed && fixed <= length <= data.len() && version == wanted
                && name_at + name_length <= length
        }),
{
    let fixed = if three {
        0x4Cint
    } else {
        0x3Cint
    };
    bytes::law_numbers_read_back(data, 0, length as nat);
    bytes::law_numbers_read_back(data, 0x04, version as nat);
    bytes::law_numbers_read_back(data, fixed - 4, name_length as nat);
    bytes::law_numbers_read_back(data, fixed - 2, name_at as nat);
}

} // verus!
