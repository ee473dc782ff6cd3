//! The error type shared by every module.

use vstd::prelude::*;
use crate::text;

verus! {

/// What went wrong while bytes were fetched from a source.
#[derive(Debug, Clone, PartialEq, Eq)]
pub enum IoFault {
    /// The requested range reaches past the end of the source.
    UnexpectedEof,
    /// The request itself was not meaningful (a position before the start).
    InvalidInput(&'static str),
    /// The source failed for a reason of its own, in its own words.
    Other(String),
}

/// Errors produced while parsing NTFS structures.
#[derive(Debug, Clone, PartialEq, Eq)]
pub enum NtfsError {
    /// The input slice was shorter than the structure requires.
    TooShort { what: &'static str, need: usize, got: usize },
    /// The OEM ID at offset 3 was not `b"NTFS    "`.
    BadOemId([u8; 8]),
    /// Bytes-per-sector is not a power of two in the range 256..=4096.
    BadBytesPerSector(u16),
    /// Sectors-per-cluster is zero or not a power of two.
    BadSectorsPerCluster(u8),
    /// The clusters-per-file-record-segment byte encodes an out-of-range size.
    BadRecordSize(u8),
    /// The clusters-per-index-buffer byte encodes an out-of-range size.
    BadIndexRecordSize(u8),
    /// An MFT record's signature was neither `FILE` nor `BAAD`.
    BadRecordSignature([u8; 4]),
    /// An update-sequence fixup did not match the Update Sequence Number: the
    /// record was torn across a sector boundary, or has been tampered with.
    FixupMismatch { sector: usize, expected: u16, found: u16 },
    /// The update sequence array is malformed (offset/count out of bounds).
    BadUpdateSequence(&'static str),
    /// An attribute is corrupt or would read out of bounds.
    BadAttribute { offset: usize, detail: &'static str },
    /// An `$ATTRIBUTE_LIST` entry is malformed.
    BadAttributeList(&'static str),
    /// A data runlist is malformed (bad field size, truncated, or overflowing).
    BadRunlist(&'static str),
    /// A compressed stream is malformed.
    BadCompression(&'static str),
    /// A directory index node or entry is malformed.
    BadIndex(&'static str),
    /// A USN journal record is malformed.
    BadUsnRecord(&'static str),
    /// A path component was not found.
    NotFound(String),
    /// A path component that should be a directory is not one.
    NotADirectory(String),
    /// A structure declared a size that would require an unreasonable
    /// allocation: refused rather than attempted.
    TooLarge { bytes: u64 },
    /// The underlying source failed.
    Io(IoFault),
}

/// Convenience alias.
pub type Result<T> = core::result::Result<T, NtfsError>;

/// What a fault of the source is called.
pub open spec fn fault_text(fault: IoFault) -> Seq<char> {
    match fault {
        IoFault::UnexpectedEof => "failed to fill whole buffer"@,
        IoFault::InvalidInput(detail) => detail@,
        IoFault::Other(words) => words@,
    }
}

/// What an error says.
pub open spec fn error_text(e: NtfsError) -> Seq<char> {
    match e {
        NtfsError::TooShort { what, need, got } => "input too short for "@ + what@ + ": need "@
            + text::decimal(need as nat) + " bytes, got "@ + text::decimal(got as nat),
        NtfsError::BadOemId(id) => "not an NTFS volume: OEM ID is "@ + text::hex_list(id@)
            + ", expected \"NTFS    \""@,
        NtfsError::BadBytesPerSector(n) => "invalid bytes-per-sector: "@ + text::decimal(n as nat)
            + " (must be a power of two in 256..=4096)"@,
        NtfsError::BadSectorsPerCluster(b) => "invalid sectors-per-cluster encoding: "@
            + text::hex_of_u8(b),
        NtfsError::BadRecordSize(b) => "invalid MFT record size encoding: byte "@
            + text::hex_of_u8(b),
        NtfsError::BadIndexRecordSize(b) => "invalid index record size encoding: byte "@
            + text::hex_of_u8(b),
        NtfsError::BadRecordSignature(sig) => "bad MFT record signature: "@ + text::hex_list(sig@)
            + " (expected \"FILE\" or \"BAAD\")"@,
        NtfsError::FixupMismatch { sector, expected, found } => "fixup mismatch in sector "@
            + text::decimal(sector as nat) + ": expected USN "@ + text::hex_of_u16(expected)
            + ", found "@ + text::hex_of_u16(found),
        NtfsError::BadUpdateSequence(detail) => "malformed update sequence array: "@ + detail@,
        NtfsError::BadAttribute { offset, detail } => "corrupt attribute at offset "@
            + text::decimal(offset as nat) + ": "@ + detail@,
        NtfsError::BadAttributeList(detail) => "malformed attribute list: "@ + detail@,
        NtfsError::BadRunlist(detail) => "malformed runlist: "@ + detail@,
        NtfsError::BadCompression(detail) => "malformed compressed stream: "@ + detail@,
        NtfsError::BadIndex(detail) => "malformed index: "@ + detail@,
        NtfsError::BadUsnRecord(detail) => "malformed USN record: "@ + detail@,
        NtfsError::NotFound(path) => "path not found: "@ + path@,
        NtfsError::NotADirectory(path) => "not a directory: "@ + path@,
        NtfsError::TooLarge { bytes } => "refusing to allocate "@ + text::decimal(bytes as nat)
            + " bytes"@,
        NtfsError::Io(fault) => "I/O error: "@ + fault_text(fault),
    }
}

/// Two texts, one after the other.
fn joined(first: &str, second: &str) -> (r: String)
    ensures
        r@ == first@ + second@,
{
    let mut r = first.to_string();
    r.append(second);
    r
}

impl NtfsError {
    /// What the error says, for a reader.
    #[must_use]
    pub fn message(&self) -> (r: String)
        ensures
            r@ == error_text(*self),
    {
        match self {
            NtfsError::TooShort { what, need, got } => {
                let mut r = joined("input too short for ", what);
                r.append(": need ");
                r.append(text::decimal_text(*need as u64).as_str());
                r.append(" bytes, got ");
                r.append(text::decimal_text(*got as u64).as_str());
                r
            },
            NtfsError::BadOemId(id) => {
                let mut r = joined(
                    "not an NTFS volume: OEM ID is ",
                    text::hex_list_text(id.as_slice()).as_str(),
                );
                r.append(", expected \"NTFS    \"");
                r
            },
            NtfsError::BadBytesPerSector(n) => {
                let mut r = joined(
                    "invalid bytes-per-sector: ",
                    text::decimal_text(*n as u64).as_str(),
                );
                r.append(" (must be a power of two in 256..=4096)");
                r
            },
            NtfsError::BadSectorsPerCluster(b) => joined(
                "invalid sectors-per-cluster encoding: ",
                text::hex_u8_text(*b).as_str(),
            ),
            NtfsError::BadRecordSize(b) => joined(
                "invalid MFT record size encoding: byte ",
                text::hex_u8_text(*b).as_str(),
            ),
            NtfsError::BadIndexRecordSize(b) => joined(
                "invalid index record size encoding: byte ",
                text::hex_u8_text(*b).as_str(),
            ),
            NtfsError::BadRecordSignature(sig) => {
                let mut r = joined(
                    "bad MFT record signature: ",
                    text::hex_list_text(sig.as_slice()).as_str(),
                );
                r.append(" (expected \"FILE\" or \"BAAD\")");
                r
            },
            NtfsError::FixupMismatch { sector, expected, found } => {
                let mut r = joined(
                    "fixup mismatch in sector ",
                    text::decimal_text(*sector as u64).as_str(),
                );
                r.append(": expected USN ");
                r.append(text::hex_u16_text(*expected).as_str());
                r.append(", found ");
                r.append(text::hex_u16_text(*found).as_str());
                r
            },
            NtfsError::BadUpdateSequence(detail) => joined(
                "malformed update sequence array: ",
                detail,
            ),
            NtfsError::BadAttribute { offset, detail } => {
                let mut r = joined(
                    "corrupt attribute at offset ",
                    text::decimal_text(*offset as u64).as_str(),
                );
                r.append(": ");
                r.append(detail);
                r
            },
            NtfsError::BadAttributeList(detail) => joined("malformed attribute list: ", detail),
            NtfsError::BadRunlist(detail) => joined("malformed runlist: ", detail),
            NtfsError::BadCompression(detail) => joined("malformed compressed stream: ", detail),
            NtfsError::BadIndex(detail) => joined("malformed index: ", detail),
            NtfsError::BadUsnRecord(detail) => joined("malformed USN record: ", detail),
            NtfsError::NotFound(path) => joined("path not found: ", path.as_str()),
            NtfsError::NotADirectory(path) => joined("not a directory: ", path.as_str()),
            NtfsError::TooLarge { bytes } => {
                let mut r = joined("refusing to allocate ", text::decimal_text(*bytes).as_str());
                r.append(" bytes");
                r
            },
            NtfsError::Io(fault) => joined(
                "I/O error: ",
                match fault {
                    IoFault::UnexpectedEof => "failed to fill whole buffer",
                    IoFault::InvalidInput(detail) => detail,
                    IoFault::Other(words) => words.as_str(),
                },
            ),
        }
    }
}

} // verus!
