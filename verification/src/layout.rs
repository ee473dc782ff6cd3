//! Constants of the NTFS on-disk format.

use vstd::prelude::*;

verus! {

/// Attribute type codes.
pub const STANDARD_INFORMATION: u32 = 0x10;
pub const ATTRIBUTE_LIST: u32 = 0x20;
pub const FILE_NAME: u32 = 0x30;
pub const VOLUME_NAME: u32 = 0x60;
pub const DATA: u32 = 0x80;
pub const INDEX_ROOT: u32 = 0x90;
pub const INDEX_ALLOCATION: u32 = 0xA0;
pub const REPARSE_POINT: u32 = 0xC0;
/// The end-of-attributes marker.
pub const ATTRIBUTES_END: u32 = 0xFFFF_FFFF;

/// Attribute flags.
pub const ATTR_COMPRESSED: u16 = 0x0001;
pub const ATTR_ENCRYPTED: u16 = 0x4000;
pub const ATTR_SPARSE: u16 = 0x8000;

/// MFT record flags.
pub const RECORD_IN_USE: u16 = 0x0001;
pub const RECORD_DIRECTORY: u16 = 0x0002;

/// `$FILE_NAME` namespaces.
pub const NS_POSIX: u8 = 0;
pub const NS_WIN32: u8 = 1;
pub const NS_DOS: u8 = 2;
pub const NS_WIN32_AND_DOS: u8 = 3;

/// Record numbers of the metadata files.
pub const MFT_RECORD: u64 = 0;
pub const VOLUME_RECORD: u64 = 3;
pub const ROOT_RECORD: u64 = 5;
pub const BITMAP_RECORD: u64 = 6;

/// `FILE`, the signature of an MFT record.
pub const SIGNATURE_FILE: [u8; 4] = [0x46, 0x49, 0x4C, 0x45];
/// `BAAD`, the signature of a record found corrupt.
pub const SIGNATURE_BAAD: [u8; 4] = [0x42, 0x41, 0x41, 0x44];
/// `INDX`, the signature of an index buffer.
pub const SIGNATURE_INDX: [u8; 4] = [0x49, 0x4E, 0x44, 0x58];
/// `RSTR`, the signature of a `$LogFile` restart page.
pub const SIGNATURE_RSTR: [u8; 4] = [0x52, 0x53, 0x54, 0x52];
/// `RCRD`, the signature of a `$LogFile` record page.
pub const SIGNATURE_RCRD: [u8; 4] = [0x52, 0x43, 0x52, 0x44];
/// `NTFS` and four blanks, the OEM identifier of an NTFS boot sector.
pub const OEM_ID: [u8; 8] = [0x4E, 0x54, 0x46, 0x53, 0x20, 0x20, 0x20, 0x20];

} // verus!
