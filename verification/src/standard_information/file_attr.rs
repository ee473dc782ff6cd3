//! `FILE_ATTRIBUTE_*` flags.

use vstd::prelude::*;

verus! {

pub const READONLY: u32 = 0x0001;
pub const HIDDEN: u32 = 0x0002;
pub const SYSTEM: u32 = 0x0004;
pub const ARCHIVE: u32 = 0x0020;
pub const TEMPORARY: u32 = 0x0100;
pub const SPARSE_FILE: u32 = 0x0200;
pub const REPARSE_POINT: u32 = 0x0400;
pub const COMPRESSED: u32 = 0x0800;
pub const ENCRYPTED: u32 = 0x4000;

} // verus!
