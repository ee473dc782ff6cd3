//! `$FILE_NAME` (type `0x30`): a name link for a file, with its parent directory
//! reference, a *second* set of MACE timestamps, the file sizes, flags, and the name
//! itself in one of four namespaces.
//!
//! A record may hold several `$FILE_NAME` attributes (one per hard link, plus a short
//! DOS 8.3 name). The parent reference is what path reconstruction walks; the `$FN`
//! timestamps are the harder-to-forge counterpart used for timestomping detection.

use vstd::prelude::*;
use crate::bytes;
use crate::error::NtfsError;
use crate::layout;
use crate::names;
use crate::text;
use crate::time::Filetime;
use crate::walk;

verus! {

/// Minimum `$FILE_NAME` content (through the namespace byte; the name follows).
pub const FN_MIN: usize = 0x42;

/// A 64-bit NTFS file reference: a 48-bit MFT record number plus a 16-bit sequence
/// (reuse) number. A stale sequence flags a dangling reference.
#[derive(Debug, Clone, Copy, PartialEq, Eq, Structural)]
pub struct FileReference {
    /// MFT record number (low 48 bits).
    pub record_number: u64,
    /// Sequence number (high 16 bits).
    pub sequence: u16,
}

/// The reference that a raw 64-bit value packs.
pub open spec fn reference_of(raw: u64) -> FileReference {
    FileReference {
        record_number: (raw as int % 0x1_0000_0000_0000) as u64,
        sequence: (raw as int / 0x1_0000_0000_0000) as u16,
    }
}

impl FileReference {
    /// Splits a 64-bit reference into record number and sequence.
    #[must_use]
    pub fn from_u64(raw: u64) -> (r: Self)
        ensures
            r == reference_of(raw),
    {
        let record_number: u64 = raw % 0x1_0000_0000_0000;
        let sequence: u16 = (raw / 0x1_0000_0000_0000) as u16;
        FileReference { record_number, sequence }
    }
}

/// Splitting a reference loses nothing: the two parts give the raw value back, and the
/// record number fits in 48 bits.
pub proof fn law_reference_parts_rebuild_the_raw_value(raw: u64)
    ensures
        reference_of(raw).record_number + 0x1_0000_0000_0000 * reference_of(raw).sequence == raw,
        reference_of(raw).record_number < 0x1_0000_0000_0000,
{
}

/// Parsed `$FILE_NAME` value.
#[derive(Debug, Clone, PartialEq, Eq)]
pub struct FileName {
    /// Reference to the parent directory.
    pub parent: FileReference,
    /// Creation time.
    pub created: Filetime,
    /// File content modification time.
    pub modified: Filetime,
    /// MFT record modification time.
    pub mft_modified: Filetime,
    /// Last access time.
    pub accessed: Filetime,
    /// Allocated size of the file, in bytes.
    pub allocated_size: u64,
    /// Real (logical) size of the file, in bytes.
    pub real_size: u64,
    /// `FILE_ATTRIBUTE_*` flags.
    pub flags: u32,
    /// Namespace code.
    pub namespace: u8,
    /// The decoded file name.
    pub name: String,
}

/// The mathematical content of a [`FileName`].
#[verifier::ext_equal]
pub struct FileNameView {
    pub parent: FileReference,
    pub created: Filetime,
    pub modified: Filetime,
    pub mft_modified: Filetime,
    pub accessed: Filetime,
    pub allocated_size: u64,
    pub real_size: u64,
    pub flags: u32,
    pub namespace: u8,
    pub name: Seq<char>,
}

impl View for FileName {
    type V = FileNameView;

    open spec fn view(&self) -> FileNameView {
        FileNameView {
            parent: self.parent,
            created: self.created,
            modified: self.modified,
            mft_modified: self.mft_modified,
            accessed: self.accessed,
            allocated_size: self.allocated_size,
            real_size: self.real_size,
            flags: self.flags,
            namespace: self.namespace,
            name: self.name@,
        }
    }
}

/// The timestamp stored at `off`.
pub open spec fn filetime_at(s: Seq<u8>, off: int) -> Filetime {
    Filetime(bytes::u64_at(s, off))
}

/// Where the name of a `$FILE_NAME` value ends.
pub open spec fn name_end(content: Seq<u8>) -> int {
    FN_MIN + 2 * content[0x40]
}

/// The outcome of parsing a `$FILE_NAME` value: its fields, unless the content is
/// shorter than the fixed part or than the name that it declares.
pub open spec fn parsed_name(content: Seq<u8>) -> Result<FileNameView, NtfsError> {
    if content.len() < FN_MIN {
        Err(NtfsError::TooShort { what: "$FILE_NAME", need: FN_MIN, got: content.len() as usize })
    } else if name_end(content) > content.len() {
        Err(NtfsError::BadAttribute { offset: 0, detail: "$FILE_NAME name extends past content" })
    } else {
        Ok(
            FileNameView {
                parent: reference_of(bytes::u64_at(content, 0x00)),
                created: filetime_at(content, 0x08),
                modified: filetime_at(content, 0x10),
                mft_modified: filetime_at(content, 0x18),
                accessed: filetime_at(content, 0x20),
                allocated_size: bytes::u64_at(content, 0x28),
                real_size: bytes::u64_at(content, 0x30),
                flags: bytes::u32_at(content, 0x38),
                namespace: content[0x41],
                name: text::utf16le_text(content.subrange(FN_MIN as int, name_end(content))),
            },
        )
    }
}

impl FileName {
    /// Human-readable namespace name, if recognised.
    #[must_use]
    pub fn namespace_name(&self) -> (r: Option<&'static str>)
        ensures
            r == names::namespace_label(self.namespace),
    {
        forensicnomicon::ntfs::filename_namespace::name(self.namespace)
    }

    /// `true` if this is the short DOS (8.3) name, the one tools often omit when
    /// listing, and which carries its own timestamps.
    #[must_use]
    pub fn is_dos_namespace(&self) -> (r: bool)
        ensures
            r == (self.namespace == layout::NS_DOS),
    {
        self.namespace == layout::NS_DOS
    }

    /// Parses a `$FILE_NAME` value from its resident content bytes.
    ///
    /// # Errors
    ///
    /// [`NtfsError::TooShort`] when smaller than the fixed header, or
    /// [`NtfsError::BadAttribute`] when the name runs past the content.
    pub fn parse(content: &[u8]) -> (r: Result<FileName, NtfsError>)
        ensures
            walk::model(r) == parsed_name(content@),
    {
        if content.len() < FN_MIN {
            return Err(
                NtfsError::TooShort { what: "$FILE_NAME", need: FN_MIN, got: content.len() },
            );
        }
        let name_stop: usize = FN_MIN + 2 * (content[0x40] as usize);
        if name_stop > content.len() {
            return Err(
                NtfsError::BadAttribute {
                    offset: 0,
                    detail: "$FILE_NAME name extends past content",
                },
            );
        }
        let name = text::decode_utf16le(vstd::slice::slice_subrange(content, FN_MIN, name_stop));
        Ok(
            FileName {
                parent: FileReference::from_u64(bytes::le_u64(content, 0x00)),
                created: Filetime(bytes::le_u64(content, 0x08)),
                modified: Filetime(bytes::le_u64(content, 0x10)),
                mft_modified: Filetime(bytes::le_u64(content, 0x18)),
                accessed: Filetime(bytes::le_u64(content, 0x20)),
                allocated_size: bytes::le_u64(content, 0x28),
                real_size: bytes::le_u64(content, 0x30),
                flags: bytes::le_u32(content, 0x38),
                namespace: content[0x41],
                name,
            },
        )
    }
}

/// Whether `content` holds the fields of `f` at their places, its name as `units`.
pub open spec fn holds_name(content: Seq<u8>, f: FileNameView, units: Seq<u16>) -> bool {
    &&& f.parent.record_number < 0x1_0000_0000_0000
    &&& bytes::spells(
        content,
        0x00,
        8,
        (f.parent.record_number + 0x1_0000_0000_0000 * f.parent.sequence) as nat,
    )
    &&& bytes::spells(content, 0x08, 8, f.created.0 as nat)
    &&& bytes::spells(content, 0x10, 8, f.modified.0 as nat)
    &&& bytes::spells(content, 0x18, 8, f.mft_modified.0 as nat)
    &&& bytes::spells(content, 0x20, 8, f.accessed.0 as nat)
    &&& bytes::spells(content, 0x28, 8, f.allocated_size as nat)
    &&& bytes::spells(content, 0x30, 8, f.real_size as nat)
    &&& bytes::spells(content, 0x38, 4, f.flags as nat)
    &&& bytes::spells(content, 0x40, 1, units.len())
    &&& bytes::spells(content, 0x41, 1, f.namespace as nat)
    &&& text::stand_at(content, 0x42, units)
    &&& f.name == text::utf16_lossy(units)
}

/// A name that was written parses back to its fields, each from its own place.
pub proof fn law_written_names_parse_back(content: Seq<u8>, f: FileNameView, units: Seq<u16>)
    requires
        holds_name(content, f, units),
    ensures
        parsed_name(content) == Ok::<FileNameView, NtfsError>(f),
{
    reveal_with_fuel(bytes::spells, 2);
    let raw = f.parent.record_number + 0x1_0000_0000_0000 * f.parent.sequence;
    bytes::law_numbers_read_back(content, 0x00, raw as nat);
    bytes::law_numbers_read_back(content, 0x08, f.created.0 as nat);
    bytes::law_numbers_read_back(content, 0x10, f.modified.0 as nat);
    bytes::law_numbers_read_back(content, 0x18, f.mft_modified.0 as nat);
    bytes::law_numbers_read_back(content, 0x20, f.accessed.0 as nat);
    bytes::law_numbers_read_back(content, 0x28, f.allocated_size as nat);
    bytes::law_numbers_read_back(content, 0x30, f.real_size as nat);
    bytes::law_numbers_read_back(content, 0x38, f.flags as nat);
    assert(reference_of(raw as u64) == f.parent);
    text::law_written_units_read_back(content, 0x42, units);
}

/// A name is refused only when its fixed part is not there, or when it is longer than what
/// follows that part.
pub proof fn law_only_cut_off_names_are_refused(content: Seq<u8>)
    ensures
        parsed_name(content) is Ok <==> content.len() >= 0x42 && 0x42 + 2 * content[0x40]
            <= content.len(),
{
}

} // verus!
