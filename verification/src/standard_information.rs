//! `$STANDARD_INFORMATION` (type `0x10`): the core file metadata, with the four MACE
//! timestamps, DOS attribute flags, and (NTFS 3.0+) the security id and the
//! `$UsnJrnl` update sequence number.
//!
//! These are the timestamps an attacker most easily forges. Comparing them against
//! the `$FILE_NAME` set is the classic timestomping check.

pub mod file_attr;

use vstd::prelude::*;
use crate::bytes;
use crate::error::NtfsError;
use crate::file_name;
use crate::time::Filetime;

verus! {

/// Minimum `$STANDARD_INFORMATION` content (NTFS 1.2: four timestamps + flags +
/// version fields).
pub const SI_MIN: usize = 0x30;

/// Content length at which NTFS 3.0+ fields (owner/security/quota/usn) appear.
pub const SI_V3: usize = 0x48;

/// Parsed `$STANDARD_INFORMATION` value.
#[derive(Debug, Clone, PartialEq, Eq, Structural)]
pub struct StandardInformation {
    /// Creation time.
    pub created: Filetime,
    /// File content modification time ("M").
    pub modified: Filetime,
    /// MFT record modification time ("C" / entry-changed).
    pub mft_modified: Filetime,
    /// Last access time ("A").
    pub accessed: Filetime,
    /// `FILE_ATTRIBUTE_*` flags.
    pub file_attributes: u32,
    /// Security id (NTFS 3.0+), else `None`.
    pub security_id: Option<u32>,
    /// `$UsnJrnl` update sequence number (NTFS 3.0+), else `None`.
    pub usn: Option<u64>,
}

/// The outcome of parsing a `$STANDARD_INFORMATION` value: its fields, unless the
/// content is too short. The NTFS 3.0 fields are there only when the content reaches
/// them.
pub open spec fn parsed_information(content: Seq<u8>) -> Result<StandardInformation, NtfsError> {
    if content.len() < SI_MIN {
        Err(
            NtfsError::TooShort {
                what: "$STANDARD_INFORMATION",
                need: SI_MIN,
                got: content.len() as usize,
            },
        )
    } else {
        Ok(
            StandardInformation {
                created: file_name::filetime_at(content, 0x00),
                modified: file_name::filetime_at(content, 0x08),
                mft_modified: file_name::filetime_at(content, 0x10),
                accessed: file_name::filetime_at(content, 0x18),
                file_attributes: bytes::u32_at(content, 0x20),
                security_id: if content.len() >= SI_V3 {
                    Some(bytes::u32_at(content, 0x34))
                } else {
                    None
                },
                usn: if content.len() >= SI_V3 {
                    Some(bytes::u64_at(content, 0x40))
                } else {
                    None
                },
            },
        )
    }
}

impl StandardInformation {
    /// `true` if the hidden attribute is set.
    #[must_use]
    pub fn is_hidden(&self) -> (r: bool)
        ensures
            r == (self.file_attributes & file_attr::HIDDEN != 0),
            r == (self.file_attributes / 2 % 2 == 1),
    {
        proof {
            let flags = self.file_attributes;
            assert(flags & 0x0002u32 != 0 <==> flags / 2 % 2 == 1) by (bit_vector);
        }
        self.file_attributes & file_attr::HIDDEN != 0
    }

    /// `true` if the system attribute is set.
    #[must_use]
    pub fn is_system(&self) -> (r: bool)
        ensures
            r == (self.file_attributes & file_attr::SYSTEM != 0),
            r == (self.file_attributes / 4 % 2 == 1),
    {
        proof {
            let flags = self.file_attributes;
            assert(flags & 0x0004u32 != 0 <==> flags / 4 % 2 == 1) by (bit_vector);
        }
        self.file_attributes & file_attr::SYSTEM != 0
    }

    /// `true` if the read-only attribute is set.
    #[must_use]
    pub fn is_read_only(&self) -> (r: bool)
        ensures
            r == (self.file_attributes & file_attr::READONLY != 0),
            r == (self.file_attributes % 2 == 1),
    {
        proof {
            let flags = self.file_attributes;
            assert(flags & 0x0001u32 != 0 <==> flags % 2 == 1) by (bit_vector);
        }
        self.file_attributes & file_attr::READONLY != 0
    }

    /// Parses a `$STANDARD_INFORMATION` value from its resident content bytes.
    ///
    /// # Errors
    ///
    /// [`NtfsError::TooShort`] when `content` is smaller than the minimum.
    pub fn parse(content: &[u8]) -> (r: Result<StandardInformation, NtfsError>)
        ensures
            r == parsed_information(content@),
    {
        if content.len() < SI_MIN {
            return Err(
                NtfsError::TooShort {
                    what: "$STANDARD_INFORMATION",
                    need: SI_MIN,
                    got: content.len(),
                },
            );
        }
        let v3 = content.len() >= SI_V3;
        Ok(
            StandardInformation {
                created: Filetime(bytes::le_u64(content, 0x00)),
                modified: Filetime(bytes::le_u64(content, 0x08)),
                mft_modified: Filetime(bytes::le_u64(content, 0x10)),
                accessed: Filetime(bytes::le_u64(content, 0x18)),
                file_attributes: bytes::le_u32(content, 0x20),
                security_id: if v3 {
                    Some(bytes::le_u32(content, 0x34))
                } else {
                    None
                },
                usn: if v3 {
                    Some(bytes::le_u64(content, 0x40))
                } else {
                    None
                },
            },
        )
    }
}

/// Whether `content` holds the fields of `si` at their places.
pub open spec fn holds_information(content: Seq<u8>, si: StandardInformation) -> bool {
    &&& content.len() >= 0x30
    &&& bytes::spells(content, 0x00, 8, si.created.0 as nat)
    &&& bytes::spells(content, 0x08, 8, si.modified.0 as nat)
    &&& bytes::spells(content, 0x10, 8, si.mft_modified.0 as nat)
    &&& bytes::spells(content, 0x18, 8, si.accessed.0 as nat)
    &&& bytes::spells(content, 0x20, 4, si.file_attributes as nat)
    &&& si.security_id is Some <==> content.len() >= 0x48
    &&& si.usn is Some <==> content.len() >= 0x48
    &&& si.security_id matches Some(id) ==> bytes::spells(content, 0x34, 4, id as nat)
    &&& si.usn matches Some(usn) ==> bytes::spells(content, 0x40, 8, usn as nat)
}

/// Information that was written parses back to its fields, each from its own place. The
/// security id and the journal position are there exactly in the longer form.
pub proof fn law_written_information_parses_back(content: Seq<u8>, si: StandardInformation)
    requires
        holds_information(content, si),
    ensures
        parsed_information(content) == Ok::<StandardInformation, NtfsError>(si),
{
    bytes::law_numbers_read_back(content, 0x00, si.created.0 as nat);
    bytes::law_numbers_read_back(content, 0x08, si.modified.0 as nat);
    bytes::law_numbers_read_back(content, 0x10, si.mft_modified.0 as nat);
    bytes::law_numbers_read_back(content, 0x18, si.accessed.0 as nat);
    bytes::law_numbers_read_back(content, 0x20, si.file_attributes as nat);
    if let Some(id) = si.security_id {
        bytes::law_numbers_read_back(content, 0x34, id as nat);
    }
    if let Some(usn) = si.usn {
        bytes::law_numbers_read_back(content, 0x40, usn as nat);
    }
}

/// Information is refused only when it is shorter than its oldest form.
pub proof fn law_only_short_information_is_refused(content: Seq<u8>)
    ensures
        parsed_information(content) is Ok <==> content.len() >= 0x30,
{
}

} // verus!
