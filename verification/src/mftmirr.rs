//! `$MFTMirr`: the copy of the first four `$MFT` records.
//!
//! NTFS keeps a copy of the records of `$MFT`, `$MFTMirr`, `$LogFile` and `$Volume`. A
//! record that differs from its copy is consistent with tampering or corruption.

use vstd::prelude::*;
use crate::bytes;
use crate::error::NtfsError;

verus! {

/// Bytes in one mirrored record.
pub const MIRROR_RECORD_SIZE: usize = 1024;

/// How many records are mirrored.
pub const MIRRORED_RECORDS: usize = 4;

/// Bytes that the mirrored records take up.
pub const MIRROR_SIZE: usize = 4096;

/// How the mirrored records compare.
#[derive(Debug, Clone, Copy, PartialEq, Eq)]
pub struct MirrorComparison {
    /// For each mirrored record, whether it equals its copy.
    pub matches: [bool; 4],
    /// Whether every mirrored record equals its copy.
    pub is_consistent: bool,
}

/// Record `i` of a table.
pub open spec fn mirrored(table: Seq<u8>, i: int) -> Seq<u8> {
    table.subrange(i * MIRROR_RECORD_SIZE, (i + 1) * MIRROR_RECORD_SIZE)
}

/// Whether record `i` equals its copy.
pub open spec fn record_matches(mft: Seq<u8>, mirror: Seq<u8>, i: int) -> bool {
    mirrored(mft, i) == mirrored(mirror, i)
}

/// Why the two tables cannot be compared, if they cannot.
pub open spec fn mirror_defect(mft: Seq<u8>, mirror: Seq<u8>) -> Option<NtfsError> {
    if mft.len() < MIRROR_SIZE {
        Some(NtfsError::TooShort { what: "$MFT", need: MIRROR_SIZE, got: mft.len() as usize })
    } else if mirror.len() < MIRROR_SIZE {
        Some(
            NtfsError::TooShort { what: "$MFTMirr", need: MIRROR_SIZE, got: mirror.len() as usize },
        )
    } else {
        None
    }
}

/// Whether the bytes in `[start, end)` agree.
fn same_range(a: &[u8], b: &[u8], start: usize, end: usize) -> (r: bool)
    requires
        start <= end <= a@.len(),
        end <= b@.len(),
    ensures
        r == (a@.subrange(start as int, end as int) == b@.subrange(start as int, end as int)),
{
    bytes::same(
        vstd::slice::slice_subrange(a, start, end),
        vstd::slice::slice_subrange(b, start, end),
    )
}

/// Compares the first four records of `$MFT` with their copies in `$MFTMirr`.
///
/// # Errors
///
/// [`NtfsError::TooShort`] when either table does not hold four records.
pub fn compare_mft_mirror(mft_data: &[u8], mftmirr_data: &[u8]) -> (r: Result<
    MirrorComparison,
    NtfsError,
>)
    ensures
        match mirror_defect(mft_data@, mftmirr_data@) {
            Some(e) => r == Err::<MirrorComparison, NtfsError>(e),
            None => r matches Ok(cmp) && {
                &&& forall|i: int|
                    0 <= i < MIRRORED_RECORDS ==> #[trigger] cmp.matches[i] == record_matches(
                        mft_data@,
                        mftmirr_data@,
                        i,
                    )
                &&& cmp.is_consistent <==> forall|i: int|
                    0 <= i < MIRRORED_RECORDS ==> #[trigger] record_matches(
                        mft_data@,
                        mftmirr_data@,
                        i,
                    )
            },
        },
{
    if mft_data.len() < MIRROR_SIZE {
        return Err(NtfsError::TooShort { what: "$MFT", need: MIRROR_SIZE, got: mft_data.len() });
    }
    if mftmirr_data.len() < MIRROR_SIZE {
        return Err(
            NtfsError::TooShort { what: "$MFTMirr", need: MIRROR_SIZE, got: mftmirr_data.len() },
        );
    }
    let first = same_range(mft_data, mftmirr_data, 0, 0x400);
    let second = same_range(mft_data, mftmirr_data, 0x400, 0x800);
    let third = same_range(mft_data, mftmirr_data, 0x800, 0xC00);
    let fourth = same_range(mft_data, mftmirr_data, 0xC00, 0x1000);
    proof {
        assert(first == record_matches(mft_data@, mftmirr_data@, 0));
        assert(second == record_matches(mft_data@, mftmirr_data@, 1));
        assert(third == record_matches(mft_data@, mftmirr_data@, 2));
        assert(fourth == record_matches(mft_data@, mftmirr_data@, 3));
    }
    Ok(
        MirrorComparison {
            matches: [first, second, third, fourth],
            is_consistent: first && second && third && fourth,
        },
    )
}

/// A table that is long enough is consistent with itself.
pub proof fn law_a_table_mirrors_itself(mft: Seq<u8>)
    requires
        mft.len() >= MIRROR_SIZE,
    ensures
        mirror_defect(mft, mft) is None,
        forall|i: int| 0 <= i < MIRRORED_RECORDS ==> #[trigger] record_matches(mft, mft, i),
{
}

/// The comparison does not depend on which table is the copy.
pub proof fn law_comparison_is_symmetric(mft: Seq<u8>, mirror: Seq<u8>, i: int)
    ensures
        record_matches(mft, mirror, i) == record_matches(mirror, mft, i),
{
}

/// A record matches its copy exactly when its 1024 bytes do, one by one: no difference goes
/// unseen, and none elsewhere counts. Four such records are needed of each table.
pub proof fn law_every_byte_of_a_record_counts(mft: Seq<u8>, mirror: Seq<u8>, i: int)
    ensures
        mirror_defect(mft, mirror) is None <==> mft.len() >= 4 * 1024 && mirror.len() >= 4 * 1024,
        mirror_defect(mft, mirror) is None && 0 <= i < 4 ==> (record_matches(mft, mirror, i)
            <==> forall|j: int|
            1024 * i <= j < 1024 * i + 1024 ==> #[trigger] mft[j] == mirror[j]),
{
    if mirror_defect(mft, mirror) is None && 0 <= i < 4 {
        let a = mirrored(mft, i);
        let b = mirrored(mirror, i);
        if record_matches(mft, mirror, i) {
            assert forall|j: int| 1024 * i <= j < 1024 * i + 1024 implies #[trigger] mft[j]
                == mirror[j] by {
                assert(a[j - 1024 * i] == b[j - 1024 * i]);
            }
        }
        if forall|j: int| 1024 * i <= j < 1024 * i + 1024 ==> #[trigger] mft[j] == mirror[j] {
            assert(a =~= b);
        }
    }
}

} // verus!
