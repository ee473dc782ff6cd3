//! Windows `FILETIME`, the timestamp format used throughout NTFS.
//!
//! A `FILETIME` is a 64-bit count of 100-nanosecond intervals since
//! 1601-01-01 00:00:00 UTC. Timestamps are trivially forgeable (timestomping), so
//! this type stays a thin, lossless wrapper over the raw value.

use vstd::prelude::*;
use crate::bytes;

verus! {

/// 100-ns intervals between the FILETIME epoch (1601) and the Unix epoch (1970).
pub const FILETIME_TO_UNIX_100NS: i128 = 116_444_736_000_000_000;

/// 100-ns intervals in one second.
pub const TICKS_PER_SECOND: u64 = 10_000_000;

/// A raw Windows `FILETIME` (100-ns ticks since 1601-01-01 UTC).
#[derive(Debug, Clone, Copy, PartialEq, Eq, PartialOrd, Ord, Structural)]
pub struct Filetime(pub u64);

impl Filetime {
    /// Ticks since the Unix epoch, negative before 1970.
    pub open spec fn unix_ticks(self) -> int {
        self.0 - FILETIME_TO_UNIX_100NS
    }

    /// Reads a little-endian `FILETIME`.
    #[must_use]
    pub fn from_le(bytes: &[u8; 8]) -> (r: Self)
        ensures
            r.0 == bytes::u64_at(bytes@, 0),
    {
        Filetime(bytes::le_u64(bytes.as_slice(), 0))
    }

    /// `true` for the all-zero value (an unset timestamp).
    #[must_use]
    pub fn is_zero(&self) -> (r: bool)
        ensures
            r == (self.0 == 0),
    {
        self.0 == 0
    }

    /// Whole seconds since the Unix epoch, rounded down (negative for pre-1970
    /// times).
    #[must_use]
    pub fn to_unix_seconds(&self) -> (r: i64)
        ensures
            r == self.unix_ticks() / (TICKS_PER_SECOND as int),
    {
        let per_second: u64 = TICKS_PER_SECOND;
        // The two epochs are a whole number of seconds apart.
        let seconds: i64 = (self.0 / per_second) as i64;
        seconds - 11_644_473_600
    }

    /// Nanoseconds since the Unix epoch (`i128` to span the full FILETIME range).
    #[must_use]
    pub fn to_unix_nanos(&self) -> (r: i128)
        ensures
            r == self.unix_ticks() * 100,
    {
        (self.0 as i128 - FILETIME_TO_UNIX_100NS) * 100
    }
}

/// Whole seconds are the nanoseconds divided by 10^9, rounded down.
pub proof fn law_seconds_are_floored_nanos(ft: Filetime)
    ensures
        ft.unix_ticks() / (TICKS_PER_SECOND as int) == (ft.unix_ticks() * 100) / 1_000_000_000,
{
}

/// Later timestamps never map to earlier seconds.
pub proof fn law_seconds_are_monotone(a: Filetime, b: Filetime)
    requires
        a.0 <= b.0,
    ensures
        a.unix_ticks() / (TICKS_PER_SECOND as int) <= b.unix_ticks() / (TICKS_PER_SECOND as int),
{
}

/// Times count from 1601, which was 11,644,473,600 seconds before 1970, in units of a
/// ten-millionth of a second: the next second begins ten million units later.
pub proof fn law_times_count_from_1601(ft: Filetime, later: Filetime)
    requires
        later.0 == ft.0 + 10_000_000,
    ensures
        ft.unix_ticks() + 11_644_473_600 * 10_000_000 == ft.0,
        later.unix_ticks() / (TICKS_PER_SECOND as int) == ft.unix_ticks() / (
        TICKS_PER_SECOND as int) + 1,
{
}

} // verus!
