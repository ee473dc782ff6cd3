//! NTFS Volume Boot Record ($Boot / VBR).
//!
//! The first sector of an NTFS volume holds the BIOS Parameter Block (BPB) and NTFS's
//! extended BPB. It tells us the geometry needed to locate everything else:
//! sector/cluster size, the total volume size, and the cluster numbers of `$MFT` and
//! `$MFTMirr`.
//!
//! ## Layout (little-endian; offsets in hex)
//!
//! ```text
//! 0x03  u8[8]  OEM ID                 = "NTFS    "
//! 0x0B  u16    bytes per sector
//! 0x0D  u8     sectors per cluster
//! 0x28  u64    total sectors
//! 0x30  u64    $MFT  cluster number (LCN)
//! 0x38  u64    $MFTMirr cluster number (LCN)
//! 0x40  i8     clusters per file-record segment   (signed: <0 => 2^|v| bytes)
//! 0x44  i8     clusters per index buffer          (signed: same encoding)
//! 0x48  u64    volume serial number
//! ```

use vstd::prelude::*;
use crate::bytes;
use crate::error::NtfsError;
use crate::layout;

verus! {

/// Bytes that must be there (the volume serial ends at 0x50).
pub const MIN_LEN: usize = 0x50;

/// Lower sanity bound for record and index buffer sizes (bytes).
pub const MIN_RECORD_SIZE: u64 = 256;

/// Upper sanity bound for record and index buffer sizes (1 MiB).
pub const MAX_RECORD_SIZE: u64 = 0x10_0000;

/// Parsed NTFS boot sector geometry.
#[derive(Debug, Clone, PartialEq, Eq, Structural)]
pub struct BootSector {
    /// Bytes per logical sector (power of two, 256..=4096; typically 512).
    pub bytes_per_sector: u16,
    /// Logical sectors per cluster (power of two; typically 8).
    pub sectors_per_cluster: u8,
    /// Total number of sectors in the volume.
    pub total_sectors: u64,
    /// Cluster number (LCN) of the `$MFT`.
    pub mft_lcn: u64,
    /// Cluster number (LCN) of the `$MFTMirr`.
    pub mftmirr_lcn: u64,
    /// Size of one MFT file-record segment, in bytes (typically 1024).
    pub mft_record_size: u64,
    /// Size of one index buffer, in bytes (typically 4096).
    pub index_record_size: u64,
    /// 64-bit volume serial number.
    pub volume_serial: u64,
}

/// The eight bytes of the OEM identifier.
pub open spec fn oem_at(sector: Seq<u8>) -> [u8; 8] {
    [
        sector[3],
        sector[4],
        sector[5],
        sector[6],
        sector[7],
        sector[8],
        sector[9],
        sector[10],
    ]
}

/// Whether `n` is a power of two.
pub open spec fn is_power_of_two(n: int) -> bool {
    exists|k: nat| n == #[trigger] vstd::arithmetic::power2::pow2(k)
}

/// The size in bytes that a size byte encodes: a count of clusters, or, when the byte is
/// negative as a signed value, a power of two.
pub open spec fn encoded_size(byte: u8, cluster_size: int) -> int {
    if byte < 0x80 {
        byte * cluster_size
    } else {
        vstd::arithmetic::power2::pow2((0x100 - byte) as nat) as int
    }
}

/// Whether a record or index buffer may have this size.
pub open spec fn size_in_bounds(size: int) -> bool {
    MIN_RECORD_SIZE <= size <= MAX_RECORD_SIZE
}

/// The outcome of parsing a boot sector. The checks come in the order of the fields.
pub open spec fn parsed_boot(sector: Seq<u8>) -> Result<BootSector, NtfsError> {
    let bytes_per_sector = bytes::u16_at(sector, 0x0B);
    let sectors_per_cluster = sector[0x0D];
    let cluster_size = bytes_per_sector * sectors_per_cluster;
    if sector.len() < MIN_LEN {
        Err(
            NtfsError::TooShort {
                what: "NTFS boot sector",
                need: MIN_LEN,
                got: sector.len() as usize,
            },
        )
    } else if !bytes::has_at(sector, 3, layout::OEM_ID@) {
        Err(NtfsError::BadOemId(oem_at(sector)))
    } else if !(256 <= bytes_per_sector <= 4096 && is_power_of_two(bytes_per_sector as int)) {
        Err(NtfsError::BadBytesPerSector(bytes_per_sector))
    } else if !is_power_of_two(sectors_per_cluster as int) {
        Err(NtfsError::BadSectorsPerCluster(sectors_per_cluster))
    } else if !size_in_bounds(encoded_size(sector[0x40], cluster_size)) {
        Err(NtfsError::BadRecordSize(sector[0x40]))
    } else if !size_in_bounds(encoded_size(sector[0x44], cluster_size)) {
        Err(NtfsError::BadIndexRecordSize(sector[0x44]))
    } else {
        Ok(
            BootSector {
                bytes_per_sector,
                sectors_per_cluster,
                total_sectors: bytes::u64_at(sector, 0x28),
                mft_lcn: bytes::u64_at(sector, 0x30),
                mftmirr_lcn: bytes::u64_at(sector, 0x38),
                mft_record_size: encoded_size(sector[0x40], cluster_size) as u64,
                index_record_size: encoded_size(sector[0x44], cluster_size) as u64,
                volume_serial: bytes::u64_at(sector, 0x48),
            },
        )
    }
}

/// `a * b`, or `u64::MAX` where the product does not fit.
pub open spec fn saturating_product(a: u64, b: u64) -> u64 {
    if a * b > u64::MAX {
        u64::MAX
    } else {
        (a * b) as u64
    }
}

/// Multiplies, stopping at `u64::MAX`.
pub fn saturating_mul(a: u64, b: u64) -> (r: u64)
    ensures
        r == saturating_product(a, b),
{
    match a.checked_mul(b) {
        Some(p) => p,
        None => u64::MAX,
    }
}

impl BootSector {
    /// Bytes in one cluster.
    pub open spec fn cluster_bytes(self) -> u64 {
        (self.bytes_per_sector * self.sectors_per_cluster) as u64
    }

    /// Cluster size in bytes (`bytes_per_sector * sectors_per_cluster`).
    #[must_use]
    pub fn cluster_size(&self) -> (r: u64)
        ensures
            r == self.bytes_per_sector * self.sectors_per_cluster,
            r == self.cluster_bytes(),
    {
        assert(self.bytes_per_sector * self.sectors_per_cluster <= 0xFFFF * 0xFF)
            by (nonlinear_arith)
            requires
                self.bytes_per_sector <= 0xFFFF,
                self.sectors_per_cluster <= 0xFF,
        ;
        (self.bytes_per_sector as u64) * (self.sectors_per_cluster as u64)
    }

    /// Absolute byte offset of the `$MFT` within the volume.
    #[must_use]
    pub fn mft_byte_offset(&self) -> (r: u64)
        ensures
            r == saturating_product(self.mft_lcn, self.cluster_bytes()),
    {
        saturating_mul(self.mft_lcn, self.cluster_size())
    }

    /// Absolute byte offset of the `$MFTMirr` within the volume.
    #[must_use]
    pub fn mftmirr_byte_offset(&self) -> (r: u64)
        ensures
            r == saturating_product(self.mftmirr_lcn, self.cluster_bytes()),
    {
        saturating_mul(self.mftmirr_lcn, self.cluster_size())
    }

    /// Parses an NTFS boot sector from the start of a volume.
    ///
    /// # Errors
    ///
    /// Returns [`NtfsError::TooShort`] if `sector` is smaller than the BPB,
    /// [`NtfsError::BadOemId`] if it is not an NTFS volume, and the various `Bad*`
    /// variants for out-of-range geometry fields.
    pub fn parse(sector: &[u8]) -> (r: Result<BootSector, NtfsError>)
        ensures
            r == parsed_boot(sector@),
    {
        if sector.len() < MIN_LEN {
            return Err(
                NtfsError::TooShort {
                    what: "NTFS boot sector",
                    need: MIN_LEN,
                    got: sector.len(),
                },
            );
        }
        let oem: [u8; 8] = [
            sector[3],
            sector[4],
            sector[5],
            sector[6],
            sector[7],
            sector[8],
            sector[9],
            sector[10],
        ];
        assert(oem =~= oem_at(sector@));
        if !oem_is_ntfs(sector) {
            return Err(NtfsError::BadOemId(oem));
        }
        let bytes_per_sector: u16 = bytes::le_u16(sector, 0x0B);
        if bytes_per_sector < 256 || bytes_per_sector > 4096 || !power_of_two(
            bytes_per_sector as u64,
        ) {
            return Err(NtfsError::BadBytesPerSector(bytes_per_sector));
        }
        let sectors_per_cluster: u8 = sector[0x0D];
        if !power_of_two(sectors_per_cluster as u64) {
            return Err(NtfsError::BadSectorsPerCluster(sectors_per_cluster));
        }
        assert(bytes_per_sector * sectors_per_cluster <= 4096 * 0xFF) by (nonlinear_arith)
            requires
                bytes_per_sector <= 4096,
                sectors_per_cluster <= 0xFF,
        ;
        let cluster_size: u64 = (bytes_per_sector as u64) * (sectors_per_cluster as u64);
        let mft_record_size: u64 = match decode_size(sector[0x40], cluster_size) {
            Some(s) => s,
            None => {
                return Err(NtfsError::BadRecordSize(sector[0x40]));
            },
        };
        let index_record_size: u64 = match decode_size(sector[0x44], cluster_size) {
            Some(s) => s,
            None => {
                return Err(NtfsError::BadIndexRecordSize(sector[0x44]));
            },
        };
        Ok(
            BootSector {
                bytes_per_sector,
                sectors_per_cluster,
                total_sectors: bytes::le_u64(sector, 0x28),
                mft_lcn: bytes::le_u64(sector, 0x30),
                mftmirr_lcn: bytes::le_u64(sector, 0x38),
                mft_record_size,
                index_record_size,
                volume_serial: bytes::le_u64(sector, 0x48),
            },
        )
    }
}

/// Whether the OEM identifier is that of NTFS.
fn oem_is_ntfs(sector: &[u8]) -> (r: bool)
    requires
        sector.len() >= MIN_LEN,
    ensures
        r == bytes::has_at(sector@, 3, layout::OEM_ID@),
{
    let id: [u8; 8] = layout::OEM_ID;
    let mut i: usize = 0;
    while i < 8
        invariant
            i <= 8,
            sector.len() >= MIN_LEN,
            id@ == layout::OEM_ID@,
            forall|j: int| 0 <= j < i ==> sector@[3 + j] == id@[j],
        decreases 8 - i,
    {
        if sector[3 + i] != id[i] {
            assert(sector@.subrange(3, 11)[i as int] != id@[i as int]);
            return false;
        }
        i += 1;
    }
    assert(sector@.subrange(3, 11) =~= id@);
    true
}

/// Whether `n` is a power of two.
fn power_of_two(n: u64) -> (r: bool)
    requires
        n <= 0xFFFF,
    ensures
        r == is_power_of_two(n as int),
{
    let mut p: u64 = 1;
    let ghost mut k: nat = 0;
    proof {
        vstd::arithmetic::power2::lemma2_to64();
    }
    while p < n
        invariant
            n <= 0xFFFF,
            p == vstd::arithmetic::power2::pow2(k),
            p >= 1,
            p < 2 * n || p == 1,
            forall|j: nat| j < k ==> #[trigger] vstd::arithmetic::power2::pow2(j) < n,
        decreases 2 * n - p,
    {
        proof {
            vstd::arithmetic::power2::lemma_pow2_unfold(k + 1);
            k = k + 1;
        }
        p = p * 2;
    }
    proof {
        if p == n {
            assert(n == vstd::arithmetic::power2::pow2(k));
        } else {
            assert forall|j: nat| #[trigger] vstd::arithmetic::power2::pow2(j) != n by {
                if j >= k {
                    if j > k {
                        vstd::arithmetic::power2::lemma_pow2_strictly_increases(k, j);
                    }
                }
            }
        }
    }
    p == n
}

/// The size that a size byte encodes, when it is in bounds.
fn decode_size(byte: u8, cluster_size: u64) -> (r: Option<u64>)
    requires
        cluster_size <= 4096 * 0xFF,
    ensures
        match r {
            Some(size) => size == encoded_size(byte, cluster_size as int) && size_in_bounds(
                size as int,
            ),
            None => !size_in_bounds(encoded_size(byte, cluster_size as int)),
        },
{
    if byte < 0x80 {
        assert(byte * cluster_size <= 0x80 * (4096 * 0xFF)) by (nonlinear_arith)
            requires
                byte < 0x80,
                cluster_size <= 4096 * 0xFF,
        ;
        let size: u64 = (byte as u64) * cluster_size;
        if MIN_RECORD_SIZE <= size && size <= MAX_RECORD_SIZE {
            Some(size)
        } else {
            None
        }
    } else {
        let exponent: u32 = 0x100 - byte as u32;
        proof {
            vstd::arithmetic::power2::lemma2_to64();
        }
        if exponent < 8 {
            proof {
                vstd::arithmetic::power2::lemma_pow2_strictly_increases(exponent as nat, 8);
            }
            return None;
        }
        if exponent > 20 {
            proof {
                vstd::arithmetic::power2::lemma_pow2_strictly_increases(20, exponent as nat);
            }
            return None;
        }
        let mut size: u64 = 256;
        let mut e: u32 = 8;
        while e < exponent
            invariant
                8 <= e <= exponent <= 20,
                size == vstd::arithmetic::power2::pow2(e as nat),
                size <= 0x10_0000,
            decreases exponent - e,
        {
            proof {
                vstd::arithmetic::power2::lemma2_to64();
                vstd::arithmetic::power2::lemma_pow2_unfold((e + 1) as nat);
                if e + 1 < 20 {
                    vstd::arithmetic::power2::lemma_pow2_strictly_increases((e + 1) as nat, 20);
                }
            }
            size = size * 2;
            e += 1;
        }
        proof {
            if exponent > 8 {
                vstd::arithmetic::power2::lemma_pow2_strictly_increases(8, exponent as nat);
            }
        }
        Some(size)
    }
}

/// A parsed boot sector has a usable geometry: the cluster size is not zero, and
/// record and index sizes are within bounds.
pub proof fn law_parsed_geometry_is_usable(sector: Seq<u8>)
    ensures
        parsed_boot(sector) matches Ok(boot) ==> {
            &&& 256 <= boot.bytes_per_sector <= 4096
            &&& boot.sectors_per_cluster > 0
            &&& boot.cluster_bytes() == boot.bytes_per_sector * boot.sectors_per_cluster
            &&& boot.cluster_bytes() >= 256
            &&& size_in_bounds(boot.mft_record_size as int)
            &&& size_in_bounds(boot.index_record_size as int)
        },
{
    if let Ok(boot) = parsed_boot(sector) {
        let k = choose|k: nat| boot.sectors_per_cluster as int == #[trigger] vstd::arithmetic::power2::pow2(k);
        vstd::arithmetic::power2::lemma_pow2_pos(k);
        assert(256 <= boot.bytes_per_sector * boot.sectors_per_cluster <= 4096 * 0xFF)
            by (nonlinear_arith)
            requires
                256 <= boot.bytes_per_sector <= 4096,
                1 <= boot.sectors_per_cluster <= 0xFF,
        ;
    }
}

/// Whether a size byte stands for `size` bytes: it counts clusters, or it is the negative
/// of the exponent of a power of two, in two's complement.
pub open spec fn size_is_written(byte: u8, size: u64, cluster_size: int) -> bool {
    ||| byte <= 127 && size == byte * cluster_size
    ||| exists|e: nat|
        1 <= e <= 128 && byte + e == 256 && size == #[trigger] vstd::arithmetic::power2::pow2(e)
}

/// Whether `sector` holds the fields of `boot` at their places, behind the identifier.
pub open spec fn holds_boot(sector: Seq<u8>, boot: BootSector) -> bool {
    let cluster_size = boot.bytes_per_sector * boot.sectors_per_cluster;
    &&& sector.len() >= 0x50
    &&& sector.subrange(3, 11) == seq![0x4Eu8, 0x54, 0x46, 0x53, 0x20, 0x20, 0x20, 0x20]
    &&& bytes::spells(sector, 0x0B, 2, boot.bytes_per_sector as nat)
    &&& sector[0x0D] == boot.sectors_per_cluster
    &&& bytes::spells(sector, 0x28, 8, boot.total_sectors as nat)
    &&& bytes::spells(sector, 0x30, 8, boot.mft_lcn as nat)
    &&& bytes::spells(sector, 0x38, 8, boot.mftmirr_lcn as nat)
    &&& size_is_written(sector[0x40], boot.mft_record_size, cluster_size)
    &&& size_is_written(sector[0x44], boot.index_record_size, cluster_size)
    &&& bytes::spells(sector, 0x48, 8, boot.volume_serial as nat)
}

/// Whether the geometry is one that NTFS can have: sectors of 256 to 4096 bytes, records
/// and index buffers of 256 bytes to one mebibyte, and powers of two where they are due.
pub open spec fn is_geometry(boot: BootSector) -> bool {
    &&& 256 <= boot.bytes_per_sector <= 4096
    &&& exists|k: nat| boot.bytes_per_sector == #[trigger] vstd::arithmetic::power2::pow2(k)
    &&& exists|k: nat| boot.sectors_per_cluster == #[trigger] vstd::arithmetic::power2::pow2(k)
    &&& 256 <= boot.mft_record_size <= 0x10_0000
    &&& 256 <= boot.index_record_size <= 0x10_0000
}

proof fn lemma_written_size(byte: u8, size: u64, cluster_size: int)
    requires
        size_is_written(byte, size, cluster_size),
    ensures
        encoded_size(byte, cluster_size) == size,
{
    if !(byte <= 127 && size == byte * cluster_size) {
        let e = choose|e: nat|
            1 <= e <= 128 && byte + e == 256 && size == #[trigger] vstd::arithmetic::power2::pow2(e);
        assert((0x100 - byte) as nat == e);
    }
}

/// A boot sector that was written parses back to its fields, each from its own place.
pub proof fn law_written_boot_sectors_parse_back(sector: Seq<u8>, boot: BootSector)
    requires
        holds_boot(sector, boot),
        is_geometry(boot),
    ensures
        parsed_boot(sector) == Ok::<BootSector, NtfsError>(boot),
{
    let cluster_size = boot.bytes_per_sector * boot.sectors_per_cluster;
    bytes::law_numbers_read_back(sector, 0x0B, boot.bytes_per_sector as nat);
    bytes::law_numbers_read_back(sector, 0x28, boot.total_sectors as nat);
    bytes::law_numbers_read_back(sector, 0x30, boot.mft_lcn as nat);
    bytes::law_numbers_read_back(sector, 0x38, boot.mftmirr_lcn as nat);
    bytes::law_numbers_read_back(sector, 0x48, boot.volume_serial as nat);
    lemma_written_size(sector[0x40], boot.mft_record_size, cluster_size);
    lemma_written_size(sector[0x44], boot.index_record_size, cluster_size);
    assert(layout::OEM_ID@ =~= seq![0x4Eu8, 0x54, 0x46, 0x53, 0x20, 0x20, 0x20, 0x20]);
}

/// Two cluster numbers are a whole number of clusters apart on the volume, and cluster 0 is
/// its start: byte offsets are the multiples of the cluster size, as far as they fit.
pub proof fn law_clusters_lie_one_after_the_other(lcn: u64, boot: BootSector)
    requires
        lcn < u64::MAX,
        (lcn + 1) * boot.cluster_bytes() <= u64::MAX,
    ensures
        saturating_product(0, boot.cluster_bytes()) == 0,
        saturating_product((lcn + 1) as u64, boot.cluster_bytes()) == saturating_product(
            lcn,
            boot.cluster_bytes(),
        ) + boot.bytes_per_sector * boot.sectors_per_cluster,
{
    let size = boot.cluster_bytes() as int;
    assert(boot.bytes_per_sector * boot.sectors_per_cluster <= 0xFFFF * 0xFF && 0
        <= boot.bytes_per_sector * boot.sectors_per_cluster) by (nonlinear_arith)
        requires
            boot.bytes_per_sector <= 0xFFFF,
            boot.sectors_per_cluster <= 0xFF,
    ;
    assert(0 * size == 0);
    assert((lcn + 1) * size == lcn * size + size) by (nonlinear_arith);
}

/// Whatever is parsed is signed as an NTFS boot sector, is long enough for its fields, and
/// has a geometry that NTFS can have.
pub proof fn law_unusable_boot_sectors_are_refused(sector: Seq<u8>)
    ensures
        parsed_boot(sector) matches Ok(boot) ==> {
            &&& sector.len() >= 0x50
            &&& sector.subrange(3, 11) == seq![0x4Eu8, 0x54, 0x46, 0x53, 0x20, 0x20, 0x20, 0x20]
            &&& is_geometry(boot)
        },
{
    assert(layout::OEM_ID@ =~= seq![0x4Eu8, 0x54, 0x46, 0x53, 0x20, 0x20, 0x20, 0x20]);
}

} // verus!
