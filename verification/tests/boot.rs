use ntfs_forensic::boot::BootSector;
use ntfs_forensic::error::NtfsError;

/// Build a synthetic 512-byte NTFS boot sector from field values.

fn make_boot(
    bytes_per_sector: u16,
    sectors_per_cluster: u8,
    total_sectors: u64,
    mft_lcn: u64,
    mftmirr_lcn: u64,
    clusters_per_record: u8,
    clusters_per_index: u8,
    volume_serial: u64,
) -> [u8; 512] {
    let mut b = [0u8; 512];
    b[0..3].copy_from_slice(&[0xEB, 0x52, 0x90]); // jump
    b[3..11].copy_from_slice(b"NTFS    ");
    b[0x0B..0x0D].copy_from_slice(&bytes_per_sector.to_le_bytes());
    b[0x0D] = sectors_per_cluster;
    b[0x15] = 0xF8; // media descriptor
    b[0x28..0x30].copy_from_slice(&total_sectors.to_le_bytes());
    b[0x30..0x38].copy_from_slice(&mft_lcn.to_le_bytes());
    b[0x38..0x40].copy_from_slice(&mftmirr_lcn.to_le_bytes());
    b[0x40] = clusters_per_record;
    b[0x44] = clusters_per_index;
    b[0x48..0x50].copy_from_slice(&volume_serial.to_le_bytes());
    b[510] = 0x55;
    b[511] = 0xAA;
    b
}

#[test]
fn parses_standard_boot_sector() {
    // 512 B/sector, 8 sectors/cluster ⇒ 4096-byte clusters.
    // clusters_per_record = 0xF6 (-10) ⇒ 2^10 = 1024-byte MFT records.
    // clusters_per_index  = 0x01       ⇒ 1 cluster = 4096-byte index buffers.
    let b = make_boot(512, 8, 0x0010_0000, 0x0004_0000, 0x02, 0xF6, 0x01, 0xDEAD_BEEF_CAFE_F00D);
    let bs = BootSector::parse(&b).expect("valid NTFS boot sector");
    assert_eq!(bs.bytes_per_sector, 512);
    assert_eq!(bs.sectors_per_cluster, 8);
    assert_eq!(bs.cluster_size(), 4096);
    assert_eq!(bs.total_sectors, 0x0010_0000);
    assert_eq!(bs.mft_lcn, 0x0004_0000);
    assert_eq!(bs.mftmirr_lcn, 0x02);
    assert_eq!(bs.mft_record_size, 1024);
    assert_eq!(bs.index_record_size, 4096);
    assert_eq!(bs.volume_serial, 0xDEAD_BEEF_CAFE_F00D);
    assert_eq!(bs.mft_byte_offset(), 0x0004_0000 * 4096);
    assert_eq!(bs.mftmirr_byte_offset(), 0x02 * 4096);
}

#[test]
fn positive_clusters_per_record_multiplies_cluster_size() {
    // clusters_per_record = 1 (positive) ⇒ 1 × 4096 = 4096-byte records.
    let b = make_boot(512, 8, 1000, 100, 2, 0x01, 0x01, 0);
    let bs = BootSector::parse(&b).unwrap();
    assert_eq!(bs.mft_record_size, 4096);
}

#[test]
fn rejects_non_ntfs_oem_id() {
    let mut b = make_boot(512, 8, 1000, 100, 2, 0xF6, 0x01, 0);
    b[3..11].copy_from_slice(b"MSDOS5.0");
    assert!(matches!(BootSector::parse(&b), Err(NtfsError::BadOemId(_))));
}

#[test]
fn too_short_returns_error() {
    let short = [0u8; 16];
    assert!(matches!(
        BootSector::parse(&short),
        Err(NtfsError::TooShort { .. })
    ));
}

#[test]
fn rejects_bad_bytes_per_sector() {
    // 513 is neither a power of two nor in range.
    let b = make_boot(513, 8, 1000, 100, 2, 0xF6, 0x01, 0);
    assert!(matches!(
        BootSector::parse(&b),
        Err(NtfsError::BadBytesPerSector(513))
    ));
}

#[test]
fn rejects_zero_sectors_per_cluster() {
    let b = make_boot(512, 0, 1000, 100, 2, 0xF6, 0x01, 0);
    assert!(matches!(
        BootSector::parse(&b),
        Err(NtfsError::BadSectorsPerCluster(0))
    ));
}

#[test]
fn record_size_encoding_min_i8_does_not_panic() {
    // clusters_per_record = 0x80 (-128) ⇒ 2^128, which overflows — must be
    // rejected cleanly, never panic. (This is the isomage/NTFS cpfrs bug.)
    let b = make_boot(512, 8, 1000, 100, 2, 0x80, 0x01, 0);
    assert!(matches!(
        BootSector::parse(&b),
        Err(NtfsError::BadRecordSize(0x80))
    ));
}

#[test]
fn rejects_bad_index_record_size() {
    let b = make_boot(512, 8, 1000, 100, 2, 0xF6, 0x80, 0);
    assert!(matches!(
        BootSector::parse(&b),
        Err(NtfsError::BadIndexRecordSize(0x80))
    ));
}
