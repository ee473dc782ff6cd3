use ntfs_forensic::error::NtfsError;
use ntfs_forensic::record::{apply_fixup, MftRecordHeader};
use forensicnomicon::ntfs::mft_flags;

/// Build a `FILE` record with a valid USA: `usn` written to each sector
/// tail, the `originals` stored in the USA. One original per sector.
fn make_record(size: usize, sector_size: usize, usn: u16, originals: &[u16]) -> Vec<u8> {
    assert_eq!(
        size / sector_size,
        originals.len(),
        "one original per sector"
    );
    let mut b = vec![0u8; size];
    b[0..4].copy_from_slice(b"FILE");
    let usa_offset: u16 = 0x30;
    let usa_count = (originals.len() + 1) as u16;
    b[0x04..0x06].copy_from_slice(&usa_offset.to_le_bytes());
    b[0x06..0x08].copy_from_slice(&usa_count.to_le_bytes());
    // first attribute offset: just past the USA.
    let first_attr = usa_offset + usa_count * 2;
    b[0x14..0x16].copy_from_slice(&first_attr.to_le_bytes());
    b[0x16..0x18].copy_from_slice(&mft_flags::IN_USE.to_le_bytes());

    let uo = usa_offset as usize;
    b[uo..uo + 2].copy_from_slice(&usn.to_le_bytes());
    for (i, orig) in originals.iter().enumerate() {
        let p = uo + 2 + i * 2;
        b[p..p + 2].copy_from_slice(&orig.to_le_bytes());
        // On disk, each sector tail holds the USN sentinel.
        let tail = (i + 1) * sector_size - 2;
        b[tail..tail + 2].copy_from_slice(&usn.to_le_bytes());
    }
    b
}

// ── MftRecordHeader::parse ────────────────────────────────────────────────

#[test]
fn parses_file_record_header() {
    let mut b = make_record(1024, 512, 0xABCD, &[0x1111, 0x2222]);
    // Set a few more header fields directly.
    b[0x08..0x10].copy_from_slice(&0x0000_0000_DEAD_BEEFu64.to_le_bytes()); // LSN
    b[0x10..0x12].copy_from_slice(&7u16.to_le_bytes()); // sequence number
    b[0x12..0x14].copy_from_slice(&1u16.to_le_bytes()); // hard link count
    b[0x18..0x1C].copy_from_slice(&0x0000_0188u32.to_le_bytes()); // used size
    b[0x1C..0x20].copy_from_slice(&1024u32.to_le_bytes()); // allocated size
    b[0x20..0x28].copy_from_slice(&0u64.to_le_bytes()); // base record (base)
    b[0x28..0x2A].copy_from_slice(&3u16.to_le_bytes()); // next attr id
    b[0x2C..0x30].copy_from_slice(&42u32.to_le_bytes()); // record number

    let h = MftRecordHeader::parse(&b).expect("valid FILE record");
    assert_eq!(&h.signature, b"FILE");
    assert_eq!(h.usa_offset, 0x30);
    assert_eq!(h.usa_count, 3);
    assert_eq!(h.lsn, 0xDEAD_BEEF);
    assert_eq!(h.sequence_number, 7);
    assert_eq!(h.hard_link_count, 1);
    assert_eq!(h.first_attribute_offset, 0x30 + 3 * 2);
    assert_eq!(h.used_size, 0x188);
    assert_eq!(h.allocated_size, 1024);
    assert_eq!(h.next_attr_id, 3);
    assert_eq!(h.record_number, 42);
    assert!(h.is_in_use());
    assert!(!h.is_directory());
    assert!(h.is_base_record());
    assert!(!h.is_corrupt());
}

#[test]
fn directory_and_extension_flags_decode() {
    let mut b = make_record(1024, 512, 1, &[0, 0]);
    b[0x16..0x18].copy_from_slice(&(mft_flags::IN_USE | mft_flags::DIRECTORY).to_le_bytes());
    b[0x20..0x28].copy_from_slice(&0x0001_0000_0000_0005u64.to_le_bytes()); // base ref (extension)
    let h = MftRecordHeader::parse(&b).unwrap();
    assert!(h.is_in_use());
    assert!(h.is_directory());
    assert!(!h.is_base_record());
}

#[test]
fn baad_signature_parses_as_corrupt() {
    let mut b = make_record(1024, 512, 1, &[0, 0]);
    b[0..4].copy_from_slice(b"BAAD");
    let h = MftRecordHeader::parse(&b).expect("BAAD is a valid (corrupt) record");
    assert!(h.is_corrupt());
}

#[test]
fn rejects_unknown_signature() {
    let mut b = make_record(1024, 512, 1, &[0, 0]);
    b[0..4].copy_from_slice(b"XXXX");
    assert!(matches!(
        MftRecordHeader::parse(&b),
        Err(NtfsError::BadRecordSignature(s)) if &s == b"XXXX"
    ));
}

#[test]
fn header_too_short_returns_error() {
    let b = vec![b'F', b'I', b'L', b'E', 0, 0];
    assert!(matches!(
        MftRecordHeader::parse(&b),
        Err(NtfsError::TooShort { .. })
    ));
}

// ── apply_fixup ───────────────────────────────────────────────────────────

#[test]
fn fixup_restores_sector_tails() {
    let mut b = make_record(1024, 512, 0xABCD, &[0x1111, 0x2222]);
    // Before fixup the tails hold the USN sentinel.
    assert_eq!(&b[510..512], &0xABCDu16.to_le_bytes());
    assert_eq!(&b[1022..1024], &0xABCDu16.to_le_bytes());

    apply_fixup(&mut b, 512).expect("valid fixup");

    // After fixup the tails hold the original values from the USA.
    assert_eq!(u16::from_le_bytes([b[510], b[511]]), 0x1111);
    assert_eq!(u16::from_le_bytes([b[1022], b[1023]]), 0x2222);
}

#[test]
fn fixup_detects_torn_write() {
    let mut b = make_record(1024, 512, 0xABCD, &[0x1111, 0x2222]);
    // Corrupt the second sector's tail so it no longer matches the USN.
    b[1022..1024].copy_from_slice(&0xDEADu16.to_le_bytes());
    assert!(matches!(
        apply_fixup(&mut b, 512),
        Err(NtfsError::FixupMismatch {
            sector: 1,
            expected: 0xABCD,
            found: 0xDEAD
        })
    ));
}

#[test]
fn fixup_rejects_zero_usa_count() {
    let mut b = make_record(1024, 512, 1, &[0, 0]);
    b[0x06..0x08].copy_from_slice(&0u16.to_le_bytes()); // usa_count = 0
    assert!(matches!(
        apply_fixup(&mut b, 512),
        Err(NtfsError::BadUpdateSequence(_))
    ));
}

#[test]
fn fixup_rejects_usa_out_of_bounds() {
    let mut b = make_record(1024, 512, 1, &[0, 0]);
    b[0x04..0x06].copy_from_slice(&0x0FFEu16.to_le_bytes()); // usa_offset near end
    b[0x06..0x08].copy_from_slice(&8u16.to_le_bytes()); // count overruns buffer
    assert!(matches!(
        apply_fixup(&mut b, 512),
        Err(NtfsError::BadUpdateSequence(_))
    ));
}
