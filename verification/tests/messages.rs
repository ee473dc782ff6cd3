use ntfs_forensic::error::{IoFault, NtfsError};

#[test]
fn every_error_says_what_is_wrong() {
    let cases = [
        (
            NtfsError::TooShort {
                what: "$FILE_NAME",
                need: 66,
                got: 32,
            },
            "input too short for $FILE_NAME: need 66 bytes, got 32",
        ),
        (
            NtfsError::BadOemId(*b"MSDOS5.0"),
            "not an NTFS volume: OEM ID is [4d, 53, 44, 4f, 53, 35, 2e, 30], expected \"NTFS    \"",
        ),
        (
            NtfsError::BadBytesPerSector(513),
            "invalid bytes-per-sector: 513 (must be a power of two in 256..=4096)",
        ),
        (
            NtfsError::BadSectorsPerCluster(3),
            "invalid sectors-per-cluster encoding: 0x03",
        ),
        (
            NtfsError::BadRecordSize(0x80),
            "invalid MFT record size encoding: byte 0x80",
        ),
        (
            NtfsError::BadIndexRecordSize(0xFF),
            "invalid index record size encoding: byte 0xff",
        ),
        (
            NtfsError::BadRecordSignature([0x00, 0x0F, 0x10, 0xAB]),
            "bad MFT record signature: [0, f, 10, ab] (expected \"FILE\" or \"BAAD\")",
        ),
        (
            NtfsError::FixupMismatch {
                sector: 1,
                expected: 0xABCD,
                found: 0x00EF,
            },
            "fixup mismatch in sector 1: expected USN 0xabcd, found 0x00ef",
        ),
        (
            NtfsError::BadUpdateSequence("count is zero"),
            "malformed update sequence array: count is zero",
        ),
        (
            NtfsError::BadAttribute {
                offset: 1024,
                detail: "length overflow",
            },
            "corrupt attribute at offset 1024: length overflow",
        ),
        (NtfsError::BadRunlist("zero length"), "malformed runlist: zero length"),
        (NtfsError::BadIndex("bad"), "malformed index: bad"),
        (NtfsError::NotFound("a/b".to_string()), "path not found: a/b"),
        (NtfsError::NotADirectory("a".to_string()), "not a directory: a"),
        (
            NtfsError::TooLarge {
                bytes: u64::MAX,
            },
            "refusing to allocate 18446744073709551615 bytes",
        ),
        (
            NtfsError::Io(IoFault::UnexpectedEof),
            "I/O error: failed to fill whole buffer",
        ),
        (
            NtfsError::Io(IoFault::InvalidInput("offset overflow")),
            "I/O error: offset overflow",
        ),
        (
            NtfsError::Io(IoFault::Other("device gone".to_string())),
            "I/O error: device gone",
        ),
    ];
    for (error, text) in cases {
        assert_eq!(error.message(), text);
    }
}
