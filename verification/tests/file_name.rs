use forensicnomicon::ntfs::filename_namespace;
use ntfs_forensic::error::NtfsError;
use ntfs_forensic::file_name::{FileName, FileReference, FN_MIN};
use ntfs_forensic::standard_information::file_attr;
use ntfs_forensic::time::Filetime;


fn make_fn(
    parent: u64,
    created: u64,
    modified: u64,
    mft_modified: u64,
    accessed: u64,
    allocated: u64,
    real: u64,
    flags: u32,
    namespace: u8,
    name: &str,
) -> Vec<u8> {
    let name_units: Vec<u16> = name.encode_utf16().collect();
    let mut c = vec![0u8; FN_MIN + name_units.len() * 2];
    c[0x00..0x08].copy_from_slice(&parent.to_le_bytes());
    c[0x08..0x10].copy_from_slice(&created.to_le_bytes());
    c[0x10..0x18].copy_from_slice(&modified.to_le_bytes());
    c[0x18..0x20].copy_from_slice(&mft_modified.to_le_bytes());
    c[0x20..0x28].copy_from_slice(&accessed.to_le_bytes());
    c[0x28..0x30].copy_from_slice(&allocated.to_le_bytes());
    c[0x30..0x38].copy_from_slice(&real.to_le_bytes());
    c[0x38..0x3C].copy_from_slice(&flags.to_le_bytes());
    c[0x40] = name_units.len() as u8;
    c[0x41] = namespace;
    for (i, u) in name_units.iter().enumerate() {
        let p = 0x42 + i * 2;
        c[p..p + 2].copy_from_slice(&u.to_le_bytes());
    }
    c
}

#[test]
fn file_reference_splits_record_and_sequence() {
    // sequence 5 in the high 16 bits, record number 0x1234 in the low 48.
    let raw = (5u64 << 48) | 0x1234;
    let r = FileReference::from_u64(raw);
    assert_eq!(r.record_number, 0x1234);
    assert_eq!(r.sequence, 5);
}

#[test]
fn parses_file_name() {
    let c = make_fn(
        (3u64 << 48) | 5, // parent: record 5, sequence 3
        0x10,
        0x20,
        0x30,
        0x40,
        0x1000,
        0x0ABC,
        file_attr::ARCHIVE,
        filename_namespace::WIN32,
        "report.docx",
    );
    let f = FileName::parse(&c).unwrap();
    assert_eq!(f.parent.record_number, 5);
    assert_eq!(f.parent.sequence, 3);
    assert_eq!(f.created, Filetime(0x10));
    assert_eq!(f.accessed, Filetime(0x40));
    assert_eq!(f.allocated_size, 0x1000);
    assert_eq!(f.real_size, 0x0ABC);
    assert_eq!(f.namespace, filename_namespace::WIN32);
    assert_eq!(f.namespace_name(), Some("Win32"));
    assert!(!f.is_dos_namespace());
    assert_eq!(f.name, "report.docx");
}

#[test]
fn detects_dos_namespace() {
    let c = make_fn(
        0,
        0,
        0,
        0,
        0,
        0,
        0,
        0,
        filename_namespace::DOS,
        "REPORT~1.DOC",
    );
    let f = FileName::parse(&c).unwrap();
    assert!(f.is_dos_namespace());
}

#[test]
fn rejects_name_past_content() {
    let mut c = make_fn(0, 0, 0, 0, 0, 0, 0, 0, filename_namespace::WIN32, "ab");
    c[0x40] = 200; // claim a 200-char name that isn't there
    assert!(matches!(
        FileName::parse(&c),
        Err(NtfsError::BadAttribute { .. })
    ));
}

#[test]
fn file_name_rejects_too_short() {
    let c = vec![0u8; 0x20];
    assert!(matches!(
        FileName::parse(&c),
        Err(NtfsError::TooShort { .. })
    ));
}
