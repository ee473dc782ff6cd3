use ntfs_forensic::error::NtfsError;
use ntfs_forensic::standard_information::{file_attr, StandardInformation, SI_MIN, SI_V3};
use ntfs_forensic::time::Filetime;

fn make_si(
    created: u64,
    modified: u64,
    mft_modified: u64,
    accessed: u64,
    attrs: u32,
    v3: Option<(u32, u64)>, // (security_id, usn)
) -> Vec<u8> {
    let len = if v3.is_some() { SI_V3 } else { SI_MIN };
    let mut c = vec![0u8; len];
    c[0x00..0x08].copy_from_slice(&created.to_le_bytes());
    c[0x08..0x10].copy_from_slice(&modified.to_le_bytes());
    c[0x10..0x18].copy_from_slice(&mft_modified.to_le_bytes());
    c[0x18..0x20].copy_from_slice(&accessed.to_le_bytes());
    c[0x20..0x24].copy_from_slice(&attrs.to_le_bytes());
    if let Some((sid, usn)) = v3 {
        c[0x34..0x38].copy_from_slice(&sid.to_le_bytes());
        c[0x40..0x48].copy_from_slice(&usn.to_le_bytes());
    }
    c
}

#[test]
fn parses_ntfs12_standard_information() {
    let c = make_si(0x10, 0x20, 0x30, 0x40, file_attr::ARCHIVE, None);
    let si = StandardInformation::parse(&c).unwrap();
    assert_eq!(si.created, Filetime(0x10));
    assert_eq!(si.modified, Filetime(0x20));
    assert_eq!(si.mft_modified, Filetime(0x30));
    assert_eq!(si.accessed, Filetime(0x40));
    assert_eq!(si.file_attributes, file_attr::ARCHIVE);
    assert_eq!(si.security_id, None);
    assert_eq!(si.usn, None);
}

#[test]
fn parses_ntfs30_security_and_usn() {
    let c = make_si(1, 2, 3, 4, 0, Some((0x101, 0xDEAD_BEEF)));
    let si = StandardInformation::parse(&c).unwrap();
    assert_eq!(si.security_id, Some(0x101));
    assert_eq!(si.usn, Some(0xDEAD_BEEF));
}

#[test]
fn flag_predicates() {
    let c = make_si(0, 0, 0, 0, file_attr::HIDDEN | file_attr::SYSTEM, None);
    let si = StandardInformation::parse(&c).unwrap();
    assert!(si.is_hidden());
    assert!(si.is_system());
    assert!(!si.is_read_only());
}

#[test]
fn standard_information_rejects_too_short() {
    let c = vec![0u8; 0x20];
    assert!(matches!(
        StandardInformation::parse(&c),
        Err(NtfsError::TooShort { .. })
    ));
}
