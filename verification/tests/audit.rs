use forensicnomicon::ntfs::attr_types;
use ntfs_forensic::attribute::{Attribute, AttributeBody};
use ntfs_forensic::audit::{
    alternate_data_streams, audit_components, audit_logfile, audit_mft_mirror, audit_record,
    carve_file_records, detect_timestomp, is_deleted, mismatched_names, record_slack, Anomaly,
    AnomalyKind, ArtifactAnomaly, Location, Severity,
};
use ntfs_forensic::file_name::{FileName, FileReference};
use ntfs_forensic::record::MftRecordHeader;
use ntfs_forensic::standard_information::StandardInformation;
use ntfs_forensic::time::{Filetime, TICKS_PER_SECOND};

fn si(created: u64, modified: u64, mft_modified: u64, accessed: u64) -> StandardInformation {
    StandardInformation {
        created: Filetime(created),
        modified: Filetime(modified),
        mft_modified: Filetime(mft_modified),
        accessed: Filetime(accessed),
        file_attributes: 0,
        security_id: None,
        usn: None,
    }
}

fn fname(created: u64) -> FileName {
    FileName {
        parent: FileReference::from_u64(5),
        created: Filetime(created),
        modified: Filetime(created),
        mft_modified: Filetime(created),
        accessed: Filetime(created),
        allocated_size: 0,
        real_size: 0,
        flags: 0,
        namespace: 1,
        name: "f".to_string(),
    }
}

fn data_attr(name: Option<&str>) -> Attribute {
    Attribute {
        type_code: attr_types::DATA,
        length: 0,
        non_resident: false,
        name: name.map(str::to_string),
        flags: 0,
        attribute_id: 0,
        offset: 0,
        body: AttributeBody::Resident {
            content_offset: 0,
            content_length: 0,
        },
    }
}

#[test]
fn lib_timestomp_si_before_fn_is_suspicious() {
    // $SI created well before $FN created → timestomp.
    let ind = detect_timestomp(&si(1_000, 1_000, 1_000, 1_000), &fname(2_000_000_000));
    assert!(ind.si_created_before_fn);
    assert!(ind.is_suspicious());
}

#[test]
fn lib_timestomp_whole_second_is_suspicious() {
    // $SI times all on whole seconds (multiples of 10^7) → timestomp tell.
    let t = 5 * TICKS_PER_SECOND;
    let ind = detect_timestomp(&si(t, t, t, t), &fname(t));
    assert!(ind.si_whole_second);
    assert!(ind.is_suspicious());
}

#[test]
fn lib_matching_subsecond_times_are_clean() {
    let t = 129_067_776_000_000_123; // has sub-second precision
    let ind = detect_timestomp(&si(t, t, t, t), &fname(t));
    assert!(!ind.is_suspicious());
    assert!(!ind.created_mismatch);
}

#[test]
fn lib_finds_alternate_data_streams() {
    let attrs = [
        data_attr(None),
        data_attr(Some("Zone.Identifier")),
        data_attr(Some("evil")),
    ];
    let ads = alternate_data_streams(&attrs);
    assert_eq!(ads.len(), 2);
    assert_eq!(ads[0].name.as_deref(), Some("Zone.Identifier"));
}

#[test]
fn lib_slack_is_the_tail_after_used_size() {
    let mut record = vec![0u8; 1024];
    record[600..610].copy_from_slice(b"RESIDUEXYZ");
    let header = MftRecordHeader {
        signature: *b"FILE",
        usa_offset: 0x30,
        usa_count: 3,
        lsn: 0,
        sequence_number: 1,
        hard_link_count: 1,
        first_attribute_offset: 0x38,
        flags: 0x01,
        used_size: 600,
        allocated_size: 1024,
        base_record: 0,
        next_attr_id: 1,
        record_number: 0,
    };
    let slack = record_slack(&record, &header);
    assert_eq!(slack.len(), 1024 - 600);
    assert_eq!(&slack[0..10], b"RESIDUEXYZ");
}

#[test]
fn lib_deleted_when_not_in_use() {
    let mut header = MftRecordHeader {
        signature: *b"FILE",
        usa_offset: 0x30,
        usa_count: 3,
        lsn: 0,
        sequence_number: 1,
        hard_link_count: 1,
        first_attribute_offset: 0x38,
        flags: 0x00, // not in use
        used_size: 0x100,
        allocated_size: 1024,
        base_record: 0,
        next_attr_id: 1,
        record_number: 0,
    };
    assert!(is_deleted(&header));
    header.flags = 0x01;
    assert!(!is_deleted(&header));
}

#[test]
fn carve_with_zero_record_size_is_empty() {
    // A zero stride would loop forever; it is refused with an empty result.
    assert!(carve_file_records(b"FILE....", 0).is_empty());
}

#[test]
fn lib_carves_file_records_at_boundaries() {
    let rec = 1024usize;
    let mut mft = vec![0u8; rec * 4];
    mft[0..4].copy_from_slice(b"FILE"); // record 0
    mft[2 * rec..2 * rec + 4].copy_from_slice(b"BAAD"); // record 2 (corrupt)
                                                        // record 1 and 3 are zeroed (no signature)
    let offsets = carve_file_records(&mft, rec);
    assert_eq!(offsets, vec![0, 2 * rec]);
}

// ── Anomaly auditor ──────────

fn hdr(flags: u16, used_size: u32, record_number: u32) -> MftRecordHeader {
    MftRecordHeader {
        signature: *b"FILE",
        usa_offset: 0x30,
        usa_count: 3,
        lsn: 0,
        sequence_number: 1,
        hard_link_count: 1,
        first_attribute_offset: 0x38,
        flags,
        used_size,
        allocated_size: 1024,
        base_record: 0,
        next_attr_id: 1,
        record_number,
    }
}

#[test]
fn audit_flags_deleted_record() {
    let header = hdr(0x00, 0x100, 42); // not in use
    let an = audit_components(42, &header, &vec![0u8; 1024], &[], None, None);
    assert!(an
        .iter()
        .any(|a| matches!(a.kind, AnomalyKind::DeletedRecord { record: 42 })));
}

#[test]
fn audit_flags_timestomp() {
    let header = hdr(0x01, 0x100, 7);
    let si = si(1_000, 1_000, 1_000, 1_000);
    let fnm = fname(2_000_000_000);
    let an = audit_components(7, &header, &vec![0u8; 1024], &[], Some(&si), Some(&fnm));
    assert!(an
        .iter()
        .any(|a| matches!(a.kind, AnomalyKind::Timestomp { .. })));
}

#[test]
fn audit_flags_alternate_data_stream() {
    let header = hdr(0x01, 0x100, 9);
    let attrs = [data_attr(None), data_attr(Some("evil"))];
    let an = audit_components(9, &header, &vec![0u8; 1024], &attrs, None, None);
    assert!(an.iter().any(
        |a| matches!(&a.kind, AnomalyKind::AlternateDataStream { stream, .. } if stream == "evil")
    ));
}

#[test]
fn audit_flags_slack_residue() {
    let header = hdr(0x01, 600, 3);
    let mut record = vec![0u8; 1024];
    record[700] = 0xAA;
    let an = audit_components(3, &header, &record, &[], None, None);
    assert!(an
        .iter()
        .any(|a| matches!(a.kind, AnomalyKind::RecordSlackResidue { .. })));
}

#[test]
fn audit_clean_record_has_no_anomalies() {
    let header = hdr(0x01, 1024, 1); // in use, no slack, no attrs
    let an = audit_components(1, &header, &vec![0u8; 1024], &[], None, None);
    assert!(an.is_empty(), "clean record: {an:?}");
}

#[test]
fn audit_record_on_non_record_bytes_is_empty_not_panic() {
    // A header that does not parse yields no anomalies (no panic).
    assert!(audit_record(&[0u8; 16]).is_empty());
    assert!(audit_record(b"not even a FILE record").is_empty());
}

// ── Builders for an audit_record() end-to-end test (parse → extract → audit) ─

/// A resident attribute with no name: 24-byte header, content at 0x18.
fn resident_attr(type_code: u32, content: &[u8]) -> Vec<u8> {
    let content_offset = 0x18usize;
    let length = (content_offset + content.len() + 7) & !7;
    let mut a = vec![0u8; length];
    a[0..4].copy_from_slice(&type_code.to_le_bytes()); // TYPE
    a[4..8].copy_from_slice(&(length as u32).to_le_bytes()); // LENGTH
    a[8] = 0; // resident
    a[0x0A..0x0C].copy_from_slice(&(content_offset as u16).to_le_bytes()); // NAME_OFFSET
    a[0x0E..0x10].copy_from_slice(&1u16.to_le_bytes()); // ATTRIBUTE_ID
    a[0x10..0x14].copy_from_slice(&(content.len() as u32).to_le_bytes()); // content length
    a[0x14..0x16].copy_from_slice(&(content_offset as u16).to_le_bytes()); // content offset
    a[content_offset..content_offset + content.len()].copy_from_slice(content);
    a
}

fn si_content(created: u64) -> Vec<u8> {
    let mut c = vec![0u8; 0x30];
    c[0x00..0x08].copy_from_slice(&created.to_le_bytes()); // $SI created
    c
}

fn fn_content(created: u64) -> Vec<u8> {
    let mut c = vec![0u8; 0x44]; // FN_MIN (0x42) + one UTF-16 char
    c[0x00..0x08].copy_from_slice(&5u64.to_le_bytes()); // parent ref
    c[0x08..0x10].copy_from_slice(&created.to_le_bytes()); // $FN created
    c[0x40] = 1; // name length (chars)
    c[0x41] = 1; // namespace
    c[0x42..0x44].copy_from_slice(&u16::from(b'f').to_le_bytes());
    c
}

#[test]
fn audit_record_parses_and_flags_timestomp_end_to_end() {
    // Exercises the full audit_record() path: header parse, attribute parse,
    // $SI/$FN resident-content extraction, then timestomp detection.
    // $SI created (1000) far predates $FN created (2e9) → NTFS-TIMESTOMP.
    let si = resident_attr(attr_types::STANDARD_INFORMATION, &si_content(1_000));
    let fnm = resident_attr(attr_types::FILE_NAME, &fn_content(2_000_000_000));
    let first_attr = 0x30usize;

    let mut rec = vec![0u8; 1024];
    rec[0..4].copy_from_slice(b"FILE");
    rec[0x04..0x06].copy_from_slice(&0x30u16.to_le_bytes()); // usa_offset
    rec[0x06..0x08].copy_from_slice(&3u16.to_le_bytes()); // usa_count
    rec[0x14..0x16].copy_from_slice(&(first_attr as u16).to_le_bytes()); // first attr
    rec[0x16..0x18].copy_from_slice(&0x01u16.to_le_bytes()); // flags = in use
    rec[0x1C..0x20].copy_from_slice(&1024u32.to_le_bytes()); // allocated_size
    rec[0x2C..0x30].copy_from_slice(&7u32.to_le_bytes()); // record_number

    let mut pos = first_attr;
    rec[pos..pos + si.len()].copy_from_slice(&si);
    pos += si.len();
    rec[pos..pos + fnm.len()].copy_from_slice(&fnm);
    pos += fnm.len();
    rec[pos..pos + 4].copy_from_slice(&0xFFFF_FFFFu32.to_le_bytes()); // end marker
    rec[0x18..0x1C].copy_from_slice(&((pos + 4) as u32).to_le_bytes()); // used_size

    let anomalies = audit_record(&rec);
    let timestomped =
        anomalies.iter().any(|a| matches!(a.kind, AnomalyKind::Timestomp { record: 7, .. }));
    assert!(timestomped, "{anomalies:?}");
}

#[test]
fn audit_components_flags_whole_second_timestomp() {
    // $SI times on whole seconds (no sub-second precision) → timestomp tell,
    // exercising the si_whole_second branch of audit_components.
    let header = hdr(0x01, 1024, 4);
    let whole = 5 * 10_000_000; // 5s in FILETIME ticks
    let si = si(whole, whole, whole, whole);
    let fnm = fname(whole);
    let an = audit_components(4, &header, &vec![0u8; 1024], &[], Some(&si), Some(&fnm));
    assert!(an
        .iter()
        .any(|a| matches!(&a.kind, AnomalyKind::Timestomp { signal, .. } if signal.contains("whole second"))));
}

#[test]
fn every_anomaly_kind_carries_its_record_as_evidence() {
    // Drives AnomalyKind::record() for every variant via evidence().
    let kinds = [
        AnomalyKind::Timestomp { record: 1, signal: "x" },
        AnomalyKind::AlternateDataStream { record: 2, stream: "s".to_string() },
        AnomalyKind::DeletedRecord { record: 3 },
        AnomalyKind::RecordSlackResidue { record: 4, residue_len: 5 },
    ];
    for (i, k) in kinds.into_iter().enumerate() {
        let ev = Anomaly::new(k).evidence();
        let rec = (i + 1) as u64;
        assert!(ev.iter().any(|e| matches!(e.location, Some(Location::RecordId(r)) if r == rec)));
    }
}

#[test]
fn anomaly_converts_to_canonical_finding() {
    let a = Anomaly::new(AnomalyKind::Timestomp {
        record: 5,
        signal: "test",
    });
    assert!(a.code.starts_with("NTFS-"));
    assert_eq!(a.severity, Severity::High);
}

// ── Volume-level artifact auditor ─────────────────────────────────────

fn rstr_page() -> Vec<u8> {
    let mut p = vec![0u8; 0x1000];
    p[0..4].copy_from_slice(b"RSTR");
    p[0x10..0x12].copy_from_slice(&1u16.to_le_bytes());
    p[0x20..0x24].copy_from_slice(&4096u32.to_le_bytes());
    p[0x24..0x28].copy_from_slice(&4096u32.to_le_bytes());
    p
}

fn rcrd_page(lsn: u64) -> Vec<u8> {
    let mut p = vec![0u8; 0x1000];
    p[0..4].copy_from_slice(b"RCRD");
    p[0x18..0x20].copy_from_slice(&lsn.to_le_bytes());
    p
}

#[test]
fn audit_mft_mirror_consistent_yields_no_findings() {
    let mft = vec![0xAAu8; 1024 * 4];
    assert!(audit_mft_mirror(&mft, &mft).is_empty());
}

#[test]
fn audit_mft_mirror_flags_each_differing_system_record() {
    let mft = vec![0xAAu8; 1024 * 4];
    let mut mirr = mft.clone();
    mirr[0] = 0xBB; // record 0 ($MFT) differs
    mirr[1024 * 2] = 0xCC; // record 2 ($LogFile) differs
    let anomalies = audit_mft_mirror(&mft, &mirr);
    assert_eq!(anomalies.len(), 1);
    assert_eq!(
        anomalies[0],
        ArtifactAnomaly::MftMirrorMismatch {
            mismatched_entries: vec![0, 2]
        }
    );
    assert_eq!(anomalies[0].severity(), Severity::High);
    assert_eq!(anomalies[0].code(), "NTFS-MFTMIRR-MISMATCH");
    let note = anomalies[0].note();
    assert!(note.contains("$MFT") && note.contains("$LogFile"));
}

#[test]
fn audit_logfile_flags_cleared_journal() {
    // Empty $LogFile → no restart areas → treated as cleared.
    let anomalies = audit_logfile(&[]);
    assert_eq!(anomalies.len(), 1);
    assert_eq!(anomalies[0], ArtifactAnomaly::LogFileCleared);
    assert_eq!(anomalies[0].severity(), Severity::Medium);
    assert_eq!(anomalies[0].code(), "NTFS-LOGFILE-CLEARED");
    assert!(anomalies[0].note().contains("$LogFile"));
}

#[test]
fn audit_logfile_normal_journal_yields_no_findings() {
    // Two restart areas + a record page, no gaps → not cleared.
    let mut data = Vec::new();
    data.extend_from_slice(&rstr_page());
    data.extend_from_slice(&rstr_page());
    data.extend_from_slice(&rcrd_page(3000));
    assert!(audit_logfile(&data).is_empty());
}

#[test]
fn artifact_anomalies_convert_to_canonical_findings() {
    let mirror = ArtifactAnomaly::MftMirrorMismatch {
        mismatched_entries: vec![1],
    };
    assert_eq!(mirror.code(), "NTFS-MFTMIRR-MISMATCH");
    assert_eq!(mirror.severity(), Severity::High);
    let ev = &mirror.evidence()[0];
    assert_eq!(ev.value, "$MFTMirr");

    let cleared = ArtifactAnomaly::LogFileCleared;
    assert_eq!(cleared.code(), "NTFS-LOGFILE-CLEARED");
    assert!(!cleared.evidence().is_empty());
}

#[test]
fn mismatched_names_handles_out_of_range_index() {
    // The field is public, so guard the name lookup defensively.
    assert_eq!(mismatched_names(&[99]), "?");
}

#[test]
fn mft_mirror_mismatch_is_flagged_as_a_high_observation() {
    // Four identical system records: mirror consistent, no finding.
    let mft = vec![0xAAu8; 1024 * 4];
    assert!(audit_mft_mirror(&mft, &mft).is_empty());

    // Tamper one byte of the first record: mismatch.
    let mut mirr = mft.clone();
    mirr[0] = 0xBB;
    let anomalies = audit_mft_mirror(&mft, &mirr);
    assert_eq!(anomalies.len(), 1);
    assert!(matches!(
        anomalies[0],
        ArtifactAnomaly::MftMirrorMismatch { .. }
    ));
    assert_eq!(anomalies[0].code(), "NTFS-MFTMIRR-MISMATCH");
    assert_eq!(anomalies[0].severity(), Severity::High);
}

#[test]
fn logfile_clearing_is_flagged_as_an_observation() {
    // An empty $LogFile has no restart areas, which counts as cleared.
    let anomalies = audit_logfile(&[]);
    assert_eq!(anomalies[0].code(), "NTFS-LOGFILE-CLEARED");
}
