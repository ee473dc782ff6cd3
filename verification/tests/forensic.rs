use forensicnomicon::ntfs::attr_types;
use ntfs_forensic::attribute::{Attribute, AttributeBody};
use ntfs_forensic::audit::{
    alternate_data_streams, carve_file_records, detect_timestomp, is_deleted, record_slack,
};
use ntfs_forensic::file_name::{FileName, FileReference};
use ntfs_forensic::record::MftRecordHeader;
use ntfs_forensic::standard_information::StandardInformation;
use ntfs_forensic::time::{Filetime, TICKS_PER_SECOND};
fn si(created: u64, modified: u64, mft_modified: u64, accessed: u64) -> StandardInformation {
    StandardInformation {
        created: Filetime(created),
        modified: Filetime(modified),
        mft_modified: Filetime(mft_modified),
        accessed: Filetime(accessed),
        file_attributes: 0,
        security_id: None,
        usn: None,
    }
}

fn fname(created: u64) -> FileName {
    FileName {
        parent: FileReference::from_u64(5),
        created: Filetime(created),
        modified: Filetime(created),
        mft_modified: Filetime(created),
        accessed: Filetime(created),
        allocated_size: 0,
        real_size: 0,
        flags: 0,
        namespace: 1,
        name: "f".to_string(),
    }
}

fn data_attr(name: Option<&str>) -> Attribute {
    Attribute {
        type_code: attr_types::DATA,
        length: 0,
        non_resident: false,
        name: name.map(str::to_string),
        flags: 0,
        attribute_id: 0,
        offset: 0,
        body: AttributeBody::Resident {
            content_offset: 0,
            content_length: 0,
        },
    }
}

#[test]
fn forensic_timestomp_si_before_fn_is_suspicious() {
    // $SI created well before $FN created → timestomp.
    let ind = detect_timestomp(&si(1_000, 1_000, 1_000, 1_000), &fname(2_000_000_000));
    assert!(ind.si_created_before_fn);
    assert!(ind.is_suspicious());
}

#[test]
fn forensic_timestomp_whole_second_is_suspicious() {
    // $SI times all on whole seconds (multiples of 10^7) → timestomp tell.
    let t = 5 * TICKS_PER_SECOND;
    let ind = detect_timestomp(&si(t, t, t, t), &fname(t));
    assert!(ind.si_whole_second);
    assert!(ind.is_suspicious());
}

#[test]
fn forensic_matching_subsecond_times_are_clean() {
    let t = 129_067_776_000_000_123; // has sub-second precision
    let ind = detect_timestomp(&si(t, t, t, t), &fname(t));
    assert!(!ind.is_suspicious());
    assert!(!ind.created_mismatch);
}

#[test]
fn forensic_finds_alternate_data_streams() {
    let attrs = [data_attr(None), data_attr(Some("Zone.Identifier")), data_attr(Some("evil"))];
    let ads = alternate_data_streams(&attrs);
    assert_eq!(ads.len(), 2);
    assert_eq!(ads[0].name.as_deref(), Some("Zone.Identifier"));
}

#[test]
fn forensic_slack_is_the_tail_after_used_size() {
    let mut record = vec![0u8; 1024];
    record[600..610].copy_from_slice(b"RESIDUEXYZ");
    let header = MftRecordHeader {
        signature: *b"FILE",
        usa_offset: 0x30,
        usa_count: 3,
        lsn: 0,
        sequence_number: 1,
        hard_link_count: 1,
        first_attribute_offset: 0x38,
        flags: 0x01,
        used_size: 600,
        allocated_size: 1024,
        base_record: 0,
        next_attr_id: 1,
        record_number: 0,
    };
    let slack = record_slack(&record, &header);
    assert_eq!(slack.len(), 1024 - 600);
    assert_eq!(&slack[0..10], b"RESIDUEXYZ");
}

#[test]
fn forensic_deleted_when_not_in_use() {
    let mut header = MftRecordHeader {
        signature: *b"FILE",
        usa_offset: 0x30,
        usa_count: 3,
        lsn: 0,
        sequence_number: 1,
        hard_link_count: 1,
        first_attribute_offset: 0x38,
        flags: 0x00, // not in use
        used_size: 0x100,
        allocated_size: 1024,
        base_record: 0,
        next_attr_id: 1,
        record_number: 0,
    };
    assert!(is_deleted(&header));
    header.flags = 0x01;
    assert!(!is_deleted(&header));
}

#[test]
fn forensic_carves_file_records_at_boundaries() {
    let rec = 1024usize;
    let mut mft = vec![0u8; rec * 4];
    mft[0..4].copy_from_slice(b"FILE"); // record 0
    mft[2 * rec..2 * rec + 4].copy_from_slice(b"BAAD"); // record 2 (corrupt)
    // record 1 and 3 are zeroed (no signature)
    let offsets = carve_file_records(&mft, rec);
    assert_eq!(offsets, vec![0, 2 * rec]);
}
