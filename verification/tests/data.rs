use forensicnomicon::ntfs::attr_types;
use ntfs_forensic::attribute::{parse_attributes, Attribute, AttributeBody};
use ntfs_forensic::data::{attribute_runlist, read_attribute_value, read_runs};
use ntfs_forensic::error::NtfsError;
use ntfs_forensic::runlist::Run;
use ntfs_forensic::source::MemorySource;

/// A volume where cluster `c` is filled with byte value `c as u8`.
fn volume(clusters: usize, cluster_size: usize) -> MemorySource {
    let mut v = vec![0u8; clusters * cluster_size];
    for c in 0..clusters {
        let b = c as u8;
        for x in &mut v[c * cluster_size..(c + 1) * cluster_size] {
            *x = b;
        }
    }
    MemorySource::new(v)
}

#[test]
fn data_reads_single_run() {
    let mut vol = volume(4, 512);
    // One run: 2 clusters starting at LCN 1.
    let runs = [Run {
        length: 2,
        lcn: Some(1),
    }];
    let out = read_runs(&mut vol, &runs, 512, 1024).unwrap();
    assert_eq!(out.len(), 1024);
    assert!(out[..512].iter().all(|&b| b == 1));
    assert!(out[512..].iter().all(|&b| b == 2));
}

#[test]
fn data_sparse_run_yields_zeroes_without_reading() {
    let mut vol = volume(1, 512); // too small to read 2 clusters — proves no read
    let runs = [Run {
        length: 2,
        lcn: None,
    }];
    let out = read_runs(&mut vol, &runs, 512, 1024).unwrap();
    assert_eq!(out.len(), 1024);
    assert!(out.iter().all(|&b| b == 0));
}

#[test]
fn data_truncates_to_real_size() {
    let mut vol = volume(4, 512);
    let runs = [Run {
        length: 2,
        lcn: Some(0),
    }]; // 1024 allocated
    let out = read_runs(&mut vol, &runs, 512, 600).unwrap();
    assert_eq!(out.len(), 600);
}

#[test]
fn data_mixed_data_and_sparse() {
    let mut vol = volume(4, 512);
    let runs = [
        Run {
            length: 1,
            lcn: Some(3),
        }, // cluster 3 → all 3s
        Run {
            length: 1,
            lcn: None,
        }, // sparse → zeros
    ];
    let out = read_runs(&mut vol, &runs, 512, 1024).unwrap();
    assert!(out[..512].iter().all(|&b| b == 3));
    assert!(out[512..].iter().all(|&b| b == 0));
}

#[test]
fn data_refuses_implausible_size() {
    // A crafted runlist that *allocates* far more than the ceiling — a
    // single sparse run of 2^40 clusters. (A huge real_size alone is
    // harmless: it is clamped to what the runs actually allocate.)
    let mut vol = volume(1, 512);
    let runs = [Run {
        length: 1 << 40,
        lcn: None,
    }];
    assert!(matches!(
        read_runs(&mut vol, &runs, 512, u64::MAX),
        Err(NtfsError::TooLarge { .. })
    ));
}

#[test]
fn data_rejects_cluster_size_overflow() {
    let mut vol = volume(1, 512);
    let runs = [Run {
        length: u64::MAX,
        lcn: Some(0),
    }];
    assert!(matches!(
        read_runs(&mut vol, &runs, 512, 1024),
        Err(NtfsError::BadRunlist(_))
    ));
}

// ── read_attribute_value dispatch ─────────────────────────────────────────

#[test]
fn data_reads_resident_value() {
    // Build a one-attribute record with resident $DATA content "hello".
    let content = b"hello";
    // Minimal resident attribute laid out by hand at record offset 0x10.
    let attr_off = 0x10usize;
    let mut record = vec![0u8; attr_off];
    // header: type, length, resident, name_len 0, name_off, flags, id
    let name_offset = 0x18u16;
    let content_offset = 0x18u16;
    let length = (content_offset as usize + content.len() + 7) & !7;
    let mut a = vec![0u8; length];
    a[0x00..0x04].copy_from_slice(&attr_types::DATA.to_le_bytes());
    a[0x04..0x08].copy_from_slice(&(length as u32).to_le_bytes());
    a[0x0A..0x0C].copy_from_slice(&name_offset.to_le_bytes());
    a[0x10..0x14].copy_from_slice(&(content.len() as u32).to_le_bytes());
    a[0x14..0x16].copy_from_slice(&content_offset.to_le_bytes());
    a[content_offset as usize..content_offset as usize + content.len()]
        .copy_from_slice(content);
    record.extend_from_slice(&a);
    record.extend_from_slice(&attr_types::END.to_le_bytes());

    let attrs = parse_attributes(&record, attr_off).unwrap();
    let mut vol = volume(1, 512);
    let out = read_attribute_value(&mut vol, &record, &attrs[0], 512).unwrap();
    assert_eq!(out, b"hello");
}

#[test]
fn data_reads_nonresident_value_via_runlist() {
    // Non-resident $DATA: runlist of 1 cluster @ LCN 2, real size 512.
    let runs_bytes = [0x11u8, 0x01, 0x02, 0x00]; // len 1, lcn delta +2
    let attr_off = 0x10usize;
    let mut record = vec![0u8; attr_off];
    let runs_offset = 0x40u16;
    let length = ((runs_offset as usize + runs_bytes.len()) + 7) & !7;
    let mut a = vec![0u8; length];
    a[0x00..0x04].copy_from_slice(&attr_types::DATA.to_le_bytes());
    a[0x04..0x08].copy_from_slice(&(length as u32).to_le_bytes());
    a[0x08] = 1; // non-resident
    a[0x0A..0x0C].copy_from_slice(&runs_offset.to_le_bytes()); // name offset (no name)
    a[0x20..0x22].copy_from_slice(&runs_offset.to_le_bytes()); // runs offset
    a[0x28..0x30].copy_from_slice(&512u64.to_le_bytes()); // allocated
    a[0x30..0x38].copy_from_slice(&512u64.to_le_bytes()); // real size
    a[runs_offset as usize..runs_offset as usize + runs_bytes.len()]
        .copy_from_slice(&runs_bytes);
    record.extend_from_slice(&a);
    record.extend_from_slice(&attr_types::END.to_le_bytes());

    let attrs = parse_attributes(&record, attr_off).unwrap();
    let mut vol = volume(4, 512); // cluster 2 → all 2s
    let out = read_attribute_value(&mut vol, &record, &attrs[0], 512).unwrap();
    assert_eq!(out.len(), 512);
    assert!(out.iter().all(|&b| b == 2));
}

#[test]
fn reads_compressed_nonresident_value() {
    // A COMPRESSED $DATA: one 16-cluster compression unit made of 1 real
    // cluster (the LZNT1 stream) + 15 sparse clusters. real_size = 100 bytes.
    // The stream is a single *uncompressed* LZNT1 chunk (header bit15=0,
    // low-12 = size-1), which is valid LZNT1 the decompressor copies verbatim
    // — lets us build a real compressed-unit fixture without a compressor.
    let content = vec![0xABu8; 100];
    let mut stream = Vec::new();
    stream.extend_from_slice(&(content.len() as u16 - 1).to_le_bytes()); // 0x0063
    stream.extend_from_slice(&content);

    // runlist: 0x11 len=1 lcn+2 | 0x01 len=15 sparse | 0x00 end
    let runs_bytes = [0x11u8, 0x01, 0x02, 0x01, 0x0F, 0x00];
    let attr_off = 0x10usize;
    let mut record = vec![0u8; attr_off];
    let runs_offset = 0x40u16;
    let length = ((runs_offset as usize + runs_bytes.len()) + 7) & !7;
    let mut a = vec![0u8; length];
    a[0x00..0x04].copy_from_slice(&attr_types::DATA.to_le_bytes());
    a[0x04..0x08].copy_from_slice(&(length as u32).to_le_bytes());
    a[0x08] = 1; // non-resident
    a[0x0A..0x0C].copy_from_slice(&runs_offset.to_le_bytes()); // name offset (no name)
    a[0x0C..0x0E].copy_from_slice(&0x0001u16.to_le_bytes()); // flags: COMPRESSED
    a[0x20..0x22].copy_from_slice(&runs_offset.to_le_bytes()); // runs offset
    a[0x22..0x24].copy_from_slice(&4u16.to_le_bytes()); // compression_unit = 4 → 16 clusters
    a[0x28..0x30].copy_from_slice(&(16u64 * 512).to_le_bytes()); // allocated 8192
    a[0x30..0x38].copy_from_slice(&(content.len() as u64).to_le_bytes()); // real size 100
    a[runs_offset as usize..runs_offset as usize + runs_bytes.len()]
        .copy_from_slice(&runs_bytes);
    record.extend_from_slice(&a);
    record.extend_from_slice(&attr_types::END.to_le_bytes());

    let cluster_size = 512usize;
    let mut disk = vec![0u8; 16 * cluster_size];
    disk[2 * cluster_size..2 * cluster_size + stream.len()].copy_from_slice(&stream);
    let mut vol = MemorySource::new(disk);

    let attrs = parse_attributes(&record, attr_off).unwrap();
    let out = read_attribute_value(&mut vol, &record, &attrs[0], 512).unwrap();
    assert_eq!(
        out, content,
        "compressed $DATA must be LZNT1-decompressed, not returned raw"
    );
}

#[test]
fn stops_reading_once_real_size_is_met() {
    // real_size covers only the first run; the second run must not be read.
    let mut vol = volume(4, 512);
    let runs = [
        Run {
            length: 1,
            lcn: Some(0),
        },
        Run {
            length: 1,
            lcn: Some(1),
        },
    ];
    let out = read_runs(&mut vol, &runs, 512, 512).unwrap();
    assert_eq!(out.len(), 512); // only the first run's worth
}

#[test]
fn rejects_runlist_region_out_of_bounds() {
    // runs_offset points past the attribute, so the runlist slice is invalid.
    let attr = Attribute {
        type_code: forensicnomicon::ntfs::attr_types::DATA,
        length: 0x48,
        non_resident: true,
        name: None,
        flags: 0,
        attribute_id: 0,
        offset: 0,
        body: AttributeBody::NonResident {
            start_vcn: 0,
            last_vcn: 0,
            runs_offset: 0xFFFF,
            compression_unit: 0,
            allocated_size: 512,
            real_size: 512,
            initialized_size: 512,
        },
    };
    let record = vec![0u8; 0x48];
    let mut vol = volume(1, 512);
    assert!(matches!(
        read_attribute_value(&mut vol, &record, &attr, 512),
        Err(NtfsError::BadAttribute { detail, .. }) if detail == "runlist out of bounds"
    ));
}

#[test]
fn rejects_runs_offset_overflow() {
    // offset + length stays in range, but offset + runs_offset overflows.
    let attr = Attribute {
        type_code: forensicnomicon::ntfs::attr_types::DATA,
        length: 0x48,
        non_resident: true,
        name: None,
        flags: 0,
        attribute_id: 0,
        offset: usize::MAX - 0x48,
        body: AttributeBody::NonResident {
            start_vcn: 0,
            last_vcn: 0,
            runs_offset: 0x49,
            compression_unit: 0,
            allocated_size: 512,
            real_size: 512,
            initialized_size: 512,
        },
    };
    let record = vec![0u8; 1];
    let mut vol = volume(1, 512);
    assert!(matches!(
        read_attribute_value(&mut vol, &record, &attr, 512),
        Err(NtfsError::BadAttribute { detail, .. }) if detail == "runs offset overflow"
    ));
}

#[test]
fn attribute_runlist_rejects_resident_attribute() {
    let attr = Attribute {
        type_code: forensicnomicon::ntfs::attr_types::DATA,
        length: 0x20,
        non_resident: false,
        name: None,
        flags: 0,
        attribute_id: 0,
        offset: 0,
        body: AttributeBody::Resident {
            content_offset: 0x18,
            content_length: 4,
        },
    };
    assert!(matches!(
        attribute_runlist(&[0u8; 0x20], &attr),
        Err(NtfsError::BadAttribute { detail, .. }) if detail.contains("resident")
    ));
}
