use ntfs_forensic::audit::{audit_logfile, audit_mft_mirror, audit_record, carve_file_records};
use ntfs_forensic::bitmap::free_runs;
use ntfs_forensic::carve::carve_mft_entries;
use ntfs_forensic::compress::decompress;
use ntfs_forensic::data::read_runs;
use ntfs_forensic::error::{IoFault, NtfsError};
use ntfs_forensic::file_name::FileReference;
use ntfs_forensic::fs::{read_virtual, NtfsFs};
use ntfs_forensic::logfile::{
    classify, detect_journal_clearing, parse_logfile, reconstruct_transactions, FileOperation,
    LogOp, LogRecord, TransactionState,
};
use ntfs_forensic::mftmirr::compare_mft_mirror;
use ntfs_forensic::record::apply_fixup;
use ntfs_forensic::runlist::{decode, Run};
use ntfs_forensic::source::{ByteSource, MemorySource, OffsetReader, SeekFrom};
use ntfs_forensic::time::Filetime;
use ntfs_forensic::usn::{parse_usn_record_v2, parse_usn_record_v3, UsnJournalReader};

#[test]
fn ntfs_metadata_artifact_parsers_are_exposed_and_handle_empty_input() {
    // Every parser degrades gracefully on empty input.
    assert!(compare_mft_mirror(&[], &[]).is_err());
    let summary = parse_logfile(&[]).unwrap();
    assert!(detect_journal_clearing(&summary));
    let (entries, stats) = carve_mft_entries(&[]);
    assert!(entries.is_empty());
    assert_eq!(stats.bytes_scanned, 0);
    assert!(audit_record(&[]).is_empty());
    assert!(audit_mft_mirror(&[], &[]).is_empty());
    assert_eq!(audit_logfile(&[]).len(), 1);
}

#[test]
fn short_mirrors_are_refused() {
    let whole = vec![0u8; 4096];
    let short = vec![0u8; 4095];
    assert_eq!(
        compare_mft_mirror(&short, &whole),
        Err(NtfsError::TooShort {
            what: "$MFT",
            need: 4096,
            got: 4095
        })
    );
    assert_eq!(
        compare_mft_mirror(&whole, &short),
        Err(NtfsError::TooShort {
            what: "$MFTMirr",
            need: 4096,
            got: 4095
        })
    );
    let same = compare_mft_mirror(&whole, &whole).unwrap();
    assert!(same.is_consistent);
    assert_eq!(same.matches, [true; 4]);
    let mut last = whole.clone();
    last[4095] = 1;
    let differs = compare_mft_mirror(&whole, &last).unwrap();
    assert!(!differs.is_consistent);
    assert_eq!(differs.matches, [true, true, true, false]);
    assert_eq!(compare_mft_mirror(&last, &whole).unwrap(), differs);
}

#[test]
fn fixup_changes_sector_tails_and_nothing_else() {
    let mut buf: Vec<u8> = (0..1024u32).map(|i| (i % 251) as u8).collect();
    buf[0x04..0x08].copy_from_slice(&[0x30, 0x00, 0x03, 0x00]);
    buf[0x30..0x36].copy_from_slice(&[0xAA, 0xBB, 0x01, 0x02, 0x03, 0x04]);
    buf[510..512].copy_from_slice(&[0xAA, 0xBB]);
    buf[1022..1024].copy_from_slice(&[0xAA, 0xBB]);
    let before = buf.clone();
    apply_fixup(&mut buf, 512).unwrap();
    for i in 0..1024 {
        match i {
            510 => assert_eq!(buf[i], 0x01),
            511 => assert_eq!(buf[i], 0x02),
            1022 => assert_eq!(buf[i], 0x03),
            1023 => assert_eq!(buf[i], 0x04),
            _ => assert_eq!(buf[i], before[i]),
        }
    }
}

#[test]
fn reference_parts_rebuild_the_value() {
    for raw in [0u64, 5, 0x0001_0000_0000_0005, u64::MAX, 0xFFFF_0000_0000_0000] {
        let r = FileReference::from_u64(raw);
        assert_eq!(r.record_number | (u64::from(r.sequence) << 48), raw);
    }
}

#[test]
fn seconds_round_down() {
    assert_eq!(Filetime(116_444_736_000_000_000 - 1).to_unix_seconds(), -1);
    assert_eq!(Filetime(116_444_736_000_000_000 - 1).to_unix_nanos(), -100);
    assert_eq!(Filetime(0).to_unix_seconds(), -11_644_473_600);
    assert_eq!(Filetime(u64::MAX).to_unix_seconds(), 1_833_029_933_770);
}

#[test]
fn reads_from_the_middle_agree_with_the_whole() {
    let disk: Vec<u8> = (0..2048u32).map(|i| (i / 8) as u8).collect();
    let runs = decode(&[0x11, 0x02, 0x01, 0x01, 0x01, 0x11, 0x01, 0xFF, 0x00]).unwrap();
    assert_eq!(
        runs,
        vec![
            Run {
                length: 2,
                lcn: Some(1)
            },
            Run {
                length: 1,
                lcn: None
            },
            Run {
                length: 1,
                lcn: Some(0)
            },
        ]
    );
    let mut source = MemorySource::new(disk);
    let whole = read_runs(&mut source, &runs, 512, 2048).unwrap();
    assert_eq!(whole.len(), 2048);
    for (off, len) in [(0u64, 2048u64), (100, 700), (1000, 600), (1535, 2), (2047, 1)] {
        let part = read_virtual(&mut source, &runs, 512, off, len).unwrap();
        assert_eq!(part, whole[off as usize..(off + len) as usize]);
    }
    for size in [0u64, 1, 512, 1300, 2047] {
        let part = read_runs(&mut source, &runs, 512, size).unwrap();
        assert_eq!(part, whole[..size as usize]);
    }
}

#[test]
fn reading_past_the_source_is_an_end_of_file_fault() {
    let mut source = MemorySource::new(vec![0u8; 512]);
    let runs = [Run {
        length: 2,
        lcn: Some(0),
    }];
    assert_eq!(
        read_runs(&mut source, &runs, 512, 1024),
        Err(NtfsError::Io(IoFault::UnexpectedEof))
    );
    assert_eq!(
        NtfsFs::open(MemorySource::new(Vec::new())).err(),
        Some(NtfsError::Io(IoFault::UnexpectedEof))
    );
}

#[test]
fn window_never_leaves_the_partition() {
    let disk: Vec<u8> = (0..100).collect();
    let mut window = OffsetReader::new(MemorySource::new(disk), 90, 50).unwrap();
    assert_eq!(window.size().unwrap(), 10);
    assert_eq!(window.read_at(0, 100).unwrap(), (90..100).collect::<Vec<u8>>());
    assert!(window.read_at(10, 1).unwrap().is_empty());
    assert!(window.read_at(u64::MAX, 1).unwrap().is_empty());
    assert_eq!(
        window.seek(SeekFrom::End(-51)),
        Err(NtfsError::Io(IoFault::InvalidInput(
            "seek before partition start"
        )))
    );
    assert_eq!(window.seek(SeekFrom::End(-45)).unwrap(), 5);
    let mut buf = [0u8; 3];
    assert_eq!(window.read(&mut buf).unwrap(), 3);
    assert_eq!(buf, [95, 96, 97]);
    assert_eq!(window.seek(SeekFrom::Current(1)).unwrap(), 9);
}

#[test]
fn free_runs_are_exactly_the_clear_bits() {
    let bitmap = [0b0110_0001u8, 0b1111_0000, 0b0000_0000, 0b1000_0001];
    for total in 0..32u64 {
        let runs = free_runs(&bitmap, total);
        let mut covered = vec![false; 32];
        for (start, len) in &runs {
            assert!(*len > 0);
            for c in *start..*start + *len {
                covered[c as usize] = true;
            }
        }
        for c in 0..32u64 {
            let clear = bitmap[(c / 8) as usize] & (1 << (c % 8)) == 0;
            assert_eq!(covered[c as usize], clear && c < total);
        }
        for pair in runs.windows(2) {
            assert!(pair[0].0 + pair[0].1 < pair[1].0);
        }
    }
}

#[test]
fn stored_chunks_read_back() {
    let body: Vec<u8> = (0..=255).collect();
    let mut stream = ((3u16 << 12) | (body.len() as u16 - 1)).to_le_bytes().to_vec();
    stream.extend_from_slice(&body);
    assert_eq!(decompress(&stream).unwrap(), body);
}

#[test]
fn carved_offsets_are_the_signed_boundaries() {
    let mut region = vec![0u8; 100];
    region[0..4].copy_from_slice(b"FILE");
    region[30..34].copy_from_slice(b"BAAD");
    region[45..49].copy_from_slice(b"FILE"); // not on a boundary
    region[90..94].copy_from_slice(b"FILE");
    assert_eq!(carve_file_records(&region, 30), vec![0, 30, 90]);
    assert_eq!(carve_file_records(&region, usize::MAX), vec![0]);
    assert!(carve_file_records(&region[..3], 1).is_empty());
}

fn log_record(lsn: u64, id: u32, redo: LogOp, undo: LogOp) -> LogRecord {
    LogRecord {
        page_offset: 0,
        this_lsn: lsn,
        client_previous_lsn: 0,
        client_undo_next_lsn: 0,
        record_type: 1,
        transaction_id: id,
        redo_op: redo,
        undo_op: undo,
        target_attribute: 0,
        mft_cluster_index: 0,
        target_vcn: 0,
    }
}

#[test]
fn equal_lsns_keep_their_order_and_every_record_is_placed_once() {
    let records = vec![
        log_record(7, 2, LogOp::Noop, LogOp::Noop),
        log_record(7, 1, LogOp::Noop, LogOp::Noop),
        log_record(7, 2, LogOp::CompensationLogRecord, LogOp::Noop),
        log_record(3, 1, LogOp::Noop, LogOp::ForgetTransaction),
        log_record(9, 3, LogOp::Unknown(0x99), LogOp::Noop),
    ];
    let list = reconstruct_transactions(&records);
    let seen: Vec<(u32, Vec<usize>, TransactionState)> = list
        .iter()
        .map(|t| (t.transaction_id, t.records.clone(), t.state))
        .collect();
    assert_eq!(
        seen,
        vec![
            (1, vec![3, 1], TransactionState::Committed),
            (2, vec![0, 2], TransactionState::Aborted),
            (3, vec![4], TransactionState::Incomplete),
        ]
    );
    assert_eq!(list[2].operations, vec![FileOperation::Unknown(0x99, 0x00)]);
    assert_eq!(list[0].lsns, vec![3, 7]);
}

#[test]
fn opcodes_and_operations_round_trip() {
    for code in 0..=u16::MAX {
        let op = LogOp::from_u16(code);
        assert_eq!(op.code(), code);
        assert_eq!(matches!(op, LogOp::Unknown(_)), code > 0x22);
        if (0x01..=0x22).contains(&code) {
            assert!(!matches!(classify(op, LogOp::Noop), FileOperation::Unknown(_, _)));
        }
    }
}

/// A V2 record with the given name.
fn usn_v2(usn: i64, name: &str) -> Vec<u8> {
    let units: Vec<u8> = name.encode_utf16().flat_map(u16::to_le_bytes).collect();
    let mut r = vec![0u8; (0x3C + units.len() + 7) & !7];
    r[0..4].copy_from_slice(&((0x3C + units.len()) as u32).to_le_bytes());
    r[4] = 2;
    r[0x08..0x10].copy_from_slice(&((9u64 << 48) | 0x1234).to_le_bytes());
    r[0x10..0x18].copy_from_slice(&((8u64 << 48) | 5).to_le_bytes());
    r[0x18..0x20].copy_from_slice(&usn.to_le_bytes());
    r[0x20..0x28].copy_from_slice(&116_444_736_000_000_000u64.to_le_bytes());
    r[0x28..0x2C].copy_from_slice(&0x8000_0100u32.to_le_bytes());
    r[0x2C..0x30].copy_from_slice(&1u32.to_le_bytes());
    r[0x30..0x34].copy_from_slice(&2u32.to_le_bytes());
    r[0x34..0x38].copy_from_slice(&0x20u32.to_le_bytes());
    r[0x38..0x3A].copy_from_slice(&(units.len() as u16).to_le_bytes());
    r[0x3A..0x3C].copy_from_slice(&0x3Cu16.to_le_bytes());
    r[0x3C..0x3C + units.len()].copy_from_slice(&units);
    r
}

#[test]
fn usn_record_fields_are_decoded() {
    let r = parse_usn_record_v2(&usn_v2(-2, "a\u{e9}")).unwrap();
    assert_eq!(r.mft_entry, 0x1234);
    assert_eq!(r.mft_sequence, 9);
    assert_eq!(r.parent_mft_entry, 5);
    assert_eq!(r.parent_mft_sequence, 8);
    assert_eq!(r.usn, -2);
    assert_eq!(r.timestamp.to_unix_seconds(), 0);
    assert_eq!(r.reason, 0x8000_0100);
    assert_eq!(r.source_info, 1);
    assert_eq!(r.security_id, 2);
    assert_eq!(r.file_attributes, 0x20);
    assert_eq!(r.filename, "a\u{e9}");
    assert_eq!(r.major_version, 2);
}

#[test]
fn malformed_usn_records_are_refused() {
    let good = usn_v2(0, "name");
    assert_eq!(
        parse_usn_record_v2(&good[..0x3B]),
        Err(NtfsError::TooShort {
            what: "USN_RECORD_V2",
            need: 0x3C,
            got: 0x3B
        })
    );
    assert_eq!(
        parse_usn_record_v2(&good[..0x3D]),
        Err(NtfsError::BadUsnRecord("record length out of range"))
    );
    let mut v3 = good.clone();
    v3.resize(0x60, 0);
    v3[0] = 0x60;
    assert_eq!(
        parse_usn_record_v3(&v3),
        Err(NtfsError::BadUsnRecord("unexpected major version"))
    );
    let mut long = good.clone();
    long[0x38] = 0x40;
    assert_eq!(
        parse_usn_record_v2(&long),
        Err(NtfsError::BadUsnRecord("file name extends past record"))
    );
}

#[test]
fn journal_is_walked_to_its_end_and_stays_there() {
    let mut journal = vec![0u8; 24];
    journal.extend_from_slice(&usn_v2(1, "one"));
    journal.extend_from_slice(&vec![0u8; 0x1_0000]);
    journal.extend_from_slice(&usn_v2(2, "two"));
    let mut reader = UsnJournalReader::new(MemorySource::new(journal)).unwrap();
    assert_eq!(reader.next().unwrap().unwrap().filename, "one");
    assert_eq!(reader.next().unwrap().unwrap().filename, "two");
    assert!(reader.next().is_none());
    assert!(reader.next().is_none());
}

#[test]
fn chunks_decode_one_by_one_and_a_zero_header_ends_the_stream() {
    let stored = |body: &[u8]| {
        let mut c = ((3u16 << 12) | (body.len() as u16 - 1)).to_le_bytes().to_vec();
        c.extend_from_slice(body);
        c
    };
    // "abc", and a reference three bytes back of length three.
    let packed = [0x05, 0xB0, 0x08, b'a', b'b', b'c', 0x20, 0x00];
    let first = [stored(b"one"), packed.to_vec()].concat();
    let rest = [packed.to_vec(), stored(b"two")].concat();
    assert_eq!(decompress(&first).unwrap(), b"oneabcabc");
    assert_eq!(decompress(&rest).unwrap(), b"abcabctwo");
    assert_eq!(
        decompress(&[first.clone(), rest.clone()].concat()).unwrap(),
        b"oneabcabcabcabctwo"
    );
    assert_eq!(
        decompress(&[first, vec![0, 0], rest].concat()).unwrap(),
        b"oneabcabc"
    );
}

#[test]
fn decoding_undoes_the_encoding_of_a_runlist() {
    let runs = vec![
        Run {
            length: 7,
            lcn: Some(i64::MAX as u64),
        },
        Run {
            length: u64::MAX,
            lcn: None,
        },
        Run {
            length: 1,
            lcn: Some(0),
        },
        Run {
            length: 300,
            lcn: Some(299),
        },
    ];
    let mut bytes = Vec::new();
    let mut from = 0i64;
    for run in &runs {
        bytes.push(if run.lcn.is_some() { 0x88 } else { 0x08 });
        bytes.extend_from_slice(&run.length.to_le_bytes());
        if let Some(lcn) = run.lcn {
            bytes.extend_from_slice(&(lcn as i64 - from).to_le_bytes());
            from = lcn as i64;
        }
    }
    assert_eq!(decode(&bytes).unwrap(), runs);
    bytes.extend_from_slice(&[0x00, 0xFF, 0xFF]);
    assert_eq!(decode(&bytes).unwrap(), runs);
}
