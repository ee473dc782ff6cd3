use ntfs_forensic::logfile::{
    detect_journal_clearing, parse_logfile, read_record_pages, LogFileSummary, LogOp, RestartArea,
    LOG_PAGE_SIZE,
};
use ntfs_forensic::layout::{SIGNATURE_RCRD, SIGNATURE_RSTR};

/// The complete code→operation mapping; the index is the raw opcode.
const LFP_OPS: [LogOp; 35] = [
    LogOp::Noop,                         // 0x00
    LogOp::CompensationLogRecord,        // 0x01
    LogOp::InitializeFileRecordSegment,  // 0x02
    LogOp::DeallocateFileRecordSegment,  // 0x03
    LogOp::WriteEndOfFileRecordSegment,  // 0x04
    LogOp::CreateAttribute,              // 0x05
    LogOp::DeleteAttribute,              // 0x06
    LogOp::UpdateResidentValue,          // 0x07
    LogOp::UpdateNonResidentValue,       // 0x08
    LogOp::UpdateMappingPairs,           // 0x09
    LogOp::DeleteDirtyClusters,          // 0x0A
    LogOp::SetNewAttributeSizes,         // 0x0B
    LogOp::AddIndexEntryRoot,            // 0x0C
    LogOp::DeleteIndexEntryRoot,         // 0x0D
    LogOp::AddIndexEntryAllocation,      // 0x0E
    LogOp::DeleteIndexEntryAllocation,   // 0x0F
    LogOp::WriteEndOfIndexBuffer,        // 0x10
    LogOp::SetIndexEntryVcnRoot,         // 0x11
    LogOp::SetIndexEntryVcnAllocation,   // 0x12
    LogOp::UpdateFileNameRoot,           // 0x13
    LogOp::UpdateFileNameAllocation,     // 0x14
    LogOp::SetBitsInNonResidentBitMap,   // 0x15
    LogOp::ClearBitsInNonResidentBitMap, // 0x16
    LogOp::HotFix,                       // 0x17
    LogOp::EndTopLevelAction,            // 0x18
    LogOp::PrepareTransaction,           // 0x19
    LogOp::CommitTransaction,            // 0x1A
    LogOp::ForgetTransaction,            // 0x1B
    LogOp::OpenNonResidentAttribute,     // 0x1C
    LogOp::OpenAttributeTableDump,       // 0x1D
    LogOp::AttributeNamesDump,           // 0x1E
    LogOp::DirtyPageTableDump,           // 0x1F
    LogOp::TransactionTableDump,         // 0x20
    LogOp::UpdateRecordDataRoot,         // 0x21
    LogOp::UpdateRecordDataAllocation,   // 0x22
];

#[test]
fn logop_from_u16_matches_logfileparser_table() {
    for (code, &expected) in LFP_OPS.iter().enumerate() {
        assert_eq!(
            LogOp::from_u16(code as u16),
            expected,
            "opcode {code:#04x} must map to its operation"
        );
    }
}

#[test]
fn logop_unknown_surfaces_the_raw_code() {
    // Anything above the documented range is Unknown.
    assert_eq!(LogOp::from_u16(0x23), LogOp::Unknown(0x23));
    assert_eq!(LogOp::from_u16(0xFFFF), LogOp::Unknown(0xFFFF));
}

#[test]
fn logop_code_round_trips() {
    for code in 0u16..=0x22 {
        assert_eq!(LogOp::from_u16(code).code(), code, "round-trip {code:#04x}");
    }
    assert_eq!(LogOp::Unknown(0x99).code(), 0x99);
}

fn make_rstr_page(lsn: u64) -> Vec<u8> {
    let mut page = vec![0u8; LOG_PAGE_SIZE];
    page[0..4].copy_from_slice(&SIGNATURE_RSTR);
    page[0x08..0x10].copy_from_slice(&lsn.to_le_bytes());
    page[0x10..0x12].copy_from_slice(&1u16.to_le_bytes()); // 1 client
    page[0x20..0x24].copy_from_slice(&4096u32.to_le_bytes());
    page[0x24..0x28].copy_from_slice(&4096u32.to_le_bytes());
    page
}

fn make_rcrd_page(lsn: u64) -> Vec<u8> {
    let mut page = vec![0u8; LOG_PAGE_SIZE];
    page[0..4].copy_from_slice(&SIGNATURE_RCRD);
    page[0x18..0x20].copy_from_slice(&lsn.to_le_bytes());
    page
}

/// Build an RCRD page with a well-formed update sequence array, in the
/// on-disk form `apply_fixup` accepts: `usa_offset` 0x28, `usa_count` 9 (1 USN +
/// 8 protected 512-byte sectors), the USN written into each sector tail, and
/// distinct original values held in usa[1..9].
fn make_rcrd_page_with_usa(last_lsn: u64) -> Vec<u8> {
    let mut page = vec![0u8; LOG_PAGE_SIZE];
    page[0..4].copy_from_slice(&SIGNATURE_RCRD);
    page[0x04..0x06].copy_from_slice(&0x28u16.to_le_bytes()); // usa_offset
    page[0x06..0x08].copy_from_slice(&9u16.to_le_bytes()); // usa_count
    page[0x08..0x10].copy_from_slice(&last_lsn.to_le_bytes()); // last_lsn @0x08
    let usn: u16 = 0x0007;
    page[0x28..0x2a].copy_from_slice(&usn.to_le_bytes()); // usa[0] = USN
    for i in 0..8usize {
        let original: u16 = 0xAA00 | i as u16;
        let usa_slot = 0x2a + i * 2;
        page[usa_slot..usa_slot + 2].copy_from_slice(&original.to_le_bytes());
        let tail = (i + 1) * 512 - 2;
        page[tail..tail + 2].copy_from_slice(&usn.to_le_bytes()); // USN in tail
    }
    page
}

#[test]
fn read_record_pages_accepts_valid_usa_page() {
    let pages = read_record_pages(&make_rcrd_page_with_usa(0x1234));
    assert_eq!(pages.len(), 1);
    assert_eq!(pages[0].offset, 0);
    assert_eq!(pages[0].last_lsn, 0x1234);
    // Sector-0 tail (0x1fe) restored from usa[1] = 0xAA00.
    assert_eq!(&pages[0].data[0x1fe..0x200], &0xAA00u16.to_le_bytes());
}

#[test]
fn read_record_pages_skips_non_rcrd_pages() {
    // RSTR and zeroed pages are not record pages → continue branch.
    let mut data = make_rstr_page(1000);
    data.extend_from_slice(&vec![0u8; LOG_PAGE_SIZE]);
    assert!(read_record_pages(&data).is_empty());
}

#[test]
fn read_record_pages_skips_page_with_invalid_usa() {
    // RCRD signature but usa_count is 0 → apply_fixup errors → page skipped.
    let pages = read_record_pages(&make_rcrd_page(5000));
    assert!(pages.is_empty());
}

#[test]
fn read_record_pages_empty_input() {
    assert!(read_record_pages(&[]).is_empty());
}

#[test]
fn read_record_pages_returns_only_valid_pages_in_mixed_stream() {
    // RSTR, valid-USA RCRD, invalid-USA RCRD, zeroed → exactly one recovered.
    let mut data = make_rstr_page(1000);
    data.extend_from_slice(&make_rcrd_page_with_usa(0xBEEF));
    data.extend_from_slice(&make_rcrd_page(2000)); // usa_count 0 → rejected
    data.extend_from_slice(&vec![0u8; LOG_PAGE_SIZE]);
    let pages = read_record_pages(&data);
    assert_eq!(pages.len(), 1);
    assert_eq!(pages[0].offset, LOG_PAGE_SIZE);
    assert_eq!(pages[0].last_lsn, 0xBEEF);
}

#[test]
fn test_parse_logfile_with_restart_areas() {
    let mut data = Vec::new();
    data.extend_from_slice(&make_rstr_page(1000));
    data.extend_from_slice(&make_rstr_page(2000));
    data.extend_from_slice(&make_rcrd_page(3000));

    let summary = parse_logfile(&data).unwrap();
    assert_eq!(summary.restart_areas.len(), 2);
    assert_eq!(summary.record_page_count, 1);
    assert_eq!(summary.highest_lsn, 3000);
    assert!(!summary.has_gaps);
}

#[test]
fn test_detect_journal_clearing_with_gaps() {
    let summary = LogFileSummary {
        restart_areas: vec![],
        record_page_count: 0,
        has_gaps: true,
        highest_lsn: 0,
    };
    assert!(detect_journal_clearing(&summary));
}

#[test]
fn test_normal_logfile_no_clearing() {
    let summary = LogFileSummary {
        restart_areas: vec![
            RestartArea {
                offset: 0,
                current_lsn: 1000,
                log_clients: 1,
                system_page_size: 4096,
                log_page_size: 4096,
            },
            RestartArea {
                offset: 4096,
                current_lsn: 2000,
                log_clients: 1,
                system_page_size: 4096,
                log_page_size: 4096,
            },
        ],
        record_page_count: 100,
        has_gaps: false,
        highest_lsn: 5000,
    };
    assert!(!detect_journal_clearing(&summary));
}

#[test]
fn test_detect_journal_clearing_empty_restart_areas() {
    let summary = LogFileSummary {
        restart_areas: vec![],
        record_page_count: 0,
        has_gaps: false,
        highest_lsn: 0,
    };
    assert!(detect_journal_clearing(&summary));
}

#[test]
fn test_detect_journal_clearing_one_restart_area() {
    // 1 restart area (not 2) but no gaps - not detected as clearing
    let summary = LogFileSummary {
        restart_areas: vec![RestartArea {
            offset: 0,
            current_lsn: 1000,
            log_clients: 1,
            system_page_size: 4096,
            log_page_size: 4096,
        }],
        record_page_count: 50,
        has_gaps: false,
        highest_lsn: 5000,
    };
    assert!(!detect_journal_clearing(&summary));
}

#[test]
fn test_detect_journal_clearing_three_restart_areas() {
    // 3 restart areas (not 2) but no gaps
    let summary = LogFileSummary {
        restart_areas: vec![
            RestartArea {
                offset: 0,
                current_lsn: 1000,
                log_clients: 1,
                system_page_size: 4096,
                log_page_size: 4096,
            },
            RestartArea {
                offset: 4096,
                current_lsn: 2000,
                log_clients: 1,
                system_page_size: 4096,
                log_page_size: 4096,
            },
            RestartArea {
                offset: 8192,
                current_lsn: 3000,
                log_clients: 1,
                system_page_size: 4096,
                log_page_size: 4096,
            },
        ],
        record_page_count: 50,
        has_gaps: false,
        highest_lsn: 5000,
    };
    assert!(!detect_journal_clearing(&summary));
}

#[test]
fn test_parse_logfile_empty() {
    let summary = parse_logfile(&[]).unwrap();
    assert_eq!(summary.restart_areas.len(), 0);
    assert_eq!(summary.record_page_count, 0);
    assert!(!summary.has_gaps);
    assert_eq!(summary.highest_lsn, 0);
}

#[test]
fn test_parse_logfile_only_rcrd_pages() {
    let mut data = Vec::new();
    data.extend_from_slice(&make_rcrd_page(1000));
    data.extend_from_slice(&make_rcrd_page(2000));
    data.extend_from_slice(&make_rcrd_page(3000));

    let summary = parse_logfile(&data).unwrap();
    assert_eq!(summary.restart_areas.len(), 0);
    assert_eq!(summary.record_page_count, 3);
    assert_eq!(summary.highest_lsn, 3000);
}

#[test]
fn test_parse_logfile_gap_detection() {
    // RSTR, RSTR, RCRD, RCRD, non-RCRD/non-zero page, RCRD
    // Gap should be detected at the non-RCRD page
    let mut data = Vec::new();
    data.extend_from_slice(&make_rstr_page(1000));
    data.extend_from_slice(&make_rstr_page(2000));
    data.extend_from_slice(&make_rcrd_page(3000));

    // Create a non-zero, non-RCRD, non-RSTR page (looks like corruption)
    let mut garbage_page = vec![0xDEu8; LOG_PAGE_SIZE];
    garbage_page[0..4].copy_from_slice(b"JUNK");
    data.extend_from_slice(&garbage_page);

    data.extend_from_slice(&make_rcrd_page(5000));

    let summary = parse_logfile(&data).unwrap();
    assert!(summary.has_gaps);
}

#[test]
fn test_parse_logfile_no_gap_for_zeroed_page() {
    // Zeroed pages after RCRD pages should NOT be treated as gaps
    let mut data = Vec::new();
    data.extend_from_slice(&make_rstr_page(1000));
    data.extend_from_slice(&make_rstr_page(2000));
    data.extend_from_slice(&make_rcrd_page(3000));
    data.extend_from_slice(&vec![0u8; LOG_PAGE_SIZE]); // zeroed page

    let summary = parse_logfile(&data).unwrap();
    assert!(!summary.has_gaps);
}

#[test]
fn test_parse_logfile_restart_area_lsn_tracking() {
    let mut data = Vec::new();
    data.extend_from_slice(&make_rstr_page(5000));
    data.extend_from_slice(&make_rstr_page(3000));
    data.extend_from_slice(&make_rcrd_page(4000));

    let summary = parse_logfile(&data).unwrap();
    assert_eq!(summary.highest_lsn, 5000);
    assert_eq!(summary.restart_areas.len(), 2);
    assert_eq!(summary.restart_areas[0].current_lsn, 5000);
    assert_eq!(summary.restart_areas[1].current_lsn, 3000);
}

#[test]
fn test_parse_logfile_short_rstr_page() {
    // A page with RSTR signature but too small for full header
    let mut data = vec![0u8; LOG_PAGE_SIZE];
    data[0..4].copy_from_slice(&SIGNATURE_RSTR);
    // Only write signature, not enough data for header fields at 0x08..0x28
    // But we set the full page so offset + 0x28 <= data.len() is true
    // The actual data at those offsets will be zeros, which is still valid

    let summary = parse_logfile(&data).unwrap();
    assert_eq!(summary.restart_areas.len(), 1);
    assert_eq!(summary.restart_areas[0].current_lsn, 0);
}

#[test]
fn test_parse_logfile_page_offset_boundary() {
    // Exactly one page.
    let data = make_rcrd_page(5000);
    assert_eq!(data.len(), LOG_PAGE_SIZE);
    let summary = parse_logfile(&data).unwrap();
    assert_eq!(summary.record_page_count, 1);
    assert_eq!(summary.highest_lsn, 5000);
}

#[test]
fn test_parse_logfile_data_smaller_than_page() {
    // Data that's not a full page
    let data = vec![0xAAu8; 100];
    let summary = parse_logfile(&data).unwrap();
    assert_eq!(summary.restart_areas.len(), 0);
    assert_eq!(summary.record_page_count, 0);
}

#[test]
fn test_parse_logfile_boundary_check_line_61() {
    // Exactly one page, all zeroes.
    let data = vec![0u8; LOG_PAGE_SIZE];
    let summary = parse_logfile(&data).unwrap();
    // All zeros -> no RSTR or RCRD signatures
    assert_eq!(summary.restart_areas.len(), 0);
    assert_eq!(summary.record_page_count, 0);
    assert!(!summary.has_gaps);
}

#[test]
fn test_parse_logfile_gap_not_flagged_early_pages() {
    // The condition page_idx > 2 prevents false gap detection
    // for the very first pages. Build data: RCRD page 0, then garbage page 1.
    // Since page_idx=1 which is <= 2, no gap should be flagged.
    let mut data = Vec::new();
    data.extend_from_slice(&make_rcrd_page(1000)); // page 0
    let mut garbage = vec![0xDEu8; LOG_PAGE_SIZE];
    garbage[0..4].copy_from_slice(b"JUNK");
    data.extend_from_slice(&garbage); // page 1

    let summary = parse_logfile(&data).unwrap();
    assert!(!summary.has_gaps);
}

#[test]
fn test_parse_logfile_rstr_too_short_for_header() {
    // Test RSTR page where page_offset + 0x28 > data.len() is false
    // but then we need the opposite: page_offset + 0x28 > data.len()
    // This can't happen with full pages since LOG_PAGE_SIZE (4096) >> 0x28.
    // Exercise: a full RSTR page that has a zero LSN.
    let mut data = make_rstr_page(0);
    // Override the LSN to zero - should track as highest_lsn = 0
    data[0x08..0x10].copy_from_slice(&0u64.to_le_bytes());

    let summary = parse_logfile(&data).unwrap();
    assert_eq!(summary.restart_areas.len(), 1);
    assert_eq!(summary.restart_areas[0].current_lsn, 0);
    assert_eq!(summary.highest_lsn, 0);
}
