use ntfs_forensic::error::{IoFault, NtfsError};
use ntfs_forensic::source::{ByteSource, MemorySource};
use ntfs_forensic::usn::reader::WINDOW as BUF_SIZE;
use ntfs_forensic::usn::record::REASON_CLOSE;
use ntfs_forensic::usn::{
    parse_usn_record_v2, UsnJournalReader, UsnRecord,
};

/// Every record that a reader yields without a fault.
fn records_of<R: ByteSource>(mut reader: UsnJournalReader<R>) -> Vec<UsnRecord> {
    let mut records = Vec::new();
    while let Some(outcome) = reader.next() {
        if let Ok(record) = outcome {
            records.push(record);
        }
    }
    records
}


fn build_v2_record_bytes(
    entry: u64,
    seq: u16,
    parent: u64,
    parent_seq: u16,
    reason: u32,
    name: &str,
) -> Vec<u8> {
    let name_utf16: Vec<u16> = name.encode_utf16().collect();
    let name_bytes_len = name_utf16.len() * 2;
    let record_len = 0x3C + name_bytes_len;
    let aligned_len = (record_len + 7) & !7;
    let mut buf = vec![0u8; aligned_len];
    buf[0..4].copy_from_slice(&(record_len as u32).to_le_bytes());
    buf[4..6].copy_from_slice(&2u16.to_le_bytes());
    let file_ref = entry | (u64::from(seq) << 48);
    buf[0x08..0x10].copy_from_slice(&file_ref.to_le_bytes());
    let parent_ref = parent | (u64::from(parent_seq) << 48);
    buf[0x10..0x18].copy_from_slice(&parent_ref.to_le_bytes());
    buf[0x18..0x20].copy_from_slice(&100i64.to_le_bytes());
    let ts: i64 = 133_500_480_000_000_000;
    buf[0x20..0x28].copy_from_slice(&ts.to_le_bytes());
    buf[0x28..0x2C].copy_from_slice(&reason.to_le_bytes());
    buf[0x34..0x38].copy_from_slice(&0x20u32.to_le_bytes());
    buf[0x38..0x3A].copy_from_slice(&(name_bytes_len as u16).to_le_bytes());
    buf[0x3A..0x3C].copy_from_slice(&0x3Cu16.to_le_bytes());
    for (i, &ch) in name_utf16.iter().enumerate() {
        let off = 0x3C + i * 2;
        buf[off..off + 2].copy_from_slice(&ch.to_le_bytes());
    }
    buf
}

#[test]
fn test_streaming_reader_basic() {
    let r = build_v2_record_bytes(100, 1, 5, 5, 0x100, "test.txt");
    let source = MemorySource::new(r);
    let reader = UsnJournalReader::new(source).unwrap();
    let records = records_of(reader);
    assert_eq!(records.len(), 1);
    assert_eq!(records[0].filename, "test.txt");
}

#[test]
fn test_streaming_reader_skips_zeros() {
    let mut data = vec![0u8; 4096];
    data.extend_from_slice(&build_v2_record_bytes(100, 1, 5, 5, 0x100, "found.txt"));
    let source = MemorySource::new(data);
    let reader = UsnJournalReader::new(source).unwrap();
    let records = records_of(reader);
    assert_eq!(records.len(), 1);
    assert_eq!(records[0].filename, "found.txt");
}

#[test]
fn test_streaming_reader_multiple() {
    let mut data = Vec::new();
    data.extend_from_slice(&build_v2_record_bytes(100, 1, 5, 5, 0x100, "a.txt"));
    data.extend_from_slice(&build_v2_record_bytes(200, 1, 100, 1, 0x200, "b.txt"));
    data.extend_from_slice(&build_v2_record_bytes(300, 1, 100, 1, 0x100, "c.txt"));
    let source = MemorySource::new(data);
    let reader = UsnJournalReader::new(source).unwrap();
    let records = records_of(reader);
    assert_eq!(records.len(), 3);
}

#[test]
fn test_streaming_reader_empty_data() {
    let source = MemorySource::new(Vec::<u8>::new());
    let reader = UsnJournalReader::new(source).unwrap();
    let records = records_of(reader);
    assert_eq!(records.len(), 0);
}

#[test]
fn test_streaming_reader_all_zeros() {
    let data = vec![0u8; 4096];
    let source = MemorySource::new(data);
    let reader = UsnJournalReader::new(source).unwrap();
    let records = records_of(reader);
    assert_eq!(records.len(), 0);
}

#[test]
fn test_streaming_reader_includes_close_only() {
    let data = build_v2_record_bytes(100, 1, 5, 5, 0x8000_0000, "closed.txt");
    let source = MemorySource::new(data);
    let reader = UsnJournalReader::new(source).unwrap();
    let records = records_of(reader);
    assert_eq!(records.len(), 1);
    assert_eq!(records[0].reason, REASON_CLOSE);
}

#[test]
fn test_streaming_reader_invalid_record_length() {
    // Record with invalid length (too small) should be skipped
    let mut data = vec![0u8; 64];
    data[0..4].copy_from_slice(&3u32.to_le_bytes()); // length < 8
    data[4..6].copy_from_slice(&2u16.to_le_bytes());
    // Rest is zeros, reader will skip

    let source = MemorySource::new(data);
    let reader = UsnJournalReader::new(source).unwrap();
    let records = records_of(reader);
    assert_eq!(records.len(), 0);
}

#[test]
fn test_streaming_reader_invalid_then_valid() {
    let mut data = vec![0u8; 16]; // some garbage that looks non-zero
    data[0..4].copy_from_slice(&5u32.to_le_bytes()); // invalid length
    data[4..6].copy_from_slice(&99u16.to_le_bytes()); // invalid version
                                                      // Pad to 8-byte boundary for skipping
    data.resize(16, 0);
    // Now add zeros then a valid record
    data.extend_from_slice(&[0u8; 64]);
    data.extend_from_slice(&build_v2_record_bytes(100, 1, 5, 5, 0x100, "valid.txt"));

    let source = MemorySource::new(data);
    let reader = UsnJournalReader::new(source).unwrap();
    let records = records_of(reader);
    assert_eq!(records.len(), 1);
    assert_eq!(records[0].filename, "valid.txt");
}

#[test]
fn test_streaming_reader_unknown_version() {
    // Record with valid length but unknown version
    let mut data = vec![0u8; 0x40];
    data[0..4].copy_from_slice(&(0x40u32).to_le_bytes());
    data[4..6].copy_from_slice(&99u16.to_le_bytes()); // version 99

    let source = MemorySource::new(data);
    let reader = UsnJournalReader::new(source).unwrap();
    let records = records_of(reader);
    assert_eq!(records.len(), 0);
}

fn build_v3_record_bytes(entry: u64, parent: u64, reason: u32, name: &str) -> Vec<u8> {
    let name_utf16: Vec<u16> = name.encode_utf16().collect();
    let name_bytes_len = name_utf16.len() * 2;
    let record_len = 0x4C + name_bytes_len;
    let aligned_len = (record_len + 7) & !7;
    let mut buf = vec![0u8; aligned_len];

    buf[0..4].copy_from_slice(&(record_len as u32).to_le_bytes());
    buf[4..6].copy_from_slice(&3u16.to_le_bytes());
    buf[6..8].copy_from_slice(&0u16.to_le_bytes());
    buf[0x08..0x18].copy_from_slice(&u128::from(entry).to_le_bytes());
    buf[0x18..0x28].copy_from_slice(&u128::from(parent).to_le_bytes());
    buf[0x28..0x30].copy_from_slice(&200i64.to_le_bytes());
    let ts: i64 = 133_500_480_000_000_000;
    buf[0x30..0x38].copy_from_slice(&ts.to_le_bytes());
    buf[0x38..0x3C].copy_from_slice(&reason.to_le_bytes());
    buf[0x44..0x48].copy_from_slice(&0x20u32.to_le_bytes());
    buf[0x48..0x4A].copy_from_slice(&(name_bytes_len as u16).to_le_bytes());
    buf[0x4A..0x4C].copy_from_slice(&0x4Cu16.to_le_bytes());
    for (i, &ch) in name_utf16.iter().enumerate() {
        let off = 0x4C + i * 2;
        buf[off..off + 2].copy_from_slice(&ch.to_le_bytes());
    }
    buf
}

#[test]
fn test_streaming_reader_v3_record() {
    let data = build_v3_record_bytes(100, 5, 0x100, "v3file.txt");
    let source = MemorySource::new(data);
    let reader = UsnJournalReader::new(source).unwrap();
    let records = records_of(reader);
    assert_eq!(records.len(), 1);
    assert_eq!(records[0].filename, "v3file.txt");
    assert_eq!(records[0].major_version, 3);
}

#[test]
fn test_streaming_reader_v3_close_only_included() {
    let data = build_v3_record_bytes(100, 5, 0x8000_0000, "closed_v3.txt");
    let source = MemorySource::new(data);
    let reader = UsnJournalReader::new(source).unwrap();
    let records = records_of(reader);
    assert_eq!(records.len(), 1);
    assert_eq!(records[0].reason, REASON_CLOSE);
}

#[test]
fn test_streaming_reader_large_zero_gap() {
    // Large zero region followed by a valid record
    let mut data = vec![0u8; 128 * 1024]; // 128KB of zeros (larger than buffer)
    data.extend_from_slice(&build_v2_record_bytes(100, 1, 5, 5, 0x100, "deep.txt"));

    let source = MemorySource::new(data);
    let reader = UsnJournalReader::new(source).unwrap();
    let records = records_of(reader);
    assert_eq!(records.len(), 1);
    assert_eq!(records[0].filename, "deep.txt");
}

#[test]
fn test_streaming_reader_record_larger_than_initial_buffer_fill() {
    // Record at offset 0 where the buffer needs to be filled
    let record = build_v2_record_bytes(42, 3, 5, 5, 0x100, "buffer_test.txt");
    let source = MemorySource::new(record);
    let reader = UsnJournalReader::new(source).unwrap();
    let records = records_of(reader);
    assert_eq!(records.len(), 1);
    assert_eq!(records[0].mft_entry, 42);
    assert_eq!(records[0].mft_sequence, 3);
}

#[test]
fn test_streaming_reader_record_too_large() {
    // A record that claims to be 65537 bytes (> 65536 max) should be skipped
    let mut data = vec![0u8; 128];
    data[0..4].copy_from_slice(&(65537u32).to_le_bytes());
    data[4..6].copy_from_slice(&2u16.to_le_bytes());

    let source = MemorySource::new(data);
    let reader = UsnJournalReader::new(source).unwrap();
    let records = records_of(reader);
    assert_eq!(records.len(), 0);
}

#[test]
fn test_streaming_reader_mixed_v2_v3() {
    let mut data = Vec::new();
    data.extend_from_slice(&build_v2_record_bytes(100, 1, 5, 5, 0x100, "v2.txt"));
    data.extend_from_slice(&build_v3_record_bytes(200, 5, 0x200, "v3.txt"));
    data.extend_from_slice(&build_v2_record_bytes(300, 1, 5, 5, 0x100, "v2b.txt"));

    let source = MemorySource::new(data);
    let reader = UsnJournalReader::new(source).unwrap();
    let records = records_of(reader);
    assert_eq!(records.len(), 3);
    assert_eq!(records[0].major_version, 2);
    assert_eq!(records[1].major_version, 3);
    assert_eq!(records[2].major_version, 2);
}

#[test]
fn test_streaming_reader_fill_buffer_with_unconsumed_data() {
    // Create data that spans multiple buffer fills.
    // First, fill most of the 64KB buffer with valid records, then add
    // a record that straddles the buffer boundary.
    // This triggers the fill_buffer path where buf_offset > 0 && buf_offset < buf_len,
    // meaning unconsumed data needs to be moved to front of buffer.
    let mut data = Vec::new();
    let record_size;
    {
        let sample = build_v2_record_bytes(1, 1, 5, 5, 0x100, "sample.txt");
        record_size = sample.len();
    }

    // Fill just under 64KB with records, then add zeros, then another record
    // that will require a buffer refill with leftover data
    let num_records_to_fill = (BUF_SIZE - record_size) / record_size;
    for i in 0..num_records_to_fill {
        data.extend_from_slice(&build_v2_record_bytes(
            (i + 1) as u64,
            1,
            5,
            5,
            0x100,
            &format!("f{i:04}.txt"),
        ));
    }

    // Add more records after the boundary
    for i in 0..5 {
        data.extend_from_slice(&build_v2_record_bytes(
            (num_records_to_fill + i + 1) as u64,
            1,
            5,
            5,
            0x100,
            &format!("after{i}.txt"),
        ));
    }

    let source = MemorySource::new(data);
    let reader = UsnJournalReader::new(source).unwrap();
    let records = records_of(reader);
    // Should find all records from both sides of the buffer boundary
    assert!(records.len() >= num_records_to_fill + 5);
}

#[test]
fn test_streaming_reader_record_at_exact_buffer_boundary() {
    // Place records such that one record ends exactly at the buffer boundary
    // and the next starts exactly at the next fill.
    let sample = build_v2_record_bytes(1, 1, 5, 5, 0x100, "sample.txt");
    let record_size = sample.len();

    let mut data = Vec::new();
    // Calculate how many records fit exactly in the buffer
    let records_per_buffer = BUF_SIZE / record_size;
    let exact_fill = records_per_buffer * record_size;

    // Fill exactly to the buffer size
    for i in 0..records_per_buffer {
        data.extend_from_slice(&build_v2_record_bytes(
            (i + 1) as u64,
            1,
            5,
            5,
            0x100,
            "exact.txt",
        ));
    }

    // Pad to exactly BUF_SIZE if needed
    if exact_fill < BUF_SIZE {
        data.extend_from_slice(&vec![0u8; BUF_SIZE - exact_fill]);
    }

    // Add one more record that starts at the exact boundary
    data.extend_from_slice(&build_v2_record_bytes(
        (records_per_buffer + 1) as u64,
        1,
        5,
        5,
        0x100,
        "boundary.txt",
    ));

    let source = MemorySource::new(data);
    let reader = UsnJournalReader::new(source).unwrap();
    let records = records_of(reader);
    // The last record "boundary.txt" should be found
    assert!(records.iter().any(|r| r.filename == "boundary.txt"));
}

#[test]
fn test_streaming_reader_record_straddles_buffer() {
    // Create data where a record starts in one buffer fill and extends
    // into the next fill. This tests the refill path where
    // buf_offset + record_len > buf_len triggers fill_buffer.
    let sample = build_v2_record_bytes(1, 1, 5, 5, 0x100, "sample.txt");
    let record_size = sample.len();

    let mut data = Vec::new();
    // Fill most of the buffer
    let records_to_fill = (BUF_SIZE / record_size) - 1;
    for i in 0..records_to_fill {
        data.extend_from_slice(&build_v2_record_bytes(
            (i + 1) as u64,
            1,
            5,
            5,
            0x100,
            "fill.txt",
        ));
    }

    let current_len = data.len();
    // Add zeros to position us near the end of the buffer
    // Leave less than record_size bytes before the boundary
    let padding = BUF_SIZE - current_len - (record_size / 2);
    if padding > 0 {
        data.extend_from_slice(&vec![0u8; padding]);
    }

    // Now add a record that will straddle the buffer boundary
    data.extend_from_slice(&build_v2_record_bytes(999, 1, 5, 5, 0x100, "straddle.txt"));

    // Add trailing data
    data.extend_from_slice(&vec![0u8; 256]);

    let source = MemorySource::new(data);
    let reader = UsnJournalReader::new(source).unwrap();
    let records = records_of(reader);
    // The straddling record should be found
    assert!(records.iter().any(|r| r.filename == "straddle.txt"));
}

#[test]
fn test_streaming_reader_data_larger_than_buffer() {
    // Create data significantly larger than the 64KB buffer to ensure
    // multiple fill_buffer cycles work correctly
    let mut data = Vec::new();
    let total_records = 2000; // Each ~80 bytes = ~160KB > 64KB buffer
    for i in 0..total_records {
        data.extend_from_slice(&build_v2_record_bytes(
            (i + 1) as u64,
            1,
            5,
            5,
            0x100,
            &format!("r{i:04}.txt"),
        ));
    }

    let source = MemorySource::new(data);
    let reader = UsnJournalReader::new(source).unwrap();
    let records = records_of(reader);
    assert_eq!(records.len(), total_records);
}


/// A source that yields data from an inner buffer, but fails after a configurable number
/// of successful reads.
struct ErrorAfterNReads {
    data: MemorySource,
    reads_remaining: usize,
}

impl ErrorAfterNReads {
    fn new(data: Vec<u8>, successful_reads: usize) -> Self {
        Self {
            data: MemorySource::new(data),
            reads_remaining: successful_reads,
        }
    }
}

impl ByteSource for ErrorAfterNReads {
    fn read_at(&mut self, offset: u64, len: usize) -> Result<Vec<u8>, NtfsError> {
        if self.reads_remaining == 0 {
            return Err(NtfsError::Io(IoFault::Other(
                "simulated read error".to_string(),
            )));
        }
        self.reads_remaining -= 1;
        self.data.read_at(offset, len)
    }

    fn size(&mut self) -> Result<u64, NtfsError> {
        self.data.size()
    }
}

#[test]
fn test_streaming_reader_done_flag_returns_none() {
    // After consuming all records, the reader sets done=true.
    // The next call to next() should immediately return None.
    let record = build_v2_record_bytes(100, 1, 5, 5, 0x100, "done.txt");
    let source = MemorySource::new(record);
    let mut reader = UsnJournalReader::new(source).unwrap();

    // Consume the one record
    let first = reader.next();
    assert!(first.is_some());
    assert!(first.unwrap().is_ok());

    let second = reader.next();
    assert!(second.is_none());

    // Call again to confirm it stays None
    let third = reader.next();
    assert!(third.is_none());
}

#[test]
fn test_streaming_reader_fill_buffer_error_propagation() {
    // The very first window cannot be read: the fault is handed on.
    let record = build_v2_record_bytes(100, 1, 5, 5, 0x100, "err.txt");
    let err_reader = ErrorAfterNReads::new(record, 0);
    let mut reader = UsnJournalReader::new(err_reader).unwrap();

    let result = reader.next();
    assert!(result.is_some());
    let err = result.unwrap();
    assert!(err.is_err());
    assert!(err
        .unwrap_err()
        .message()
        .contains("simulated read error"));
}

#[test]
fn test_streaming_reader_skip_zeros_error_propagation() {
    // We need data that starts with zeros (so skip_zeros is called and
    // needs to fill_buffer), then the fill_buffer inside skip_zeros fails.
    let mut data = vec![0u8; BUF_SIZE]; // Full buffer of zeros
    data.extend_from_slice(&[1, 2, 3, 4, 5, 6, 7, 8]); // non-zero to prevent early EOF

    // Allow 1 successful read (fills the zero buffer), then error on the
    // refill inside skip_zeros
    let err_reader = ErrorAfterNReads::new(data, 1);
    let mut reader = UsnJournalReader::new(err_reader).unwrap();

    let result = reader.next();
    assert!(result.is_some());
    let err = result.unwrap();
    assert!(err.is_err());
}

#[test]
fn test_streaming_reader_eof_mid_fill_with_remaining_data() {
    // The source reports more
    // data than it delivers, so after the record is read, read() returns 0
    // while stream_pos < total_size and the buffered record is still resolved.
    let record = build_v2_record_bytes(42, 1, 5, 5, 0x100, "tiny.txt");
    let lying = LyingSizeReader::new(record, 4096);
    let mut reader = UsnJournalReader::new(lying).unwrap();

    let result = reader.next();
    assert!(result.is_some());
    let rec = result.unwrap().unwrap();
    assert_eq!(rec.filename, "tiny.txt");
}

#[test]
fn test_streaming_reader_eof_mid_fill_no_remaining_data() {
    // The source reports a
    // non-zero size but read() returns 0 immediately, so it returns Ok(false).
    let lying = LyingSizeReader::new(Vec::new(), 4096);
    let mut reader = UsnJournalReader::new(lying).unwrap();

    let result = reader.next();
    assert!(result.is_none());
}

#[test]
fn test_streaming_reader_header_refill_insufficient() {
    // We need a situation where after skip_zeros, buf_offset + 8 > buf_len,
    // and fill_buffer can't provide enough data.
    // Create data: zeros (to fill most of buffer), then 4 non-zero bytes at the
    // very end. After skip_zeros consumes the zeros, we have <8 bytes of non-zero
    // data, and fill_buffer returns Ok(true) but buf_offset + 8 > buf_len.
    let mut data = vec![0u8; BUF_SIZE - 4]; // zeros filling most of buffer
    data.extend_from_slice(&[0xAA, 0xBB, 0xCC, 0xDD]); // 4 non-zero bytes at end

    let source = MemorySource::new(data);
    let mut reader = UsnJournalReader::new(source).unwrap();

    // skip_zeros will skip all the zeros and land at the 4 non-zero bytes.
    // buf_offset + 8 > buf_len, fill_buffer is called but there's no more data.
    let result = reader.next();
    assert!(result.is_none());
}

#[test]
fn test_streaming_reader_record_refill_insufficient() {
    // We need a record header that claims a large record_len, but the data
    // is truncated so fill_buffer can't provide the full record.
    let mut data = vec![0u8; 16];
    // Write a record header claiming 1024 bytes, version 2
    data[0..4].copy_from_slice(&(1024u32).to_le_bytes());
    data[4..6].copy_from_slice(&2u16.to_le_bytes());
    // But we only have 16 bytes total - fill_buffer can't get 1024 bytes.

    let source = MemorySource::new(data);
    let mut reader = UsnJournalReader::new(source).unwrap();

    let result = reader.next();
    assert!(result.is_none());
}

#[test]
fn test_streaming_reader_v2_parse_error_skips() {
    // Create a record with valid length and version=2 but invalid internal data
    // that causes parse_usn_record_v2 to fail, followed by a valid record.
    let mut data = Vec::new();

    // A record with record_len=0x20 (32 bytes) and version=2.
    // The reader accepts record_len in 8..=65536, so 0x20 passes.
    // But parse_usn_record_v2 requires record_len >= USN_V2_MIN_SIZE (0x3C=60),
    let mut bad_v2 = vec![0u8; 0x20]; // 32 bytes
    bad_v2[0..4].copy_from_slice(&(0x20u32).to_le_bytes()); // record_len = 32
    bad_v2[4..6].copy_from_slice(&2u16.to_le_bytes()); // version 2
                                                       // Parser will fail: 0x20 < USN_V2_MIN_SIZE (0x3C)
    data.extend_from_slice(&bad_v2);

    // Second: a valid record that should be parsed
    data.extend_from_slice(&build_v2_record_bytes(
        100,
        1,
        5,
        5,
        0x100,
        "after_bad_v2.txt",
    ));

    let source = MemorySource::new(data);
    let reader = UsnJournalReader::new(source).unwrap();
    let records = records_of(reader);

    assert_eq!(records.len(), 1);
    assert_eq!(records[0].filename, "after_bad_v2.txt");
}

#[test]
fn test_streaming_reader_v3_parse_error_skips() {
    // Same approach: record_len that passes reader check (8..=65536)
    // but fails parser check (< USN_V3_MIN_SIZE = 0x4C = 76)
    let mut data = Vec::new();

    // Bad V3: record_len = 0x20 (32), version 3 -> parser fails (32 < 76)
    let mut bad_v3 = vec![0u8; 0x20];
    bad_v3[0..4].copy_from_slice(&(0x20u32).to_le_bytes());
    bad_v3[4..6].copy_from_slice(&3u16.to_le_bytes()); // version 3
    data.extend_from_slice(&bad_v3);

    // Valid V2 record after
    data.extend_from_slice(&build_v2_record_bytes(
        200,
        1,
        5,
        5,
        0x200,
        "after_bad_v3.txt",
    ));

    let source = MemorySource::new(data);
    let reader = UsnJournalReader::new(source).unwrap();
    let records = records_of(reader);

    assert_eq!(records.len(), 1);
    assert_eq!(records[0].filename, "after_bad_v3.txt");
}

#[test]
fn test_streaming_reader_skip_zeros_refill_then_find_data() {
    // Create data with more zeros than one buffer can hold, followed by a valid record.
    // This forces skip_zeros to call fill_buffer multiple times via the outer loop.
    let mut data = vec![0u8; BUF_SIZE * 2 + 512]; // >2 buffer fills of zeros
    data.extend_from_slice(&build_v2_record_bytes(
        100,
        1,
        5,
        5,
        0x100,
        "after_many_zeros.txt",
    ));

    let source = MemorySource::new(data);
    let reader = UsnJournalReader::new(source).unwrap();
    let records = records_of(reader);

    assert_eq!(records.len(), 1);
    assert_eq!(records[0].filename, "after_many_zeros.txt");
}

#[test]
fn test_streaming_reader_skip_zeros_all_zeros_eof() {
    // All data is zeros. After fill_buffer returns Ok(false) or buf_len drops to 0,
    let data = vec![0u8; BUF_SIZE + 100]; // slightly more than one buffer of zeros

    let source = MemorySource::new(data);
    let reader = UsnJournalReader::new(source).unwrap();
    let records = records_of(reader);

    assert_eq!(records.len(), 0);
}

#[test]
fn test_streaming_reader_record_straddles_buffer_refill_fails() {
    // a buffer fill, claims a size that needs more data, but the data stream
    // ends. fill_buffer succeeds (has some data) but record_len still > available.
    let sample = build_v2_record_bytes(1, 1, 5, 5, 0x100, "fill.txt");
    let record_size = sample.len();

    let mut data = Vec::new();
    // Fill most of one buffer with valid records
    let records_to_fill = (BUF_SIZE / record_size) - 1;
    for i in 0..records_to_fill {
        data.extend_from_slice(&build_v2_record_bytes(
            (i + 1) as u64,
            1,
            5,
            5,
            0x100,
            "fill.txt",
        ));
    }

    // Now add a truncated record: header claims 4096 bytes but only 16 are available
    let current_len = data.len();
    let remaining_in_buffer = BUF_SIZE - current_len;
    // Pad with zeros to get near end of buffer
    if remaining_in_buffer > 16 {
        data.extend_from_slice(&vec![0u8; remaining_in_buffer - 16]);
    }
    // Add a non-zero record header that claims a large size
    let mut truncated_header = vec![0u8; 16];
    truncated_header[0..4].copy_from_slice(&(4096u32).to_le_bytes()); // claims 4096 bytes
    truncated_header[4..6].copy_from_slice(&2u16.to_le_bytes()); // version 2
    truncated_header[8] = 0xFF; // make it non-zero so skip_zeros doesn't skip it
    data.extend_from_slice(&truncated_header);
    // No more data after this - fill_buffer will get these 16 bytes but

    let source = MemorySource::new(data);
    let reader = UsnJournalReader::new(source).unwrap();
    let records = records_of(reader);

    // Should have found the fill records but skipped the truncated one
    assert!(records.len() >= records_to_fill);
}

/// A source that over-reports its length: it claims to be `phantom_extra` bytes longer
/// than the data it actually returns.
struct LyingSizeReader {
    inner: MemorySource,
    real_len: u64,
    phantom_extra: u64,
}

impl LyingSizeReader {
    fn new(data: Vec<u8>, phantom_extra: u64) -> Self {
        let real_len = data.len() as u64;
        Self {
            inner: MemorySource::new(data),
            real_len,
            phantom_extra,
        }
    }
}

impl ByteSource for LyingSizeReader {
    fn read_at(&mut self, offset: u64, len: usize) -> Result<Vec<u8>, NtfsError> {
        self.inner.read_at(offset, len)
    }

    fn size(&mut self) -> Result<u64, NtfsError> {
        Ok(self.real_len + self.phantom_extra)
    }
}

#[test]
fn test_streaming_reader_read_zero_with_buffered_record() {
    // After one record is buffered and consumed, a later fill_buffer sees
    // stream_pos < total_size (size was over-reported) yet read() returns 0,
    // so it sets done=true and returns Ok(self.buf_len > 0).
    let record = build_v2_record_bytes(100, 1, 5, 5, 0x100, "phantom.txt");
    let lying = LyingSizeReader::new(record, 4096);
    let reader = UsnJournalReader::new(lying).unwrap();

    let records = records_of(reader);
    assert_eq!(records.len(), 1);
    assert_eq!(records[0].filename, "phantom.txt");
}

#[test]
fn test_streaming_reader_read_zero_with_empty_buffer() {
    // The source reports a non-zero size but read() returns 0 immediately,
    // so fill_buffer returns Ok(false) (self.buf_len > 0 is false).
    let lying = LyingSizeReader::new(Vec::new(), 4096);
    let mut reader = UsnJournalReader::new(lying).unwrap();

    // total_size is reported as 4096 but the reader has no bytes to give.
    assert!(reader.next().is_none());
}

#[test]
fn usn_parser_core_is_exposed_and_rejects_short_input() {
    // Too-short input must degrade to an error, never panic.
    assert!(parse_usn_record_v2(&[]).is_err());
    assert!(parse_usn_record_v2(&[0u8; 8]).is_err());
}

#[test]
fn a_source_that_keeps_failing_is_reported_each_time() {
    let mut journal = build_v2_record_bytes(1, 1, 5, 5, 0x100, "first.txt");
    journal.resize(BUF_SIZE, 0);
    journal.extend_from_slice(&build_v2_record_bytes(2, 1, 5, 5, 0x100, "second.txt"));
    let mut reader = UsnJournalReader::new(ErrorAfterNReads::new(journal, 1)).unwrap();
    assert_eq!(reader.next().unwrap().unwrap().filename, "first.txt");
    assert!(reader.next().unwrap().is_err());
    // The source keeps failing: each call reports it, and none pretends to be the end.
    assert!(reader.next().unwrap().is_err());
}

#[test]
fn records_come_once_and_in_order_wherever_the_windows_fall() {
    // Records of many sizes, with zero words between them, over several windows.
    let mut journal = Vec::new();
    let mut names = Vec::new();
    for i in 0..3000usize {
        let name = format!("{i:04}{}", "x".repeat(i % 40));
        journal.extend_from_slice(&build_v2_record_bytes(i as u64, 1, 5, 5, 0x100, &name));
        journal.extend_from_slice(&vec![0u8; 8 * (i % 5)]);
        names.push(name);
    }
    assert!(journal.len() > 3 * BUF_SIZE);
    let reader = UsnJournalReader::new(MemorySource::new(journal)).unwrap();
    let seen: Vec<String> = records_of(reader).into_iter().map(|r| r.filename).collect();
    assert_eq!(seen, names);
}
