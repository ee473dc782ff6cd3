use ntfs_forensic::error::{IoFault, NtfsError};
use ntfs_forensic::source::{ByteSource, MemorySource, OffsetReader, SeekFrom};

/// 64 bytes of disk: partition at offset 16, length 32.
fn disk() -> MemorySource {
    MemorySource::new((0u8..64).collect())
}

#[test]
fn reads_are_relative_to_base() {
    let mut r = OffsetReader::new(disk(), 16, 32).unwrap();
    let mut buf = [0u8; 4];
    assert_eq!(r.read(&mut buf).unwrap(), 4);
    assert_eq!(buf, [16, 17, 18, 19]); // partition byte 0 == disk byte 16
}

#[test]
fn seek_is_relative_to_base() {
    let mut r = OffsetReader::new(disk(), 16, 32).unwrap();
    r.seek(SeekFrom::Start(8)).unwrap();
    let mut buf = [0u8; 2];
    assert_eq!(r.read(&mut buf).unwrap(), 2);
    assert_eq!(buf, [24, 25]); // disk byte 16 + 8
}

#[test]
fn seek_end_is_partition_length() {
    let mut r = OffsetReader::new(disk(), 16, 32).unwrap();
    let end = r.seek(SeekFrom::End(0)).unwrap();
    assert_eq!(end, 32); // not 64 — the window ends at the partition
}

#[test]
fn read_is_clamped_at_partition_end() {
    let mut r = OffsetReader::new(disk(), 16, 32).unwrap();
    r.seek(SeekFrom::Start(30)).unwrap();
    let mut buf = [0u8; 8];
    let n = r.read(&mut buf).unwrap();
    assert_eq!(n, 2); // only 2 bytes remain in the window
    assert_eq!(&buf[..2], &[46, 47]); // disk bytes 46, 47
                                      // A further read sees EOF, never disk bytes 48+.
    assert_eq!(r.read(&mut buf).unwrap(), 0);
}

#[test]
fn rejects_seek_before_start() {
    let mut r = OffsetReader::new(disk(), 16, 32).unwrap();
    assert!(r.seek(SeekFrom::Current(-1)).is_err());
}

#[test]
fn len_reports_window_size() {
    let r = OffsetReader::new(disk(), 16, 32).unwrap();
    assert_eq!(r.len(), 32);
    assert!(!r.is_empty());
}

/// A source that cannot go past its first kilobyte.
struct Stuck;

impl Stuck {
    fn jammed() -> NtfsError {
        NtfsError::Io(IoFault::Other("the head is stuck".to_string()))
    }
}

impl ByteSource for Stuck {
    fn read_at(&mut self, offset: u64, len: usize) -> Result<Vec<u8>, NtfsError> {
        if offset > 1024 {
            return Err(Stuck::jammed());
        }
        Ok(vec![0u8; len])
    }

    fn size(&mut self) -> Result<u64, NtfsError> {
        Err(Stuck::jammed())
    }
}

#[test]
fn a_source_that_cannot_reach_the_partition_is_known_at_once() {
    assert!(OffsetReader::new(Stuck, 1024, 32).is_ok());
    assert_eq!(
        OffsetReader::new(Stuck, 1025, 32).err(),
        Some(Stuck::jammed())
    );
}

#[test]
fn a_partition_past_the_end_of_the_source_is_empty() {
    let mut r = OffsetReader::new(disk(), 1000, 32).unwrap();
    let mut buf = [0u8; 4];
    assert_eq!(r.read(&mut buf).unwrap(), 0);
}
