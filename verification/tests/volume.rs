use forensicnomicon::ntfs::{attr_types, filename_namespace};
use ntfs_forensic::bitmap::Extent;
use ntfs_forensic::error::{IoFault, NtfsError};
use ntfs_forensic::file_name::FileReference;
use ntfs_forensic::fs::NtfsFs;
use ntfs_forensic::node::{Allocation, ResidencyKind};
use ntfs_forensic::reparse::NodeKind;
use ntfs_forensic::runlist::Run;
use ntfs_forensic::source::{ByteSource, MemorySource};
use ntfs_forensic::vfs::{SectorSizes, SpaceError};

const SECTOR: usize = 512;
const CLUSTER: usize = 512;
const REC: usize = 1024;
const MFT_LCN: usize = 4;
const RECORDS: usize = 14;
/// The first cluster behind the MFT.
const FREE_LCN: usize = MFT_LCN + RECORDS * REC / CLUSTER;
const TOTAL_CLUSTERS: usize = FREE_LCN + 8;

fn boot() -> Vec<u8> {
    let mut b = vec![0u8; 512];
    b[3..11].copy_from_slice(b"NTFS    ");
    b[0x0B..0x0D].copy_from_slice(&(SECTOR as u16).to_le_bytes());
    b[0x0D] = (CLUSTER / SECTOR) as u8;
    b[0x28..0x30].copy_from_slice(&(TOTAL_CLUSTERS as u64).to_le_bytes());
    b[0x30..0x38].copy_from_slice(&(MFT_LCN as u64).to_le_bytes());
    b[0x40] = 0xF6; // 2^10 = 1024-byte records
    b[0x44] = 0x01;
    b[510] = 0x55;
    b[511] = 0xAA;
    b
}

fn record(flags: u16, sequence: u16, links: u16, attrs: &[u8]) -> Vec<u8> {
    let mut r = vec![0u8; REC];
    r[0..4].copy_from_slice(b"FILE");
    r[0x04..0x06].copy_from_slice(&0x30u16.to_le_bytes());
    r[0x06..0x08].copy_from_slice(&3u16.to_le_bytes());
    r[0x10..0x12].copy_from_slice(&sequence.to_le_bytes());
    r[0x12..0x14].copy_from_slice(&links.to_le_bytes());
    r[0x14..0x16].copy_from_slice(&0x38u16.to_le_bytes());
    r[0x16..0x18].copy_from_slice(&flags.to_le_bytes());
    r[0x18..0x1C].copy_from_slice(&((0x38 + attrs.len() + 4) as u32).to_le_bytes());
    r[0x1C..0x20].copy_from_slice(&(REC as u32).to_le_bytes());
    r[0x38..0x38 + attrs.len()].copy_from_slice(attrs);
    r[0x38 + attrs.len()..0x3C + attrs.len()].copy_from_slice(&attr_types::END.to_le_bytes());
    r[0x30..0x32].copy_from_slice(&1u16.to_le_bytes());
    for i in 0..2 {
        let tail = (i + 1) * SECTOR - 2;
        let original = [r[tail], r[tail + 1]];
        r[0x32 + 2 * i..0x34 + 2 * i].copy_from_slice(&original);
        r[tail..tail + 2].copy_from_slice(&1u16.to_le_bytes());
    }
    r
}

fn resident(type_code: u32, name: &str, content: &[u8]) -> Vec<u8> {
    let units: Vec<u16> = name.encode_utf16().collect();
    let content_off = (0x18 + units.len() * 2 + 7) & !7;
    let len = (content_off + content.len() + 7) & !7;
    let mut a = vec![0u8; len];
    a[0..4].copy_from_slice(&type_code.to_le_bytes());
    a[4..8].copy_from_slice(&(len as u32).to_le_bytes());
    a[0x09] = units.len() as u8;
    a[0x0A..0x0C].copy_from_slice(&0x18u16.to_le_bytes());
    a[0x10..0x14].copy_from_slice(&(content.len() as u32).to_le_bytes());
    a[0x14..0x16].copy_from_slice(&(content_off as u16).to_le_bytes());
    for (i, u) in units.iter().enumerate() {
        a[0x18 + i * 2..0x1A + i * 2].copy_from_slice(&u.to_le_bytes());
    }
    a[content_off..content_off + content.len()].copy_from_slice(content);
    a
}

fn mapped(type_code: u32, runs: &[u8], real_size: u64, flags: u16, unit: u16) -> Vec<u8> {
    let len = (0x40 + runs.len() + 7) & !7;
    let mut a = vec![0u8; len];
    a[0..4].copy_from_slice(&type_code.to_le_bytes());
    a[4..8].copy_from_slice(&(len as u32).to_le_bytes());
    a[0x08] = 1;
    a[0x0A..0x0C].copy_from_slice(&0x40u16.to_le_bytes());
    a[0x0C..0x0E].copy_from_slice(&flags.to_le_bytes());
    a[0x20..0x22].copy_from_slice(&0x40u16.to_le_bytes());
    a[0x22..0x24].copy_from_slice(&unit.to_le_bytes());
    a[0x28..0x30].copy_from_slice(&real_size.to_le_bytes());
    a[0x30..0x38].copy_from_slice(&real_size.to_le_bytes());
    a[0x40..0x40 + runs.len()].copy_from_slice(runs);
    a
}

fn name_content(parent: u64, namespace: u8, flags: u32, name: &str) -> Vec<u8> {
    let units: Vec<u16> = name.encode_utf16().collect();
    let mut c = vec![0u8; 0x42 + units.len() * 2];
    c[0..8].copy_from_slice(&((2u64 << 48) | parent).to_le_bytes());
    c[0x38..0x3C].copy_from_slice(&flags.to_le_bytes());
    c[0x40] = units.len() as u8;
    c[0x41] = namespace;
    for (i, u) in units.iter().enumerate() {
        c[0x42 + i * 2..0x44 + i * 2].copy_from_slice(&u.to_le_bytes());
    }
    c
}

fn entry(target: u64, flags: u32, name: &str) -> Vec<u8> {
    let content = name_content(5, filename_namespace::WIN32, flags, name);
    let len = (0x10 + content.len() + 7) & !7;
    let mut e = vec![0u8; len];
    e[0..8].copy_from_slice(&((3u64 << 48) | target).to_le_bytes());
    e[0x08..0x0A].copy_from_slice(&(len as u16).to_le_bytes());
    e[0x0A..0x0C].copy_from_slice(&(content.len() as u16).to_le_bytes());
    e[0x10..0x10 + content.len()].copy_from_slice(&content);
    e
}

fn index_root(entries: &[Vec<u8>]) -> Vec<u8> {
    let mut blob: Vec<u8> = entries.concat();
    let mut last = vec![0u8; 0x10];
    last[0x08] = 0x10;
    last[0x0C] = 0x02;
    blob.extend_from_slice(&last);
    let mut content = vec![0u8; 0x20 + blob.len()];
    content[0x00] = 0x30;
    content[0x10] = 0x10;
    content[0x14..0x18].copy_from_slice(&((0x10 + blob.len()) as u32).to_le_bytes());
    content[0x20..].copy_from_slice(&blob);
    resident(attr_types::INDEX_ROOT, "$I30", &content)
}

fn utf16(text: &str) -> Vec<u8> {
    text.encode_utf16().flat_map(u16::to_le_bytes).collect()
}

/// The allocation bitmap: everything up to the end of the MFT, and then clusters 1 and 2
/// of the rest.
fn bitmap() -> Vec<u8> {
    let mut map = vec![0u8; TOTAL_CLUSTERS.div_ceil(8)];
    for c in 0..TOTAL_CLUSTERS {
        if c < FREE_LCN || c == FREE_LCN + 1 || c == FREE_LCN + 2 {
            map[c / 8] |= 1 << (c % 8);
        }
    }
    map
}

/// A volume with one file of each kind.
fn volume_with(bitmap_bytes: &[u8]) -> Vec<u8> {
    let mut vol = vec![0u8; TOTAL_CLUSTERS * CLUSTER];
    vol[0..512].copy_from_slice(&boot());
    let mft_bytes = (RECORDS * REC) as u64;
    let mft_runs = [0x11, (RECORDS * REC / CLUSTER) as u8, MFT_LCN as u8, 0x00];
    let mut records: Vec<(usize, Vec<u8>)> = Vec::new();
    records.push((0, record(1, 1, 1, &mapped(attr_types::DATA, &mft_runs, mft_bytes, 0, 0))));
    records.push((3, record(1, 3, 1, &resident(attr_types::VOLUME_NAME, "", &utf16("EVIDENCE")))));
    let root = index_root(&[
        entry(7, 0, "notes.txt"),
        entry(8, 0, "link"),
        entry(9, 0x1000_0000, "sub"),
        entry(10, 0, "big.bin"),
        entry(12, 0, "packed"),
    ]);
    records.push((5, record(3, 5, 1, &root)));
    records.push((6, record(1, 6, 1, &resident(attr_types::DATA, "", bitmap_bytes))));
    let mut si = vec![0u8; 0x30];
    si[0x00..0x08].copy_from_slice(&116_444_736_000_000_001u64.to_le_bytes());
    si[0x08..0x10].copy_from_slice(&116_444_736_000_000_002u64.to_le_bytes());
    si[0x10..0x18].copy_from_slice(&116_444_736_000_000_003u64.to_le_bytes());
    si[0x18..0x20].copy_from_slice(&116_444_736_000_000_004u64.to_le_bytes());
    let file = [
        resident(attr_types::STANDARD_INFORMATION, "", &si),
        resident(attr_types::DATA, "", b"hello world"),
        resident(attr_types::DATA, "Zone.Identifier", b"[ZoneTransfer]"),
    ]
    .concat();
    records.push((7, record(1, 3, 2, &file)));
    let mut link = b"IntxLNK\x01".to_vec();
    link.extend_from_slice(&utf16("../n\u{f6}te"));
    records.push((8, record(1, 3, 1, &resident(attr_types::DATA, "", &link))));
    records.push((9, record(3, 3, 1, &index_root(&[]))));
    // One cluster, a hole of two, one cluster: 1600 bytes in all.
    let runs = [0x11, 0x01, (FREE_LCN + 1) as u8, 0x01, 0x02, 0x11, 0x01, 0x01, 0x00];
    records.push((10, record(1, 3, 1, &mapped(attr_types::DATA, &runs, 1600, 0, 0))));
    let gone = [
        resident(
            attr_types::FILE_NAME,
            "",
            &name_content(5, filename_namespace::DOS, 0, "SECRET~1.TXT"),
        ),
        resident(
            attr_types::FILE_NAME,
            "",
            &name_content(5, filename_namespace::WIN32, 0, "secret plan.txt"),
        ),
        resident(attr_types::DATA, "", b"gone"),
    ]
    .concat();
    records.push((11, record(0, 9, 1, &gone)));
    // A compression unit of four clusters: one is stored, three are not.
    let packed = [0x11, 0x01, (FREE_LCN + 3) as u8, 0x01, 0x03, 0x00];
    records.push((12, record(1, 3, 1, &mapped(attr_types::DATA, &packed, 6, 1, 2))));
    let orphan = resident(
        attr_types::FILE_NAME,
        "",
        &name_content(0, filename_namespace::POSIX, 0, "orphan"),
    );
    records.push((13, record(0, 4, 1, &orphan)));
    for (n, rec) in records {
        let at = MFT_LCN * CLUSTER + n * REC;
        vol[at..at + REC].copy_from_slice(&rec);
    }
    for b in &mut vol[(FREE_LCN + 1) * CLUSTER..(FREE_LCN + 2) * CLUSTER] {
        *b = 0x11;
    }
    for b in &mut vol[(FREE_LCN + 2) * CLUSTER..(FREE_LCN + 3) * CLUSTER] {
        *b = 0x22;
    }
    // "abc", and a reference three bytes back of length three.
    let stream = [0x05, 0xB0, 0x08, b'a', b'b', b'c', 0x00, 0x20];
    let at = (FREE_LCN + 3) * CLUSTER;
    vol[at..at + stream.len()].copy_from_slice(&stream);
    vol
}

fn open() -> NtfsFs<MemorySource> {
    NtfsFs::open(MemorySource::new(volume_with(&bitmap()))).unwrap()
}

#[test]
fn root_carries_its_sequence_number() {
    assert_eq!(
        open().root(),
        FileReference {
            record_number: 5,
            sequence: 5
        }
    );
}

#[test]
fn sector_sizes_come_from_the_boot_sector() {
    assert_eq!(
        open().sector_sizes(),
        SectorSizes {
            logical: 512,
            physical: 512,
            cluster_or_block: 512
        }
    );
}

#[test]
fn volume_label_is_read() {
    assert_eq!(open().volume_label().as_deref(), Some("EVIDENCE"));
}

#[test]
fn directory_lists_names_references_and_kinds() {
    let list = open().read_dir(5).unwrap();
    let seen: Vec<(String, u64, NodeKind)> = list
        .into_iter()
        .map(|e| (e.name, e.id.record_number, e.kind))
        .collect();
    assert_eq!(
        seen,
        vec![
            ("notes.txt".to_string(), 7, NodeKind::File),
            ("link".to_string(), 8, NodeKind::Symlink),
            ("sub".to_string(), 9, NodeKind::Dir),
            ("big.bin".to_string(), 10, NodeKind::File),
            ("packed".to_string(), 12, NodeKind::File),
        ]
    );
    assert!(open().read_dir(9).unwrap().is_empty());
    assert_eq!(
        open().read_dir(7),
        Err(NtfsError::NotADirectory("record has no $INDEX_ROOT".to_string()))
    );
}

#[test]
fn lookup_finds_exact_names_only() {
    let mut fs = open();
    assert_eq!(
        fs.lookup(5, b"big.bin").unwrap(),
        Some(FileReference {
            record_number: 10,
            sequence: 3
        })
    );
    assert_eq!(fs.lookup(5, b"BIG.BIN").unwrap(), None);
    assert_eq!(fs.lookup(5, b"big").unwrap(), None);
}

#[test]
fn paths_resolve_in_any_case_and_with_either_separator() {
    let mut fs = open();
    assert_eq!(fs.resolve_path("\\NOTES.TXT").unwrap(), 7);
    assert_eq!(fs.resolve_path("/notes.txt").unwrap(), 7);
    assert_eq!(fs.resolve_path("//\\").unwrap(), 5);
    assert_eq!(fs.read_file("notes.txt").unwrap(), b"hello world");
}

#[test]
fn meta_describes_the_unnamed_stream() {
    let mut fs = open();
    let meta = fs.meta(7).unwrap();
    assert_eq!(meta.ino, 7);
    assert_eq!(meta.kind, NodeKind::File);
    assert_eq!(meta.allocated, Allocation::Allocated);
    assert_eq!(meta.size, 11);
    assert_eq!(meta.nlink, 2);
    assert_eq!(meta.residency, ResidencyKind::Resident { inline_len: 11 });
    assert_eq!(meta.times.born, Some(100));
    assert_eq!(meta.times.modified, Some(200));
    assert_eq!(meta.times.changed, Some(300));
    assert_eq!(meta.times.accessed, Some(400));
    let big = fs.meta(10).unwrap();
    assert_eq!(big.size, 1600);
    assert_eq!(big.residency, ResidencyKind::NonResident);
    assert_eq!(big.times.born, None);
    assert_eq!(fs.meta(5).unwrap().kind, NodeKind::Dir);
    assert_eq!(fs.meta(8).unwrap().kind, NodeKind::Symlink);
    assert_eq!(fs.meta(11).unwrap().allocated, Allocation::Deleted);
}

#[test]
fn windows_show_the_bytes_of_the_whole() {
    let mut fs = open();
    let whole = fs.read_data_by_record(10, &None, u64::MAX).unwrap();
    assert_eq!(whole.len(), 1600);
    assert!(whole[..512].iter().all(|&b| b == 0x11));
    assert!(whole[512..1536].iter().all(|&b| b == 0));
    assert!(whole[1536..].iter().all(|&b| b == 0x22));
    for (off, len) in [(0usize, 10usize), (500, 30), (1500, 200), (1599, 1), (1600, 5), (9999, 5)] {
        let mut buf = vec![0xEEu8; len];
        let n = fs.read_at(10, &None, off as u64, &mut buf).unwrap();
        let end = whole.len().min(off + len);
        let expected: &[u8] = if off < end { &whole[off..end] } else { &[] };
        assert_eq!(&buf[..n], expected);
        assert!(buf[n..].iter().all(|&b| b == 0xEE));
    }
    assert_eq!(fs.read_data_by_record(10, &None, 600).unwrap(), whole[..600]);
    let mut buf = [0u8; 4];
    let ads = Some("Zone.Identifier".to_string());
    assert_eq!(fs.read_at(7, &ads, 1, &mut buf).unwrap(), 4);
    assert_eq!(&buf, b"Zone");
}

#[test]
fn compressed_stream_is_expanded() {
    let mut fs = open();
    assert_eq!(fs.read_file("/packed").unwrap(), b"abcabc");
    let mut buf = [0u8; 3];
    assert_eq!(fs.read_at(12, &None, 2, &mut buf).unwrap(), 3);
    assert_eq!(&buf, b"cab");
}

#[test]
fn malformed_compressed_stream_is_an_error() {
    let mut vol = volume_with(&bitmap());
    // A reference with nothing before it.
    let at = (FREE_LCN + 3) * CLUSTER;
    vol[at..at + 5].copy_from_slice(&[0x02, 0xB0, 0x01, 0x00, 0x20]);
    let mut fs = NtfsFs::open(MemorySource::new(vol)).unwrap();
    assert_eq!(
        fs.read_file("/packed"),
        Err(NtfsError::BadCompression("malformed LZNT1 stream"))
    );
}

#[test]
fn extents_mark_holes() {
    let list = open().extents(10, &None).unwrap();
    let first = (FREE_LCN + 1) * CLUSTER;
    assert_eq!(
        list,
        vec![
            Extent {
                image_offset: first as u64,
                len: 512,
                sparse: false,
                allocated: true
            },
            Extent {
                image_offset: 0,
                len: 1024,
                sparse: true,
                allocated: true
            },
            Extent {
                image_offset: (first + CLUSTER) as u64,
                len: 512,
                sparse: false,
                allocated: true
            },
        ]
    );
    assert_eq!(
        open().runs_by_record(10, &None).unwrap()[1],
        Run {
            length: 2,
            lcn: None
        }
    );
    assert!(open().extents(7, &None).is_err());
}

#[test]
fn link_target_is_cut_to_the_cap() {
    let mut fs = open();
    assert_eq!(fs.read_link(8, 100).unwrap(), "../n\u{f6}te".as_bytes());
    assert_eq!(fs.read_link(8, 4).unwrap(), b"../n");
    assert!(fs.read_link(7, 100).unwrap().is_empty());
}

#[test]
fn deleted_files_are_recovered_by_their_best_name() {
    let mut fs = open();
    assert_eq!(fs.mft_record_count().unwrap(), RECORDS as u64);
    let list = fs.deleted_nodes().unwrap();
    assert_eq!(list.len(), 2);
    assert_eq!(list[0].name, "secret plan.txt");
    assert_eq!(
        list[0].id,
        FileReference {
            record_number: 11,
            sequence: 9
        }
    );
    assert_eq!(
        list[0].parent,
        Some(FileReference {
            record_number: 5,
            sequence: 2
        })
    );
    assert_eq!(list[0].meta.size, 4);
    assert_eq!(list[1].name, "orphan");
    assert_eq!(list[1].parent, None);
}

#[test]
fn free_space_is_what_the_bitmap_leaves() {
    let list = open().unallocated().unwrap();
    let free = |start: usize, clusters: usize| Extent {
        image_offset: (start * CLUSTER) as u64,
        len: (clusters * CLUSTER) as u64,
        sparse: false,
        allocated: false,
    };
    assert_eq!(list, vec![free(FREE_LCN, 1), free(FREE_LCN + 3, 5)]);
}

#[test]
fn short_bitmap_is_refused() {
    let map = bitmap();
    let short = &map[..map.len() - 1];
    let mut fs = NtfsFs::open(MemorySource::new(volume_with(short))).unwrap();
    let refused = fs.unallocated().unwrap_err();
    assert_eq!(
        refused,
        SpaceError::ShortBitmap {
            got: map.len() - 1,
            total_clusters: TOTAL_CLUSTERS as u64,
            needed: map.len() as u64
        }
    );
    assert_eq!(refused.message(), "$Bitmap is 4 bytes but 40 clusters need 5");
}

#[test]
fn missing_streams_are_named() {
    let mut fs = open();
    assert!(matches!(
        fs.read_named_stream("/notes.txt", "nope"),
        Err(NtfsError::NotFound(_))
    ));
    assert!(matches!(
        fs.read_data_by_record(9, &None, 10),
        Err(NtfsError::NotFound(_))
    ));
}

fn worn_out() -> NtfsError {
    NtfsError::Io(IoFault::Other("worn out".to_string()))
}

/// A source that fails once its reads are used up.
struct Worn {
    inner: MemorySource,
    reads: usize,
}

impl ByteSource for Worn {
    fn read_at(&mut self, offset: u64, len: usize) -> Result<Vec<u8>, NtfsError> {
        if self.reads == 0 {
            return Err(worn_out());
        }
        self.reads -= 1;
        self.inner.read_at(offset, len)
    }

    fn size(&mut self) -> Result<u64, NtfsError> {
        self.inner.size()
    }
}

#[test]
fn a_failing_source_degrades_or_is_reported() {
    // Two reads suffice to mount.
    let mut fs = NtfsFs::open(Worn {
        inner: MemorySource::new(volume_with(&bitmap())),
        reads: 2,
    })
    .unwrap();
    assert_eq!(fs.root().sequence, 0);
    assert_eq!(fs.volume_label(), None);
    assert_eq!(fs.read_dir(5), Err(worn_out()));
    assert_eq!(fs.meta(7), Err(worn_out()));
    assert_eq!(fs.meta(7).unwrap_err().message(), "I/O error: worn out");
    // Where nothing needs to be read, nothing fails.
    assert_eq!(fs.resolve_path("/\\/").unwrap(), 5);
    let plain = record(1, 1, 1, &resident(attr_types::DATA, "", b"x"));
    assert_eq!(
        fs.directory_entries(&plain).unwrap_err(),
        NtfsError::NotADirectory("record has no $INDEX_ROOT".to_string())
    );
    let small = record(3, 1, 1, &index_root(&[entry(7, 0, "a")]));
    assert_eq!(fs.directory_entries(&small).unwrap().len(), 1);
    assert_eq!(
        fs.meta(u64::MAX),
        Err(NtfsError::BadRunlist("record offset overflow"))
    );
}

/// One `$ATTRIBUTE_LIST` entry of the unnamed `$DATA`.
fn list_entry(target: u64, id: u16, start_vcn: u64) -> Vec<u8> {
    let mut e = vec![0u8; 0x20];
    e[0x00..0x04].copy_from_slice(&attr_types::DATA.to_le_bytes());
    e[0x04..0x06].copy_from_slice(&0x20u16.to_le_bytes());
    e[0x07] = 0x1A;
    e[0x08..0x10].copy_from_slice(&start_vcn.to_le_bytes());
    e[0x10..0x18].copy_from_slice(&((3u64 << 48) | target).to_le_bytes());
    e[0x18..0x1A].copy_from_slice(&id.to_le_bytes());
    e
}

/// The volume with record 7 made of these attributes, and record 9 of those.
fn open_with(seventh: &[Vec<u8>], ninth: &[Vec<u8>]) -> NtfsFs<MemorySource> {
    let mut vol = volume_with(&bitmap());
    for (n, attrs) in [(7, seventh), (9, ninth)] {
        let at = MFT_LCN * CLUSTER + n * REC;
        vol[at..at + REC].copy_from_slice(&record(1, 3, 1, &attrs.concat()));
    }
    NtfsFs::open(MemorySource::new(vol)).unwrap()
}

#[test]
fn own_data_is_read_where_the_list_is_broken_or_not_needed() {
    let data = resident(attr_types::DATA, "", b"own");
    let lists = [
        // Cannot be parsed.
        resident(attr_types::ATTRIBUTE_LIST, "", &[0xFF; 0x20]),
        // Cannot be read: mapped past the end of the volume.
        mapped(attr_types::ATTRIBUTE_LIST, &[0x11, 0x01, 0x7F, 0x00], 32, 0, 0),
        // Names an attribute that is not there.
        resident(attr_types::ATTRIBUTE_LIST, "", &list_entry(9, 77, 0)),
        // Names one elsewhere, though the record has it all.
        resident(attr_types::ATTRIBUTE_LIST, "", &list_entry(9, 0, 0)),
    ];
    for list in lists {
        let mut fs = open_with(
            &[list, data.clone()],
            &[resident(attr_types::DATA, "", b"other")],
        );
        assert_eq!(fs.read_file("/notes.txt").unwrap(), b"own");
    }
    // The same with a mapped stream that is not all there.
    let part = mapped(
        attr_types::DATA,
        &[0x11, 0x01, (FREE_LCN + 1) as u8, 0x00],
        1024,
        0,
        0,
    );
    let list = resident(attr_types::ATTRIBUTE_LIST, "", &list_entry(9, 77, 0));
    let mut fs = open_with(&[list, part], &[]);
    assert_eq!(fs.read_file("/notes.txt").unwrap(), vec![0x11u8; 512]);
}

#[test]
fn split_data_is_put_together() {
    let first = mapped(
        attr_types::DATA,
        &[0x11, 0x01, (FREE_LCN + 1) as u8, 0x00],
        1024,
        0,
        0,
    );
    let mut second = mapped(
        attr_types::DATA,
        &[0x11, 0x01, (FREE_LCN + 2) as u8, 0x00],
        0,
        0,
        0,
    );
    second[0x10] = 1; // begins with the second cluster of the stream
    let list = [list_entry(7, 0, 0), list_entry(9, 0, 1)].concat();
    let mut fs = open_with(
        &[resident(attr_types::ATTRIBUTE_LIST, "", &list), first],
        &[second],
    );
    let whole = fs.read_file("/notes.txt").unwrap();
    assert_eq!(whole[..512], vec![0x11u8; 512]);
    assert_eq!(whole[512..], vec![0x22u8; 512]);
    assert_eq!(fs.extents(7, &None).unwrap().len(), 2);
}

#[test]
fn a_broken_list_without_own_data_is_an_error() {
    let list = resident(attr_types::ATTRIBUTE_LIST, "", &list_entry(9, 77, 0));
    let mut fs = open_with(&[list], &[]);
    assert_eq!(
        fs.read_file("/notes.txt"),
        Err(NtfsError::BadAttributeList("listed attribute not found"))
    );
}
