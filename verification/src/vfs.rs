//! A mounted volume as a tree of nodes.
//!
//! Nodes are addressed by MFT record number. Listings and recoveries carry the full file
//! reference (record and sequence number). A node that cannot be classified reads as an
//! ordinary file; a record that cannot be read is skipped where a whole table is walked.

use vstd::prelude::*;
use crate::attribute;
use crate::bitmap;
use crate::bitmap::Extent;
use crate::boot;
use crate::boot::BootSector;
use crate::bytes;
use crate::error;
use crate::error::NtfsError;
use crate::file_name::{FileNameView, FileReference};
use crate::fs;
use crate::fs::{FsErrorView, NtfsFs, Volume};
use crate::index::{IndexEntry, IndexEntryView};
use crate::layout;
use crate::node;
use crate::node::{Allocation, NodeMeta};
use crate::record;
use crate::record::MftRecordHeader;
use crate::reparse;
use crate::reparse::NodeKind;
use crate::runlist::Run;
use crate::source;
use crate::source::ByteSource;
use crate::text;
use crate::walk;

verus! {

/// `$FILE_NAME` flag bit marking a directory. It is *not* the DOS `0x10` directory bit.
pub const FN_FLAG_DIRECTORY: u32 = 0x1000_0000;

/// Sizes of the units that the volume is divided into, in bytes.
#[derive(Debug, Clone, Copy, PartialEq, Eq, Structural)]
pub struct SectorSizes {
    /// Logical sector.
    pub logical: u32,
    /// Physical sector.
    pub physical: u32,
    /// Cluster.
    pub cluster_or_block: u32,
}

/// One entry of a directory.
#[derive(Debug, Clone, PartialEq, Eq)]
pub struct DirEntry {
    /// The name.
    pub name: String,
    /// The file that the entry leads to.
    pub id: FileReference,
    /// What the file is.
    pub kind: NodeKind,
}

/// The mathematical content of a [`DirEntry`].
#[verifier::ext_equal]
pub struct DirEntryView {
    pub name: Seq<char>,
    pub id: FileReference,
    pub kind: NodeKind,
}

impl View for DirEntry {
    type V = DirEntryView;

    open spec fn view(&self) -> DirEntryView {
        DirEntryView { name: self.name@, id: self.id, kind: self.kind }
    }
}

/// A deleted file whose name is still there.
#[derive(Debug, Clone, PartialEq, Eq)]
pub struct DeletedNode {
    /// The record that the file was in.
    pub id: FileReference,
    /// The recovered name.
    pub name: String,
    /// The directory that it was in, or `None` for an orphan.
    pub parent: Option<FileReference>,
    /// The metadata that is left.
    pub meta: NodeMeta,
}

/// The mathematical content of a [`DeletedNode`].
#[verifier::ext_equal]
pub struct DeletedView {
    pub id: FileReference,
    pub name: Seq<char>,
    pub parent: Option<FileReference>,
    pub meta: NodeMeta,
}

impl View for DeletedNode {
    type V = DeletedView;

    open spec fn view(&self) -> DeletedView {
        DeletedView { id: self.id, name: self.name@, parent: self.parent, meta: self.meta }
    }
}

/// Why free space could not be enumerated.
#[derive(Debug, Clone, PartialEq, Eq)]
pub enum SpaceError {
    /// The `$Bitmap` could not be read.
    Ntfs(NtfsError),
    /// The `$Bitmap` does not describe every cluster.
    ShortBitmap {
        /// Bytes in the `$Bitmap`.
        got: usize,
        /// Clusters on the volume.
        total_clusters: u64,
        /// Bytes that so many clusters need.
        needed: u64,
    },
}

/// The mathematical content of a [`SpaceError`].
pub enum SpaceErrorView {
    Ntfs(FsErrorView),
    ShortBitmap { got: usize, total_clusters: u64, needed: u64 },
}

impl View for SpaceError {
    type V = SpaceErrorView;

    open spec fn view(&self) -> SpaceErrorView {
        match *self {
            SpaceError::Ntfs(e) => SpaceErrorView::Ntfs(fs::error_view(e)),
            SpaceError::ShortBitmap { got, total_clusters, needed } => SpaceErrorView::ShortBitmap {
                got,
                total_clusters,
                needed,
            },
        }
    }
}

/// What an error about free space says.
pub open spec fn space_text(e: SpaceError) -> Seq<char> {
    match e {
        SpaceError::Ntfs(cause) => error::error_text(cause),
        SpaceError::ShortBitmap { got, total_clusters, needed } => "$Bitmap is "@ + text::decimal(
            got as nat,
        ) + " bytes but "@ + text::decimal(total_clusters as nat) + " clusters need "@
            + text::decimal(needed as nat),
    }
}

impl SpaceError {
    /// What the error says, for a reader.
    #[must_use]
    pub fn message(&self) -> (r: String)
        ensures
            r@ == space_text(*self),
    {
        match self {
            SpaceError::Ntfs(cause) => cause.message(),
            SpaceError::ShortBitmap { got, total_clusters, needed } => {
                let mut r = "$Bitmap is ".to_string();
                r.append(text::decimal_text(*got as u64).as_str());
                r.append(" bytes but ");
                r.append(text::decimal_text(*total_clusters).as_str());
                r.append(" clusters need ");
                r.append(text::decimal_text(*needed).as_str());
                r
            },
        }
    }
}

/// Selects the entries with a name whose UTF-8 bytes are given.
pub open spec fn called(name: Seq<u8>) -> spec_fn(IndexEntryView) -> bool {
    |e: IndexEntryView|
        match e.file_name {
            Some(f) => vstd::utf8::encode_utf8(f.name) == name,
            None => false,
        }
}

/// The first `cap` bytes of `all`.
pub open spec fn cut(all: Seq<u8>, cap: int) -> Seq<u8> {
    if all.len() <= cap {
        all
    } else {
        all.take(cap)
    }
}

/// The bytes of a run.
pub open spec fn run_extent(run: Run, cluster_size: u64) -> Extent {
    Extent {
        image_offset: match run.lcn {
            Some(lcn) => boot::saturating_product(lcn, cluster_size),
            None => 0,
        },
        len: boot::saturating_product(run.length, cluster_size),
        sparse: run.lcn is None,
        allocated: true,
    }
}

impl Volume {
    /// The sequence number of record `n`, 0 when it cannot be read.
    pub open spec fn sequence_of(self, n: int) -> u16 {
        match self.record(n) {
            Ok(rec) => match record::parsed_header(rec) {
                Ok(header) => header.sequence_number,
                Err(_) => 0,
            },
            Err(_) => 0,
        }
    }

    /// The label in the `$Volume` record, when it is not empty.
    pub open spec fn label(self) -> Option<Seq<char>> {
        match self.record(layout::VOLUME_RECORD as int) {
            Ok(rec) => match fs::attributes_of(rec) {
                Ok(attrs) => match fs::first_content(rec, attrs, layout::VOLUME_NAME) {
                    Some(content) => if text::utf16le_text(content).len() == 0 {
                        None
                    } else {
                        Some(text::utf16le_text(content))
                    },
                    None => None,
                },
                Err(_) => None,
            },
            Err(_) => None,
        }
    }

    /// The POSIX node type that record `n` states.
    pub open spec fn stated_kind(self, n: int) -> Option<NodeKind> {
        match self.record(n) {
            Ok(rec) => match fs::attributes_of(rec) {
                Ok(attrs) => reparse::stated_kind(rec, attrs),
                Err(_) => None,
            },
            Err(_) => None,
        }
    }

    /// The kind of the file that a name leads to.
    pub open spec fn entry_kind(self, flags: u32, n: int) -> NodeKind {
        if flags & FN_FLAG_DIRECTORY != 0 {
            NodeKind::Dir
        } else {
            match self.stated_kind(n) {
                Some(kind) => kind,
                None => NodeKind::File,
            }
        }
    }

    /// The directory entries of the first `n` index entries.
    pub open spec fn dir_entries(self, entries: Seq<IndexEntryView>, n: int) -> Seq<DirEntryView>
        decreases n,
    {
        if n <= 0 {
            Seq::empty()
        } else {
            let e = entries[n - 1];
            match e.file_name {
                Some(f) => self.dir_entries(entries, n - 1).push(
                    DirEntryView {
                        name: f.name,
                        id: e.file_reference,
                        kind: self.entry_kind(f.flags, e.file_reference.record_number as int),
                    },
                ),
                None => self.dir_entries(entries, n - 1),
            }
        }
    }

    /// The index entries of directory record `n`.
    pub open spec fn listing_of(self, n: int) -> Result<Seq<IndexEntryView>, FsErrorView> {
        match self.record(n) {
            Err(e) => Err(fs::error_view(e)),
            Ok(rec) => self.listing(rec),
        }
    }

    /// The entries of directory record `n`.
    pub open spec fn directory(self, n: int) -> Result<Seq<DirEntryView>, FsErrorView> {
        match self.listing_of(n) {
            Err(e) => Err(e),
            Ok(entries) => Ok(self.dir_entries(entries, entries.len() as int)),
        }
    }

    /// The file that a name leads to in directory record `n`.
    pub open spec fn looked_up(self, n: int, name: Seq<u8>) -> Result<
        Option<FileReference>,
        FsErrorView,
    > {
        match self.listing_of(n) {
            Err(e) => Err(e),
            Ok(entries) => match walk::first(entries, called(name)) {
                Some(e) => Ok(Some(e.file_reference)),
                None => Ok(None),
            },
        }
    }

    /// The metadata of record `n`.
    pub open spec fn meta(self, n: u64) -> Result<NodeMeta, NtfsError> {
        match self.record(n as int) {
            Err(e) => Err(e),
            Ok(rec) => node::node_meta(n, rec),
        }
    }

    /// The bytes that a window of `len` bytes at `off` of a stream holds.
    pub open spec fn window(self, n: int, stream: Option<Seq<char>>, off: u64, len: int) -> Result<
        Seq<u8>,
        FsErrorView,
    > {
        let cap = if off + len > u64::MAX {
            u64::MAX as int
        } else {
            off + len
        };
        match self.stream(n, stream, cap, ""@) {
            Err(e) => Err(e),
            Ok(content) => Ok(source::clipped(content, off as int, len)),
        }
    }

    /// The first `cap` bytes of the target of link record `n`, in UTF-8: nothing when the
    /// record is no link.
    pub open spec fn link(self, n: int, cap: int) -> Result<Seq<u8>, NtfsError> {
        match self.record(n) {
            Err(e) => Err(e),
            Ok(rec) => match fs::attributes_of(rec) {
                Err(e) => Err(e),
                Ok(attrs) => match reparse::link_target(rec, attrs) {
                    Some(target) => Ok(cut(vstd::utf8::encode_utf8(target), cap)),
                    None => Ok(Seq::empty()),
                },
            },
        }
    }

    /// The extents of a stream of record `n`.
    pub open spec fn stream_extents(self, n: int, stream: Option<Seq<char>>) -> Result<
        Seq<Extent>,
        FsErrorView,
    > {
        match self.stream_runs(n, stream) {
            Err(e) => Err(e),
            Ok(runs) => Ok(
                runs.map_values(|run: Run| run_extent(run, self.boot.cluster_bytes())),
            ),
        }
    }

    /// How many records the `$MFT` holds.
    pub open spec fn record_count(self) -> Result<u64, NtfsError> {
        match self.meta(layout::MFT_RECORD) {
            Err(e) => Err(e),
            Ok(meta) => if self.boot.mft_record_size == 0 {
                Ok(0)
            } else {
                Ok((meta.size as int / self.boot.mft_record_size as int) as u64)
            },
        }
    }

    /// What can be recovered from record `n`: something only if the record is not in use
    /// and still has a name.
    pub open spec fn recovered(self, n: u64) -> Option<DeletedView> {
        match self.record(n as int) {
            Err(_) => None,
            Ok(rec) => recovered_from(n, rec),
        }
    }

    /// What can be recovered from the records before `n`, in order.
    pub open spec fn recovered_before(self, n: int) -> Seq<DeletedView>
        decreases n,
    {
        if n <= 0 {
            Seq::empty()
        } else {
            match self.recovered((n - 1) as u64) {
                Some(found) => self.recovered_before(n - 1).push(found),
                None => self.recovered_before(n - 1),
            }
        }
    }

    /// Whether everything in `list` was recovered from a record before `n`, in record
    /// order.
    pub open spec fn are_recovered(self, list: Seq<DeletedView>, n: int) -> bool {
        &&& forall|k: int|
            0 <= k < list.len() ==> (#[trigger] list[k]).id.record_number < n && self.recovered(
                list[k].id.record_number,
            ) == Some(list[k])
        &&& forall|j: int, k: int|
            0 <= j < k < list.len() ==> (#[trigger] list[j]).id.record_number < (
            #[trigger] list[k]).id.record_number
    }

    /// The free space of the volume.
    pub open spec fn free_space(self) -> Result<Seq<Extent>, SpaceErrorView> {
        match self.stream(layout::BITMAP_RECORD as int, None, u64::MAX as int, ""@) {
            Err(e) => Err(SpaceErrorView::Ntfs(e)),
            Ok(map) => free_space_in(self.boot, map),
        }
    }
}

/// How many clusters a volume has.
pub open spec fn total_clusters(geometry: BootSector) -> u64 {
    if geometry.sectors_per_cluster == 0 {
        0
    } else {
        (geometry.total_sectors as int / geometry.sectors_per_cluster as int) as u64
    }
}

/// How many bytes a bitmap of so many clusters takes up.
pub open spec fn bitmap_len(clusters: u64) -> u64 {
    ((clusters + 7) / 8) as u64
}

/// The free space that a bitmap shows, when it describes every cluster.
pub open spec fn free_space_in(geometry: BootSector, map: Seq<u8>) -> Result<
    Seq<Extent>,
    SpaceErrorView,
> {
    let clusters = total_clusters(geometry);
    if map.len() < bitmap_len(clusters) {
        Err(
            SpaceErrorView::ShortBitmap {
                got: map.len() as usize,
                total_clusters: clusters,
                needed: bitmap_len(clusters),
            },
        )
    } else {
        Ok(bitmap::free_extents(map, geometry.cluster_bytes(), clusters as int, 0))
    }
}

/// What can be recovered from the bytes of record `n`. A parent of record number 0 is no
/// directory, and makes the file an orphan.
pub open spec fn recovered_from(n: u64, rec: Seq<u8>) -> Option<DeletedView> {
    match record::parsed_header(rec) {
        Err(_) => None,
        Ok(header) => if header.in_use() {
            None
        } else {
            match node::best_of(node::record_names(rec)) {
                None => None,
                Some(name) => match node::node_meta(n, rec) {
                    Err(_) => None,
                    Ok(meta) => Some(
                        DeletedView {
                            id: FileReference {
                                record_number: n,
                                sequence: header.sequence_number,
                            },
                            name: name.name,
                            parent: if name.parent.record_number == 0 {
                                None
                            } else {
                                Some(name.parent)
                            },
                            meta,
                        },
                    ),
                },
            }
        },
    }
}

/// Whether `got` is the expected directory entry. Where the source may fail on its own,
/// the kind may have degraded to an ordinary file, but for a directory, which is known by
/// its name entry alone.
pub open spec fn same_entry(got: DirEntryView, expected: DirEntryView, flaky: bool) -> bool {
    ||| got == expected
    ||| flaky && got.name == expected.name && got.id == expected.id && got.kind is File && !(
    expected.kind is Dir)
}

/// Whether `got` is the expected list of directory entries.
pub open spec fn same_entries(
    got: Seq<DirEntryView>,
    expected: Seq<DirEntryView>,
    flaky: bool,
) -> bool {
    &&& got.len() == expected.len()
    &&& forall|k: int| 0 <= k < got.len() ==> same_entry(#[trigger] got[k], expected[k], flaky)
}

/// Recovers what is left of a deleted file from the bytes of record `entry`.
pub fn recover_record(entry: u64, rec: &[u8]) -> (r: Option<DeletedNode>)
    ensures
        match r {
            Some(found) => recovered_from(entry, rec@) == Some(found@),
            None => recovered_from(entry, rec@) is None,
        },
{
    let header = match MftRecordHeader::parse(rec) {
        Ok(header) => header,
        Err(_) => {
            return None;
        },
    };
    if header.is_in_use() {
        return None;
    }
    let best = match node::best_file_name(rec) {
        Some(name) => name,
        None => {
            return None;
        },
    };
    let meta = match node::build_meta(entry, rec) {
        Ok(meta) => meta,
        Err(_) => {
            return None;
        },
    };
    let parent = if best.parent.record_number == 0 {
        None
    } else {
        Some(best.parent)
    };
    let id = FileReference { record_number: entry, sequence: header.sequence_number };
    Some(DeletedNode { id, name: best.name, parent, meta })
}

/// The free space that a volume's bitmap shows.
///
/// # Errors
///
/// [`SpaceError::ShortBitmap`] when the bitmap is too short to describe every cluster:
/// the missing bytes would otherwise pass for allocated clusters.
pub fn free_extents(geometry: &BootSector, map: &[u8]) -> (r: Result<Vec<Extent>, SpaceError>)
    ensures
        match r {
            Ok(list) => free_space_in(*geometry, map@) == Ok::<Seq<Extent>, SpaceErrorView>(list@),
            Err(e) => free_space_in(*geometry, map@) == Err::<Seq<Extent>, SpaceErrorView>(e@),
        },
{
    let per_cluster: u64 = geometry.sectors_per_cluster as u64;
    let clusters: u64 = if per_cluster == 0 {
        0
    } else {
        geometry.total_sectors / per_cluster
    };
    assert(clusters == total_clusters(*geometry));
    let whole: u64 = clusters / 8;
    let needed: u64 = if clusters % 8 == 0 {
        whole
    } else {
        whole + 1
    };
    if (map.len() as u64) < needed {
        return Err(
            SpaceError::ShortBitmap { got: map.len(), total_clusters: clusters, needed },
        );
    }
    Ok(bitmap::unallocated_runs(map, geometry.cluster_size(), clusters, 0))
}

/// Puts into `buf` what `content` holds from `off` on, and returns how many bytes that
/// were.
fn place_window(content: &[u8], off: u64, buf: &mut [u8]) -> (r: usize)
    ensures
        r == source::clipped(content@, off as int, old(buf)@.len() as int).len(),
        final(buf)@ == source::clipped(content@, off as int, old(buf)@.len() as int) + old(
            buf,
        )@.skip(r as int),
{
    let room: usize = buf.len();
    let total: usize = content.len();
    let ghost piece = source::clipped(content@, off as int, room as int);
    if off >= total as u64 {
        assert(piece =~= Seq::empty());
        assert(buf@ =~= piece + buf@.skip(0));
        return 0;
    }
    let start: usize = off as usize;
    let n: usize = if room < total - start {
        room
    } else {
        total - start
    };
    bytes::copy_to_front(buf, content, start, n);
    assert(content@.subrange(start as int, start + n) =~= piece);
    n
}

/// The first entry whose name has the given UTF-8 bytes.
fn find_called(entries: &Vec<IndexEntry>, name: &[u8]) -> (r: Option<FileReference>)
    ensures
        match r {
            Some(id) => walk::first(walk::models(entries@), called(name@)) matches Some(e)
                && e.file_reference == id,
            None => walk::first(walk::models(entries@), called(name@)) is None,
        },
{
    let ghost list = walk::models(entries@);
    let ghost wanted = called(name@);
    let mut i: usize = 0;
    while i < entries.len()
        invariant
            i <= entries.len(),
            list == walk::models(entries@),
            wanted == called(name@),
            forall|j: int| 0 <= j < i ==> !wanted(#[trigger] list[j]),
        decreases entries.len() - i,
    {
        assert(list[i as int] == entries@[i as int]@);
        let fits = match &entries[i].file_name {
            Some(f) => bytes::same(f.name.as_str().as_bytes(), name),
            None => false,
        };
        if fits {
            proof {
                walk::lemma_first_skip(list, wanted, i as int);
            }
            return Some(entries[i].file_reference);
        }
        i += 1;
    }
    proof {
        walk::lemma_first_skip(list, wanted, i as int);
    }
    None
}

/// Maps runs to extents.
fn extents_of(runs: &Vec<Run>, cluster_size: u64) -> (r: Vec<Extent>)
    ensures
        r@ == runs@.map_values(|run: Run| run_extent(run, cluster_size)),
{
    let mut out: Vec<Extent> = Vec::new();
    let mut i: usize = 0;
    let ghost all = runs@.map_values(|run: Run| run_extent(run, cluster_size));
    while i < runs.len()
        invariant
            i <= runs.len(),
            all == runs@.map_values(|run: Run| run_extent(run, cluster_size)),
            out@ == all.take(i as int),
        decreases runs.len() - i,
    {
        let run = &runs[i];
        let image_offset: u64 = match run.lcn {
            Some(lcn) => boot::saturating_mul(lcn, cluster_size),
            None => 0,
        };
        out.push(
            Extent {
                image_offset,
                len: boot::saturating_mul(run.length, cluster_size),
                sparse: run.lcn.is_none(),
                allocated: true,
            },
        );
        i += 1;
        assert(out@ =~= all.take(i as int));
    }
    assert(all.take(i as int) =~= all);
    out
}

impl<R: ByteSource> NtfsFs<R> {
    /// The root directory: record 5, with the sequence number that its header gives (0 if
    /// the record cannot be read).
    pub fn root(&mut self) -> (r: FileReference)
        ensures
            final(self)@ == old(self)@,
            final(self).flaky() == old(self).flaky(),
            r.record_number == layout::ROOT_RECORD,
            r.sequence == old(self)@.sequence_of(layout::ROOT_RECORD as int) || (old(self).flaky()
                && old(self)@.record_is_read(layout::ROOT_RECORD as int) && r.sequence == 0),
    {
        let sequence: u16 = match self.read_record(layout::ROOT_RECORD) {
            Ok(rec) => match MftRecordHeader::parse(rec.as_slice()) {
                Ok(header) => header.sequence_number,
                Err(_) => 0,
            },
            Err(_) => 0,
        };
        FileReference { record_number: layout::ROOT_RECORD, sequence }
    }

    /// Sector and cluster sizes.
    #[must_use]
    pub fn sector_sizes(&self) -> (r: SectorSizes)
        ensures
            r.logical == self@.boot.bytes_per_sector,
            r.physical == self@.boot.bytes_per_sector,
            r.cluster_or_block == self@.boot.cluster_bytes(),
    {
        let geometry = self.boot();
        let sector: u32 = geometry.bytes_per_sector as u32;
        let cluster: u64 = geometry.cluster_size();
        proof {
            let a = self@.boot.bytes_per_sector as int;
            let b = self@.boot.sectors_per_cluster as int;
            assert(a * b <= 0xFFFF * 0xFF) by (nonlinear_arith)
                requires
                    0 <= a <= 0xFFFF,
                    0 <= b <= 0xFF,
            ;
        }
        SectorSizes { logical: sector, physical: sector, cluster_or_block: cluster as u32 }
    }

    /// The volume label: the UTF-16LE value of the `$VOLUME_NAME` attribute of the
    /// `$Volume` record. `None` when either is absent or the label is empty.
    pub fn volume_label(&mut self) -> (r: Option<String>)
        ensures
            final(self)@ == old(self)@,
            final(self).flaky() == old(self).flaky(),
            attribute::name_view(r) == old(self)@.label() || (old(self).flaky()
                && old(self)@.record_is_read(layout::VOLUME_RECORD as int) && r is None),
    {
        let rec = match self.read_record(layout::VOLUME_RECORD) {
            Ok(rec) => rec,
            Err(_) => {
                return None;
            },
        };
        let attrs = match fs::record_attributes(rec.as_slice()) {
            Ok(list) => list,
            Err(_) => {
                return None;
            },
        };
        match fs::find_content(rec.as_slice(), &attrs, layout::VOLUME_NAME) {
            Some(content) => {
                let label = text::decode_utf16le(content);
                if label.as_str().unicode_len() == 0 {
                    None
                } else {
                    Some(label)
                }
            },
            None => None,
        }
    }

    /// The POSIX node kind the MFT record at `entry` states, in either encoding a Linux
    /// driver writes. A read or parse miss degrades to `None`.
    pub fn special_kind_of_record(&mut self, entry: u64) -> (r: Option<NodeKind>)
        ensures
            final(self)@ == old(self)@,
            final(self).flaky() == old(self).flaky(),
            r == old(self)@.stated_kind(entry as int) || (old(self).flaky()
                && old(self)@.record_is_read(entry as int) && r is None),
    {
        match self.read_record(entry) {
            Ok(rec) => match fs::record_attributes(rec.as_slice()) {
                Ok(attrs) => reparse::special_kind(rec.as_slice(), &attrs),
                Err(_) => None,
            },
            Err(_) => None,
        }
    }

    /// The index entries of directory record `entry`.
    fn read_listing(&mut self, entry: u64) -> (r: Result<Vec<IndexEntry>, NtfsError>)
        ensures
            final(self)@ == old(self)@,
            final(self).flaky() == old(self).flaky(),
            fs::answered(
                walk::model_list(r),
                old(self)@.listing_of(entry as int),
                old(self).flaky() && old(self)@.is_reached(entry as int),
            ),
    {
        match self.read_record(entry) {
            Ok(rec) => self.directory_entries(rec.as_slice()),
            Err(e) => Err(e),
        }
    }

    /// The kind of the file that a name leads to.
    fn kind_of_entry(&mut self, flags: u32, entry: u64) -> (r: NodeKind)
        ensures
            final(self)@ == old(self)@,
            final(self).flaky() == old(self).flaky(),
            r == old(self)@.entry_kind(flags, entry as int) || (old(self).flaky()
                && !(old(self)@.entry_kind(flags, entry as int) is Dir) && r is File),
    {
        if flags & FN_FLAG_DIRECTORY != 0 {
            NodeKind::Dir
        } else {
            match self.special_kind_of_record(entry) {
                Some(kind) => kind,
                None => NodeKind::File,
            }
        }
    }

    /// Lists the entries of the directory in record `entry`, in index order.
    ///
    /// # Errors
    ///
    /// [`NtfsError::NotADirectory`] if the record has no `$INDEX_ROOT`, plus record and
    /// index errors.
    pub fn read_dir(&mut self, entry: u64) -> (r: Result<Vec<DirEntry>, NtfsError>)
        ensures
            final(self)@ == old(self)@,
            final(self).flaky() == old(self).flaky(),
            match r {
                Ok(list) => old(self)@.directory(entry as int) matches Ok(expected)
                    && same_entries(walk::models(list@), expected, old(self).flaky()),
                Err(e) => old(self)@.directory(entry as int) == Err::<
                    Seq<DirEntryView>,
                    FsErrorView,
                >(fs::error_view(e)) || (old(self).flaky() && old(self)@.is_reached(entry as int)
                    && source::source_failed(e)),
            },
    {
        let entries = match self.read_listing(entry) {
            Ok(entries) => entries,
            Err(e) => {
                return Err(e);
            },
        };
        let ghost volume = self@;
        let ghost flaky = self.flaky();
        let ghost list = walk::models(entries@);
        let mut out: Vec<DirEntry> = Vec::new();
        for e in it: entries
            invariant
                list == walk::models(it.seq()),
                self@ == volume,
                self.flaky() == flaky,
                same_entries(
                    walk::models(out@),
                    volume.dir_entries(list, it.index() as int),
                    flaky,
                ),
        {
            assert(list[it.index() as int] == e@);
            match e.file_name {
                Some(f) => {
                    let kind = self.kind_of_entry(f.flags, e.file_reference.record_number);
                    let found = DirEntry { name: f.name, id: e.file_reference, kind };
                    proof {
                        walk::lemma_models_push(out@, found);
                    }
                    out.push(found);
                },
                None => {},
            }
        }
        Ok(out)
    }

    /// The extents of a `$DATA` stream of record `entry`: the unnamed one when `stream` is
    /// `None`.
    ///
    /// # Errors
    ///
    /// As [`NtfsFs::runs_by_record`].
    pub fn extents(&mut self, entry: u64, stream: &Option<String>) -> (r: Result<
        Vec<Extent>,
        NtfsError,
    >)
        ensures
            final(self)@ == old(self)@,
            final(self).flaky() == old(self).flaky(),
            fs::answered(
                walk::model(r),
                old(self)@.stream_extents(entry as int, attribute::name_view(*stream)),
                old(self).flaky() && old(self)@.is_reached(entry as int),
            ),
    {
        match self.runs_by_record(entry, stream) {
            Ok(runs) => {
                let cluster_size: u64 = self.boot().cluster_size();
                Ok(extents_of(&runs, cluster_size))
            },
            Err(e) => Err(e),
        }
    }

    /// Finds the child of directory record `parent` whose name has exactly the given UTF-8
    /// bytes.
    ///
    /// # Errors
    ///
    /// As [`NtfsFs::read_dir`].
    pub fn lookup(&mut self, parent: u64, name: &[u8]) -> (r: Result<
        Option<FileReference>,
        NtfsError,
    >)
        ensures
            final(self)@ == old(self)@,
            final(self).flaky() == old(self).flaky(),
            fs::answered(
                r,
                old(self)@.looked_up(parent as int, name@),
                old(self).flaky() && old(self)@.is_reached(parent as int),
            ),
    {
        match self.read_listing(parent) {
            Ok(entries) => Ok(find_called(&entries, name)),
            Err(e) => Err(e),
        }
    }

    /// The metadata of record `entry`.
    ///
    /// # Errors
    ///
    /// Record and attribute errors.
    pub fn meta(&mut self, entry: u64) -> (r: Result<NodeMeta, NtfsError>)
        ensures
            final(self)@ == old(self)@,
            final(self).flaky() == old(self).flaky(),
            source::delivered(
                r,
                old(self)@.meta(entry),
                old(self).flaky() && old(self)@.record_is_read(entry as int),
            ),
    {
        match self.read_record(entry) {
            Ok(rec) => node::build_meta(entry, rec.as_slice()),
            Err(e) => Err(e),
        }
    }

    /// Reads into `buf` what a stream of record `entry` holds from `off` on, and returns
    /// how many bytes that were. Only what the window needs is read.
    ///
    /// # Errors
    ///
    /// As [`NtfsFs::read_data_by_record`]; the buffer is then left as it was.
    pub fn read_at(&mut self, entry: u64, stream: &Option<String>, off: u64, buf: &mut [u8]) -> (r:
        Result<usize, NtfsError>)
        ensures
            final(self)@ == old(self)@,
            final(self).flaky() == old(self).flaky(),
            match r {
                Ok(n) => old(self)@.window(
                    entry as int,
                    attribute::name_view(*stream),
                    off,
                    old(buf)@.len() as int,
                ) matches Ok(content) && n == content.len() && final(buf)@ == content + old(
                    buf,
                )@.skip(n as int),
                Err(e) => final(buf)@ == old(buf)@ && (old(self)@.window(
                    entry as int,
                    attribute::name_view(*stream),
                    off,
                    old(buf)@.len() as int,
                ) == Err::<Seq<u8>, FsErrorView>(fs::error_view(e)) || (old(self).flaky()
                    && old(self)@.is_reached(entry as int) && source::source_failed(e))),
            },
    {
        let room: usize = buf.len();
        let cap: u64 = match off.checked_add(room as u64) {
            Some(v) => v,
            None => u64::MAX,
        };
        let content = match self.read_data_by_record(entry, stream, cap) {
            Ok(content) => content,
            Err(e) => {
                return Err(e);
            },
        };
        Ok(place_window(content.as_slice(), off, buf))
    }

    /// The target of the link in record `entry`, cut to `cap` bytes. A record that is no
    /// link has an empty target.
    ///
    /// # Errors
    ///
    /// Record and attribute errors.
    pub fn read_link(&mut self, entry: u64, cap: usize) -> (r: Result<Vec<u8>, NtfsError>)
        ensures
            final(self)@ == old(self)@,
            final(self).flaky() == old(self).flaky(),
            source::delivered(
                walk::model(r),
                old(self)@.link(entry as int, cap as int),
                old(self).flaky() && old(self)@.record_is_read(entry as int),
            ),
    {
        let rec = match self.read_record(entry) {
            Ok(rec) => rec,
            Err(e) => {
                return Err(e);
            },
        };
        let attrs = match fs::record_attributes(rec.as_slice()) {
            Ok(list) => list,
            Err(e) => {
                return Err(e);
            },
        };
        match reparse::reparse_target(rec.as_slice(), &attrs) {
            Some(target) => {
                let all = target.as_str().as_bytes();
                let end: usize = if all.len() <= cap {
                    all.len()
                } else {
                    cap
                };
                let kept = vstd::slice::slice_to_vec(vstd::slice::slice_subrange(all, 0, end));
                assert(kept@ =~= cut(all@, cap as int));
                Ok(kept)
            },
            None => {
                let none: Vec<u8> = Vec::new();
                Ok(none)
            },
        }
    }

    /// How many records the `$MFT` holds: the size of its unnamed `$DATA` divided by the
    /// record size.
    ///
    /// # Errors
    ///
    /// Record and attribute errors of record 0.
    pub fn mft_record_count(&mut self) -> (r: Result<u64, NtfsError>)
        ensures
            final(self)@ == old(self)@,
            final(self).flaky() == old(self).flaky(),
            source::delivered(
                r,
                old(self)@.record_count(),
                old(self).flaky() && old(self)@.record_is_read(layout::MFT_RECORD as int),
            ),
    {
        let meta = match self.meta(layout::MFT_RECORD) {
            Ok(meta) => meta,
            Err(e) => {
                return Err(e);
            },
        };
        let size: u64 = self.boot().mft_record_size;
        if size == 0 {
            return Ok(0);
        }
        Ok(meta.size / size)
    }

    /// Recovers what is left of a deleted file from record `entry`; nothing when the record
    /// cannot be read.
    fn recover(&mut self, entry: u64) -> (r: Option<DeletedNode>)
        ensures
            final(self)@ == old(self)@,
            final(self).flaky() == old(self).flaky(),
            match r {
                Some(found) => old(self)@.recovered(entry) == Some(found@) && found@.id.record_number
                    == entry,
                None => old(self)@.recovered(entry) is None || old(self).flaky(),
            },
    {
        match self.read_record(entry) {
            Ok(rec) => recover_record(entry, rec.as_slice()),
            Err(_) => None,
        }
    }

    /// Recovers deleted MFT records: walks the `$MFT`, and for every record whose header
    /// parses but whose in-use flag is clear, recovers the file's name and parent from its
    /// best `$FILE_NAME`, and its metadata. A record without a name is skipped.
    ///
    /// # Errors
    ///
    /// Only what keeps the `$MFT` from being sized: a record that cannot be read is
    /// skipped.
    pub fn deleted_nodes(&mut self) -> (r: Result<Vec<DeletedNode>, NtfsError>)
        ensures
            final(self)@ == old(self)@,
            final(self).flaky() == old(self).flaky(),
            match r {
                Ok(list) => old(self)@.record_count() matches Ok(count) && old(
                    self,
                )@.are_recovered(walk::models(list@), count as int) && (!old(self).flaky()
                    ==> walk::models(list@) == old(self)@.recovered_before(count as int)),
                Err(e) => old(self)@.record_count() == Err::<u64, NtfsError>(e) || (old(
                    self,
                ).flaky() && old(self)@.record_is_read(layout::MFT_RECORD as int)
                    && source::source_failed(e)),
            },
    {
        let count: u64 = match self.mft_record_count() {
            Ok(count) => count,
            Err(e) => {
                return Err(e);
            },
        };
        let ghost volume = self@;
        let ghost flaky = self.flaky();
        let mut out: Vec<DeletedNode> = Vec::new();
        assert(walk::models(out@) =~= Seq::empty());
        let mut entry: u64 = 0;
        while entry < count
            invariant
                entry <= count,
                self@ == volume,
                self.flaky() == flaky,
                volume.are_recovered(walk::models(out@), entry as int),
                !flaky ==> walk::models(out@) == volume.recovered_before(entry as int),
            decreases count - entry,
        {
            match self.recover(entry) {
                Some(found) => {
                    proof {
                        walk::lemma_models_push(out@, found);
                    }
                    out.push(found);
                },
                None => {},
            }
            entry += 1;
        }
        Ok(out)
    }

    /// Enumerates the volume's unallocated (free) clusters as extents, from `$Bitmap` (MFT
    /// record 6), one bit per cluster.
    ///
    /// # Errors
    ///
    /// [`SpaceError::ShortBitmap`] when the `$Bitmap` is too short to describe every
    /// cluster, plus the errors of reading it.
    pub fn unallocated(&mut self) -> (r: Result<Vec<Extent>, SpaceError>)
        ensures
            final(self)@ == old(self)@,
            final(self).flaky() == old(self).flaky(),
            match r {
                Ok(list) => old(self)@.free_space() == Ok::<Seq<Extent>, SpaceErrorView>(list@),
                Err(e) => old(self)@.free_space() == Err::<Seq<Extent>, SpaceErrorView>(e@) || (old(
                    self,
                ).flaky() && old(self)@.is_reached(layout::BITMAP_RECORD as int) && (
                e matches SpaceError::Ntfs(cause) && source::source_failed(cause))),
            },
    {
        let unnamed: Option<String> = None;
        match self.read_data_by_record(layout::BITMAP_RECORD, &unnamed, u64::MAX) {
            Ok(map) => free_extents(self.boot(), map.as_slice()),
            Err(e) => Err(SpaceError::Ntfs(e)),
        }
    }
}

/// A window of a stream shows exactly the bytes that a read of the whole stream gives at
/// its place, wherever the whole stream can be read.
pub proof fn law_windows_agree_with_the_whole(
    volume: Volume,
    n: int,
    stream: Option<Seq<char>>,
    off: u64,
    len: int,
)
    requires
        0 <= len,
        volume.stream(n, stream, u64::MAX as int, ""@) is Ok,
    ensures
        volume.window(n, stream, off, len) == Ok::<Seq<u8>, FsErrorView>(
            source::clipped(
                volume.stream(n, stream, u64::MAX as int, ""@)->Ok_0,
                off as int,
                len,
            ),
        ),
{
    let whole = volume.stream(n, stream, u64::MAX as int, ""@)->Ok_0;
    let most = u64::MAX as int;
    let cap = if off + len > most {
        most
    } else {
        off + len
    };
    fs::law_capped_reads_are_prefixes(volume, n, stream, most, most, ""@);
    fs::law_capped_reads_are_prefixes(volume, n, stream, cap, most, ""@);
    let part = volume.stream(n, stream, cap, ""@)->Ok_0;
    assert(source::clipped(part, off as int, len) =~= source::clipped(whole, off as int, len));
}

/// Whether an entry is listed whose name has the given UTF-8 bytes and which leads to
/// `id`.
pub open spec fn lists(list: Seq<DirEntryView>, name: Seq<u8>, id: FileReference) -> bool {
    exists|k: int| 0 <= k < list.len() && is_entry(#[trigger] list[k], name, id)
}

/// Whether an entry has a name with the given UTF-8 bytes and leads to `id`.
pub open spec fn is_entry(e: DirEntryView, name: Seq<u8>, id: FileReference) -> bool {
    vstd::utf8::encode_utf8(e.name) == name && e.id == id
}

proof fn lemma_listed(
    volume: Volume,
    entries: Seq<IndexEntryView>,
    n: int,
    i: int,
    name: Seq<u8>,
)
    requires
        0 <= i < n <= entries.len(),
        called(name)(entries[i]),
    ensures
        lists(volume.dir_entries(entries, n), name, entries[i].file_reference),
    decreases n,
{
    let list = volume.dir_entries(entries, n);
    let id = entries[i].file_reference;
    if i == n - 1 {
        assert(is_entry(list[list.len() - 1], name, id));
    } else {
        lemma_listed(volume, entries, n - 1, i, name);
        let shorter = volume.dir_entries(entries, n - 1);
        let k = choose|k: int| 0 <= k < shorter.len() && is_entry(#[trigger] shorter[k], name, id);
        assert(list[k] == shorter[k]);
    }
}

proof fn lemma_found_is_listed(
    volume: Volume,
    entries: Seq<IndexEntryView>,
    from: int,
    name: Seq<u8>,
)
    requires
        0 <= from,
        walk::first_from(entries, called(name), from) is Some,
    ensures
        lists(
            volume.dir_entries(entries, entries.len() as int),
            name,
            walk::first_from(entries, called(name), from)->0.file_reference,
        ),
    decreases entries.len() - from,
{
    if called(name)(entries[from]) {
        lemma_listed(volume, entries, entries.len() as int, from, name);
    } else {
        lemma_found_is_listed(volume, entries, from + 1, name);
    }
}

/// Whatever a lookup finds is listed in the directory, under that name and with that
/// reference.
pub proof fn law_lookups_find_listed_entries(
    volume: Volume,
    n: int,
    name: Seq<u8>,
    id: FileReference,
)
    requires
        volume.looked_up(n, name) == Ok::<Option<FileReference>, FsErrorView>(Some(id)),
    ensures
        volume.directory(n) matches Ok(list) && lists(list, name, id),
{
    if let Ok(entries) = volume.listing_of(n) {
        if walk::first_from(entries, called(name), 0) is Some {
            lemma_found_is_listed(volume, entries, 0, name);
        }
    }
}

/// Whatever is recovered was deleted: its record is not in use.
pub proof fn law_recovered_files_were_deleted(volume: Volume, n: u64)
    ensures
        volume.recovered(n) matches Some(found) ==> found.meta.allocated == Allocation::Deleted
            && found.id.record_number == n && found.meta.ino == n,
{
}

proof fn lemma_dir_entries(volume: Volume, entries: Seq<IndexEntryView>, n: int)
    requires
        0 <= n <= entries.len(),
        fs::all_named(entries),
    ensures
        volume.dir_entries(entries, n).len() == n,
        forall|k: int|
            0 <= k < n ==> {
                let e = #[trigger] volume.dir_entries(entries, n)[k];
                &&& e.name == entries[k].file_name->0.name
                &&& e.id == entries[k].file_reference
                &&& e.kind == volume.entry_kind(
                    entries[k].file_name->0.flags,
                    entries[k].file_reference.record_number as int,
                )
            },
    decreases n,
{
    if n > 0 {
        lemma_dir_entries(volume, entries, n - 1);
        let shorter = volume.dir_entries(entries, n - 1);
        let list = volume.dir_entries(entries, n);
        assert(entries[n - 1].file_name is Some);
        assert(forall|k: int| 0 <= k < n - 1 ==> #[trigger] list[k] == shorter[k]);
    }
}

/// A directory lists its index entries one for one and in order, each with its name and its
/// reference; and it is a directory when bit 28 of the name's flags says so, else what its
/// record states, else an ordinary file.
pub proof fn law_directories_list_their_index(
    volume: Volume,
    n: int,
    rec: Seq<u8>,
    entries: Seq<IndexEntryView>,
    k: int,
)
    requires
        volume.record(n) == Ok::<Seq<u8>, NtfsError>(rec),
        volume.listing(rec) == Ok::<Seq<IndexEntryView>, FsErrorView>(entries),
        0 <= k < entries.len(),
    ensures
        volume.directory(n) matches Ok(list) && {
            &&& list.len() == entries.len()
            &&& entries[k].file_name matches Some(f) && {
                &&& list[k].name == f.name
                &&& list[k].id == entries[k].file_reference
                &&& list[k].kind == if f.flags / 0x1000_0000 % 2 == 1 {
                    NodeKind::Dir
                } else {
                    match volume.stated_kind(entries[k].file_reference.record_number as int) {
                        Some(kind) => kind,
                        None => NodeKind::File,
                    }
                }
            }
        },
{
    fs::law_a_listing_begins_with_the_root(volume, rec, entries);
    lemma_dir_entries(volume, entries, entries.len() as int);
    let flags = entries[k].file_name->0.flags;
    assert(flags & 0x1000_0000u32 != 0 <==> flags / 0x1000_0000 % 2 == 1) by (bit_vector);
    assert(volume.dir_entries(entries, entries.len() as int)[k].id == entries[k].file_reference);
}

/// A lookup gives the first entry whose name has the given bytes, and nothing exactly when
/// no name has.
pub proof fn law_lookups_give_the_first_of_the_name(
    volume: Volume,
    n: int,
    entries: Seq<IndexEntryView>,
    name: Seq<u8>,
    i: int,
)
    requires
        volume.listing_of(n) == Ok::<Seq<IndexEntryView>, FsErrorView>(entries),
        0 <= i <= entries.len(),
        fs::all_named(entries),
        forall|j: int|
            0 <= j < i ==> vstd::utf8::encode_utf8((#[trigger] entries[j]).file_name->0.name) != name,
        i < entries.len() ==> vstd::utf8::encode_utf8(entries[i].file_name->0.name) == name,
    ensures
        volume.looked_up(n, name) == Ok::<Option<FileReference>, FsErrorView>(
            if i < entries.len() {
                Some(entries[i].file_reference)
            } else {
                None
            },
        ),
{
    assert forall|j: int| 0 <= j < i implies !called(name)(#[trigger] entries[j]) by {
        assert(entries[j].file_name is Some);
    }
    if i < entries.len() {
        assert(entries[i].file_name is Some);
    }
    walk::lemma_first_is(entries, called(name), i);
}

/// A link's target is given in UTF-8, cut to the room there is, and what is no link has
/// none.
pub proof fn law_links_are_cut_to_the_room(
    volume: Volume,
    n: int,
    rec: Seq<u8>,
    attrs: Seq<attribute::AttributeView>,
    cap: int,
)
    requires
        0 <= cap,
        volume.record(n) == Ok::<Seq<u8>, NtfsError>(rec),
        fs::attributes_of(rec) == Ok::<Seq<attribute::AttributeView>, NtfsError>(attrs),
    ensures
        volume.link(n, cap) matches Ok(found) && match reparse::link_target(rec, attrs) {
            None => found.len() == 0,
            Some(target) => {
                let all = vstd::utf8::encode_utf8(target);
                &&& all.len() <= cap ==> found == all
                &&& all.len() > cap ==> found.len() == cap && found == all.take(cap)
            },
        },
{
}

/// The extents of a stream are its runs, one for one: where a run's clusters lie and how
/// many bytes they are, and a hole lies nowhere.
pub proof fn law_extents_are_the_runs(
    volume: Volume,
    n: int,
    stream: Option<Seq<char>>,
    runs: Seq<Run>,
    k: int,
)
    requires
        volume.stream_runs(n, stream) == Ok::<Seq<Run>, FsErrorView>(runs),
        0 <= k < runs.len(),
        runs[k].length * volume.cluster_size() <= u64::MAX,
        runs[k].lcn matches Some(lcn) ==> lcn * volume.cluster_size() <= u64::MAX,
    ensures
        volume.stream_extents(n, stream) matches Ok(extents) && {
            &&& extents.len() == runs.len()
            &&& extents[k].len == runs[k].length * volume.cluster_size()
            &&& extents[k].allocated
            &&& extents[k].sparse <==> runs[k].lcn is None
            &&& extents[k].image_offset == match runs[k].lcn {
                Some(lcn) => lcn * volume.cluster_size(),
                None => 0,
            }
        },
{
}

/// The table holds as many records as fit whole in its size.
pub proof fn law_records_are_counted_whole(volume: Volume, meta: NodeMeta)
    requires
        volume.meta(0) == Ok::<NodeMeta, NtfsError>(meta),
        volume.boot.mft_record_size > 0,
    ensures
        volume.record_count() matches Ok(count) && count * volume.boot.mft_record_size <= meta.size
            < (count + 1) * volume.boot.mft_record_size,
{
    let size = meta.size as int;
    let each = volume.boot.mft_record_size as int;
    vstd::arithmetic::div_mod::lemma_fundamental_div_mod(size, each);
    vstd::arithmetic::div_mod::lemma_mod_bound(size, each);
    assert(0 <= size / each <= size) by (nonlinear_arith)
        requires
            0 <= size,
            0 < each,
    ;
    assert((size / each) * each == each * (size / each) && (size / each + 1) * each == each * (size
        / each) + each) by (nonlinear_arith);
}

/// A record that is in use gives nothing back. One that is not gives its best name, its own
/// number and sequence, its parent unless that is record 0, and its metadata.
pub proof fn law_deleted_records_give_back_their_name(
    n: u64,
    rec: Seq<u8>,
    h: MftRecordHeader,
    meta: NodeMeta,
    name: FileNameView,
)
    requires
        record::holds_header(rec, h),
        h.signature@ == seq![0x46u8, 0x49, 0x4C, 0x45],
        node::node_meta(n, rec) == Ok::<NodeMeta, NtfsError>(meta),
        node::best_of(node::record_names(rec)) == Some(name),
    ensures
        h.flags % 2 == 1 ==> recovered_from(n, rec) is None,
        h.flags % 2 == 0 ==> (recovered_from(n, rec) matches Some(found) && {
            &&& found.id.record_number == n
            &&& found.id.sequence == h.sequence_number
            &&& found.name == name.name
            &&& found.meta == meta
            &&& name.parent.record_number == 0 ==> found.parent is None
            &&& name.parent.record_number != 0 ==> found.parent == Some(name.parent)
        }),
{
    record::law_written_headers_parse_back(rec, h);
    record::law_flag_bits_have_their_places(h);
}

proof fn lemma_recovery_is_complete(volume: Volume, n: int, i: int)
    requires
        0 <= i < n <= u64::MAX,
        volume.recovered(i as u64) is Some,
    ensures
        volume.recovered_before(n).contains(volume.recovered(i as u64)->0),
    decreases n,
{
    let all = volume.recovered_before(n);
    let found = volume.recovered(i as u64)->0;
    if i == n - 1 {
        assert(all[all.len() - 1] == found);
    } else {
        lemma_recovery_is_complete(volume, n - 1, i);
        let shorter = volume.recovered_before(n - 1);
        let k = choose|k: int| 0 <= k < shorter.len() && shorter[k] == found;
        assert(all[k] == found);
    }
}

#[verifier::rlimit(60)]
proof fn lemma_recovery_is_in_order(volume: Volume, n: int)
    requires
        0 <= n <= u64::MAX,
    ensures
        volume.are_recovered(volume.recovered_before(n), n),
    decreases n,
{
    if n > 0 {
        let shorter = volume.recovered_before(n - 1);
        lemma_recovery_is_in_order(volume, n - 1);
        law_recovered_files_were_deleted(volume, (n - 1) as u64);
        if let Some(found) = volume.recovered((n - 1) as u64) {
            lemma_order_is_kept(volume, shorter, found, n);
        }
    }
}

proof fn lemma_order_is_kept(volume: Volume, list: Seq<DeletedView>, found: DeletedView, n: int)
    requires
        0 < n <= u64::MAX,
        volume.are_recovered(list, n - 1),
        volume.recovered((n - 1) as u64) == Some(found),
        found.id.record_number == n - 1,
    ensures
        volume.are_recovered(list.push(found), n),
{
    let all = list.push(found);
    assert forall|k: int| 0 <= k < all.len() implies (#[trigger] all[k]).id.record_number < n
        && volume.recovered(all[k].id.record_number) == Some(all[k]) by {
        if k < list.len() {
            assert(all[k] == list[k]);
        }
    }
    assert forall|j: int, k: int| 0 <= j < k < all.len() implies (#[trigger] all[j]).id.record_number
        < (#[trigger] all[k]).id.record_number by {
        assert(all[j] == list[j]);
        if k < list.len() {
            assert(all[k] == list[k]);
        }
    }
}

/// Everything that can be recovered is, from every record before `n`, in record order.
pub proof fn law_every_deleted_record_is_recovered(volume: Volume, n: int, i: int)
    requires
        0 <= i < n <= u64::MAX,
    ensures
        volume.recovered(i as u64) matches Some(found) ==> volume.recovered_before(n).contains(
            found,
        ),
        volume.are_recovered(volume.recovered_before(n), n),
{
    lemma_recovery_is_in_order(volume, n);
    if volume.recovered(i as u64) is Some {
        lemma_recovery_is_complete(volume, n, i);
    }
}

/// Free space is told by the bitmap of as many clusters as fit whole in the volume, one bit
/// each; a bitmap with fewer bits is refused.
pub proof fn law_free_space_needs_a_bit_for_each_cluster(geometry: BootSector, map: Seq<u8>)
    requires
        geometry.sectors_per_cluster > 0,
        geometry.total_sectors < u64::MAX - 7,
        map.len() <= usize::MAX,
    ensures
        ({
            let clusters = total_clusters(geometry);
            &&& clusters * geometry.sectors_per_cluster <= geometry.total_sectors < (clusters + 1)
                * geometry.sectors_per_cluster
            &&& free_space_in(geometry, map) is Err <==> 8 * map.len() < clusters
            &&& free_space_in(geometry, map) matches Ok(extents) ==> extents
                == bitmap::free_extents(map, geometry.cluster_bytes(), clusters as int, 0)
            &&& free_space_in(geometry, map) matches Err(e) ==> (e matches SpaceErrorView::ShortBitmap {
                got,
                total_clusters: told,
                needed,
            } && got == map.len() && told == clusters && 8 * needed - 8 < clusters <= 8 * needed)
        }),
{
    let sectors = geometry.total_sectors as int;
    let each = geometry.sectors_per_cluster as int;
    vstd::arithmetic::div_mod::lemma_fundamental_div_mod(sectors, each);
    vstd::arithmetic::div_mod::lemma_mod_bound(sectors, each);
    assert(0 <= sectors / each <= sectors) by (nonlinear_arith)
        requires
            0 <= sectors,
            0 < each,
    ;
    assert((sectors / each) * each == each * (sectors / each) && (sectors / each + 1) * each == each
        * (sectors / each) + each) by (nonlinear_arith);
}

/// The free space of a volume is what the bitmap in record 6 shows.
pub proof fn law_free_space_is_in_record_six(volume: Volume, map: Seq<u8>)
    requires
        volume.stream(6, None, u64::MAX as int, ""@) == Ok::<Seq<u8>, FsErrorView>(map),
    ensures
        volume.free_space() == free_space_in(volume.boot, map),
{
}

/// The label of a volume is the name that was written in the first `$VOLUME_NAME` of record
/// 3, and an empty one is none.
pub proof fn law_the_label_is_in_record_three(
    volume: Volume,
    rec: Seq<u8>,
    attrs: Seq<attribute::AttributeView>,
    i: int,
    units: Seq<u16>,
)
    requires
        volume.record(3) == Ok::<Seq<u8>, NtfsError>(rec),
        fs::attributes_of(rec) == Ok::<Seq<attribute::AttributeView>, NtfsError>(attrs),
        0 <= i < attrs.len(),
        attrs[i].type_code == 0x60,
        forall|j: int| 0 <= j < i ==> (#[trigger] attrs[j]).type_code != 0x60,
        attrs[i].content_in(rec) matches Some(content) && content.len() == 2 * units.len()
            && text::stand_at(content, 0, units),
    ensures
        units.len() == 0 ==> volume.label() is None,
        units.len() > 0 ==> volume.label() == Some(text::utf16_lossy(units)),
{
    let content = attrs[i].content_in(rec)->0;
    walk::lemma_first_is(attrs, fs::of_type(0x60), i);
    text::law_written_units_read_back(content, 0, units);
    assert(content.subrange(0, 2 * units.len() as int) =~= content);
    if units.len() > 0 {
        assert(text::utf16_lossy(units).len() > 0);
    }
}

/// The sequence number of a record is the one in its header.
pub proof fn law_sequence_numbers_come_from_the_header(
    volume: Volume,
    n: int,
    rec: Seq<u8>,
    h: MftRecordHeader,
)
    requires
        volume.record(n) == Ok::<Seq<u8>, NtfsError>(rec),
        record::holds_header(rec, h),
        h.signature@ == seq![0x46u8, 0x49, 0x4C, 0x45],
    ensures
        volume.sequence_of(n) == h.sequence_number,
{
    record::law_written_headers_parse_back(rec, h);
}

/// The metadata of a record is what its own bytes say.
pub proof fn law_metadata_comes_from_the_record(volume: Volume, n: u64, rec: Seq<u8>)
    requires
        volume.record(n as int) == Ok::<Seq<u8>, NtfsError>(rec),
    ensures
        volume.meta(n) == node::node_meta(n, rec),
        volume.recovered(n) == recovered_from(n, rec),
        fs::attributes_of(rec) matches Ok(attrs) ==> volume.stated_kind(n as int)
            == reparse::stated_kind(rec, attrs),
{
}

} // verus!
