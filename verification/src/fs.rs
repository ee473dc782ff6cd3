//! [`NtfsFs`]: the top-level reader that ties every layer together over a volume.
//!
//! On open it parses the boot sector and bootstraps the `$MFT`'s own data runs (the MFT
//! may be fragmented), so [`NtfsFs::read_record`] can fetch any MFT record by number,
//! fixup applied, wherever it physically lives. From there [`NtfsFs::read_file`]
//! resolves a path by walking the directory index from the root (record 5) and reads the
//! file's unnamed `$DATA`.

use vstd::prelude::*;
use crate::attribute;
use crate::attribute::{Attribute, AttributeBody, AttributeView};
use crate::attribute_list;
use crate::attribute_list::{AttributeListEntry, ListEntryView};
use crate::boot;
use crate::boot::BootSector;
use crate::bytes;
use crate::data;
use crate::error::{IoFault, NtfsError};
use crate::index;
use crate::index::{IndexEntry, IndexEntryView, IndexRoot};
use crate::layout;
use crate::record;
use crate::record::MftRecordHeader;
use crate::runlist;
use crate::runlist::Run;
use crate::source;
use crate::source::ByteSource;
use crate::walk;

verus! {

/// Bytes read to find the boot sector.
pub const BOOT_LEN: usize = 512;

/// A mounted volume: its bytes, its geometry, and where its `$MFT` lies.
#[verifier::ext_equal]
pub struct Volume {
    pub image: Seq<u8>,
    pub boot: BootSector,
    pub mft_runs: Seq<Run>,
}

/// The `len` bytes at virtual offset `pos` of a file, found in the runs from `i` on. The
/// runs before cover `base` bytes. Holes read as zeroes.
pub open spec fn virtual_from(
    image: Seq<u8>,
    runs: Seq<Run>,
    cluster_size: int,
    i: int,
    base: int,
    pos: int,
    len: int,
) -> Result<Seq<u8>, NtfsError>
    decreases runs.len() - i,
{
    if len <= 0 {
        Ok(Seq::empty())
    } else if i >= runs.len() {
        Err(NtfsError::BadRunlist("read past end of runs"))
    } else {
        let size = runs[i].length * cluster_size;
        let within = pos - base;
        let take = data::least(size - within, len);
        if size > u64::MAX {
            Err(NtfsError::BadRunlist("run byte length overflow"))
        } else if base + size > u64::MAX {
            Err(NtfsError::BadRunlist("run end overflow"))
        } else if pos >= base + size {
            virtual_from(image, runs, cluster_size, i + 1, base + size, pos, len)
        } else {
            let piece = match runs[i].lcn {
                None => Ok(bytes::zeros(take as nat)),
                Some(lcn) => if lcn * cluster_size + within > u64::MAX {
                    Err(NtfsError::BadRunlist("physical offset overflow"))
                } else {
                    source::fetched(image, lcn * cluster_size + within, take)
                },
            };
            match piece {
                Err(e) => Err(e),
                Ok(p) => walk::chain(
                    p,
                    virtual_from(
                        image,
                        runs,
                        cluster_size,
                        i + 1,
                        base + size,
                        pos + take,
                        len - take,
                    ),
                ),
            }
        }
    }
}

/// The `len` bytes at virtual offset `offset` of a file.
pub open spec fn virtual_value(
    image: Seq<u8>,
    runs: Seq<Run>,
    cluster_size: int,
    offset: int,
    len: int,
) -> Result<Seq<u8>, NtfsError> {
    if len > usize::MAX {
        Err(NtfsError::TooLarge { bytes: len as u64 })
    } else {
        virtual_from(image, runs, cluster_size, 0, 0, offset, len)
    }
}

/// Reads `len` bytes from virtual offset `offset`, mapped through `runs`. Sparse runs
/// read as zeroes.
///
/// # Errors
///
/// [`NtfsError::BadRunlist`] when the runs do not reach that far or their sizes
/// overflow, or [`NtfsError::Io`] on read failure.
pub fn read_virtual<R: ByteSource>(
    reader: &mut R,
    runs: &[Run],
    cluster_size: u64,
    offset: u64,
    len: u64,
) -> (r: Result<Vec<u8>, NtfsError>)
    ensures
        final(reader).bytes() == old(reader).bytes(),
        final(reader).flaky() == old(reader).flaky(),
        source::delivered(
            walk::model(r),
            virtual_value(
                old(reader).bytes(),
                runs@,
                cluster_size as int,
                offset as int,
                len as int,
            ),
            old(reader).flaky() && len > 0 && data::has_stored(runs@),
        ),
{
    if len > usize::MAX as u64 {
        return Err(NtfsError::TooLarge { bytes: len });
    }
    let ghost image = reader.bytes();
    let ghost flaky = reader.flaky();
    let ghost whole = virtual_value(
        image,
        runs@,
        cluster_size as int,
        offset as int,
        len as int,
    );
    let mut out: Vec<u8> = Vec::new();
    let mut want: u64 = len;
    let mut pos: u64 = offset;
    let mut base: u64 = 0;
    let mut i: usize = 0;
    proof {
        walk::lemma_chain_empty(whole);
    }
    while i < runs.len() && want > 0
        invariant
            i <= runs.len(),
            want <= len <= usize::MAX,
            want > 0 ==> base <= pos,
            reader.bytes() == image,
            reader.flaky() == flaky,
            image == old(reader).bytes(),
            flaky == old(reader).flaky(),
            whole == virtual_value(
                image,
                runs@,
                cluster_size as int,
                offset as int,
                len as int,
            ),
            whole == walk::chain(
                out@,
                virtual_from(
                    image,
                    runs@,
                    cluster_size as int,
                    i as int,
                    base as int,
                    pos as int,
                    want as int,
                ),
            ),
        decreases runs.len() - i,
    {
        let size: u64 = match runs[i].length.checked_mul(cluster_size) {
            Some(s) => s,
            None => {
                return Err(NtfsError::BadRunlist("run byte length overflow"));
            },
        };
        let end: u64 = match base.checked_add(size) {
            Some(e) => e,
            None => {
                return Err(NtfsError::BadRunlist("run end overflow"));
            },
        };
        if pos < end {
            let within: u64 = pos - base;
            let take: u64 = if size - within < want {
                size - within
            } else {
                want
            };
            let ghost before = out@;
            let ghost piece: Seq<u8> = Seq::empty();
            match runs[i].lcn {
                None => {
                    bytes::append_zeros(&mut out, take as usize);
                    proof {
                        piece = bytes::zeros(take as nat);
                    }
                },
                Some(lcn) => {
                    let start: u64 = match lcn.checked_mul(cluster_size) {
                        Some(s) => s,
                        None => {
                            return Err(NtfsError::BadRunlist("physical offset overflow"));
                        },
                    };
                    let phys: u64 = match start.checked_add(within) {
                        Some(p) => p,
                        None => {
                            return Err(NtfsError::BadRunlist("physical offset overflow"));
                        },
                    };
                    match source::read_exact_at(reader, phys, take as usize) {
                        Ok(found) => {
                            bytes::append(&mut out, found.as_slice());
                            proof {
                                piece = found@;
                            }
                        },
                        Err(e) => {
                            return Err(e);
                        },
                    }
                },
            }
            proof {
                data::lemma_chain_append(
                    before,
                    piece,
                    virtual_from(
                        image,
                        runs@,
                        cluster_size as int,
                        i + 1,
                        end as int,
                        pos + take,
                        want - take,
                    ),
                );
            }
            want = want - take;
            pos = pos + take;
        }
        base = end;
        i += 1;
    }
    if want > 0 {
        return Err(NtfsError::BadRunlist("read past end of runs"));
    }
    proof {
        walk::lemma_chain_done(out@);
    }
    Ok(out)
}

/// The attributes of a record, found through its header.
pub open spec fn attributes_of(rec: Seq<u8>) -> Result<Seq<AttributeView>, NtfsError> {
    match record::parsed_header(rec) {
        Err(e) => Err(e),
        Ok(header) => attribute::parsed_attributes(rec, header.first_attribute_offset as int),
    }
}

/// Parses a record's header and returns its attributes.
///
/// # Errors
///
/// Header and attribute errors.
pub fn record_attributes(rec: &[u8]) -> (r: Result<Vec<Attribute>, NtfsError>)
    ensures
        walk::model_list(r) == attributes_of(rec@),
{
    match MftRecordHeader::parse(rec) {
        Ok(header) => attribute::parse_attributes(rec, header.first_attribute_offset as usize),
        Err(e) => Err(e),
    }
}

/// Selects the attributes of a type.
pub open spec fn of_type(code: u32) -> spec_fn(AttributeView) -> bool {
    |a: AttributeView| a.type_code == code
}

/// Selects the `$DATA` attributes of a stream (`None` is the unnamed one), of one
/// attribute id where that is given.
pub open spec fn of_stream(stream: Option<Seq<char>>, id: Option<u16>) -> spec_fn(
    AttributeView,
) -> bool {
    |a: AttributeView|
        a.type_code == layout::DATA && a.name == stream && (id matches Some(n) ==> a.attribute_id
            == n)
}

/// Selects the unnamed `$DATA` that has a runlist.
pub open spec fn mapped_data() -> spec_fn(AttributeView) -> bool {
    |a: AttributeView| a.type_code == layout::DATA && a.name is None && a.body is NonResident
}

/// The first attribute of a type.
pub fn find_type(attrs: &Vec<Attribute>, code: u32) -> (r: Option<&Attribute>)
    ensures
        match r {
            Some(a) => walk::first(walk::models(attrs@), of_type(code)) == Some(a@),
            None => walk::first(walk::models(attrs@), of_type(code)) is None,
        },
{
    let ghost list = walk::models(attrs@);
    let mut i: usize = 0;
    while i < attrs.len()
        invariant
            i <= attrs.len(),
            list == walk::models(attrs@),
            forall|j: int| 0 <= j < i ==> !of_type(code)(#[trigger] list[j]),
        decreases attrs.len() - i,
    {
        if attrs[i].type_code == code {
            proof {
                walk::lemma_first_skip(list, of_type(code), i as int);
                assert(list[i as int] == attrs@[i as int]@);
            }
            return Some(&attrs[i]);
        }
        i += 1;
    }
    proof {
        walk::lemma_first_skip(list, of_type(code), i as int);
    }
    None
}

/// The value of the first attribute of a type, when it is resident.
pub open spec fn first_content(
    record: Seq<u8>,
    attributes: Seq<AttributeView>,
    code: u32,
) -> Option<Seq<u8>> {
    match walk::first(attributes, of_type(code)) {
        Some(a) => a.content_in(record),
        None => None,
    }
}

/// The value of the first attribute of a type, when it is resident.
pub fn find_content<'a>(record: &'a [u8], attributes: &Vec<Attribute>, code: u32) -> (r: Option<
    &'a [u8],
>)
    ensures
        match r {
            Some(content) => first_content(record@, walk::models(attributes@), code) == Some(
                content@,
            ),
            None => first_content(record@, walk::models(attributes@), code) is None,
        },
{
    match find_type(attributes, code) {
        Some(a) => a.resident_content(record),
        None => None,
    }
}

/// Whether two optional texts are the same.
pub fn same_name(a: &Option<String>, b: &Option<String>) -> (r: bool)
    ensures
        r == (attribute::name_view(*a) == attribute::name_view(*b)),
{
    match (a, b) {
        (None, None) => true,
        (Some(x), Some(y)) => *x == *y,
        _ => false,
    }
}

/// Where the first `$DATA` attribute of a stream stands in the list.
pub fn find_stream(attrs: &Vec<Attribute>, stream: &Option<String>, id: Option<u16>) -> (r: Option<
    usize,
>)
    ensures
        match r {
            Some(i) => i < attrs@.len() && walk::first(
                walk::models(attrs@),
                of_stream(attribute::name_view(*stream), id),
            ) == Some(attrs@[i as int]@),
            None => walk::first(
                walk::models(attrs@),
                of_stream(attribute::name_view(*stream), id),
            ) is None,
        },
{
    let ghost list = walk::models(attrs@);
    let ghost wanted = of_stream(attribute::name_view(*stream), id);
    let mut i: usize = 0;
    while i < attrs.len()
        invariant
            i <= attrs.len(),
            list == walk::models(attrs@),
            wanted == of_stream(attribute::name_view(*stream), id),
            forall|j: int| 0 <= j < i ==> !wanted(#[trigger] list[j]),
        decreases attrs.len() - i,
    {
        let id_fits = match id {
            Some(n) => attrs[i].attribute_id == n,
            None => true,
        };
        if attrs[i].type_code == layout::DATA && id_fits && same_name(&attrs[i].name, stream) {
            proof {
                walk::lemma_first_skip(list, wanted, i as int);
                assert(list[i as int] == attrs@[i as int]@);
            }
            return Some(i);
        }
        i += 1;
    }
    proof {
        walk::lemma_first_skip(list, wanted, i as int);
    }
    None
}

/// The runs of the `$MFT`, taken from its own record: those of its first unnamed
/// `$DATA` that has a runlist.
pub open spec fn mft_runs_of(rec: Seq<u8>) -> Result<Seq<Run>, NtfsError> {
    match attributes_of(rec) {
        Err(e) => Err(e),
        Ok(attrs) => match walk::first(attrs, mapped_data()) {
            None => Err(
                NtfsError::BadAttribute { offset: 0, detail: "$MFT has no non-resident $DATA" },
            ),
            Some(a) => {
                let start = a.offset + a.body->runs_offset;
                let end = a.offset + a.length;
                if start > end || end > rec.len() {
                    Err(
                        NtfsError::BadAttribute {
                            offset: a.offset,
                            detail: "$MFT runlist out of bounds",
                        },
                    )
                } else {
                    runlist::decoded(rec.subrange(start, end))
                }
            },
        },
    }
}

/// Extracts the unnamed non-resident `$DATA` runlist from a fixed-up record.
///
/// # Errors
///
/// [`NtfsError::BadAttribute`] when there is none or it lies outside the attribute, plus
/// header, attribute and runlist errors.
pub fn mft_data_runs(rec: &[u8]) -> (r: Result<Vec<Run>, NtfsError>)
    ensures
        match r {
            Ok(runs) => mft_runs_of(rec@) == Ok::<Seq<Run>, NtfsError>(runs@),
            Err(e) => mft_runs_of(rec@) == Err::<Seq<Run>, NtfsError>(e),
        },
{
    let attrs = match record_attributes(rec) {
        Ok(list) => list,
        Err(e) => {
            return Err(e);
        },
    };
    let a = match find_mapped(&attrs) {
        Some(a) => a,
        None => {
            return Err(
                NtfsError::BadAttribute { offset: 0, detail: "$MFT has no non-resident $DATA" },
            );
        },
    };
    let runs_offset: usize = match a.body {
        AttributeBody::NonResident { runs_offset, .. } => runs_offset as usize,
        AttributeBody::Resident { .. } => 0,
    };
    let span: usize = a.length as usize;
    if runs_offset > span || !bytes::fits(a.offset, span, 0, rec.len()) {
        return Err(
            NtfsError::BadAttribute { offset: a.offset, detail: "$MFT runlist out of bounds" },
        );
    }
    let start: usize = a.offset + runs_offset;
    let end: usize = a.offset + span;
    runlist::decode(vstd::slice::slice_subrange(rec, start, end))
}

/// The first unnamed `$DATA` that has a runlist.
fn find_mapped(attrs: &Vec<Attribute>) -> (r: Option<&Attribute>)
    ensures
        match r {
            Some(a) => walk::first(walk::models(attrs@), mapped_data()) == Some(a@)
                && a.body is NonResident,
            None => walk::first(walk::models(attrs@), mapped_data()) is None,
        },
{
    let ghost list = walk::models(attrs@);
    let mut i: usize = 0;
    while i < attrs.len()
        invariant
            i <= attrs.len(),
            list == walk::models(attrs@),
            forall|j: int| 0 <= j < i ==> !mapped_data()(#[trigger] list[j]),
        decreases attrs.len() - i,
    {
        let mapped = match attrs[i].body {
            AttributeBody::NonResident { .. } => true,
            AttributeBody::Resident { .. } => false,
        };
        if attrs[i].type_code == layout::DATA && attrs[i].name.is_none() && mapped {
            proof {
                walk::lemma_first_skip(list, mapped_data(), i as int);
                assert(list[i as int] == attrs@[i as int]@);
            }
            return Some(&attrs[i]);
        }
        i += 1;
    }
    proof {
        walk::lemma_first_skip(list, mapped_data(), i as int);
    }
    None
}

/// An error with its texts taken by their characters.
pub enum FsErrorView {
    NotFound(Seq<char>),
    NotADirectory(Seq<char>),
    Other(NtfsError),
}

/// The view of an error.
pub open spec fn error_view(e: NtfsError) -> FsErrorView {
    match e {
        NtfsError::NotFound(text) => FsErrorView::NotFound(text@),
        NtfsError::NotADirectory(text) => FsErrorView::NotADirectory(text@),
        _ => FsErrorView::Other(e),
    }
}

/// An outcome with its error taken by its view.
pub open spec fn lift<T>(r: Result<T, NtfsError>) -> Result<T, FsErrorView> {
    match r {
        Ok(v) => Ok(v),
        Err(e) => Err(error_view(e)),
    }
}

/// What a filesystem operation owes: exactly the `expected` outcome, unless it may be let
/// down by the source and was.
pub open spec fn answered<T>(
    outcome: Result<T, NtfsError>,
    expected: Result<T, FsErrorView>,
    unsure: bool,
) -> bool {
    lift(outcome) == expected || (unsure && (outcome matches Err(e) && source::source_failed(e)))
}

/// Selects the entries that carry a name.
pub open spec fn named() -> spec_fn(IndexEntryView) -> bool {
    |e: IndexEntryView| e.file_name is Some
}

/// The named entries of the `INDX` buffers of `size` bytes each, from `off` on. A block
/// without the signature holds none.
pub open spec fn blocks_from(data: Seq<u8>, off: int, size: int, sector_size: int) -> Result<
    Seq<IndexEntryView>,
    NtfsError,
>
    decreases data.len() - off,
{
    if size <= 0 || off + size > data.len() {
        Ok(Seq::empty())
    } else if !bytes::has_at(data, off, layout::SIGNATURE_INDX@) {
        blocks_from(data, off + size, size, sector_size)
    } else {
        match index::parsed_buffer(data.subrange(off, off + size), size, sector_size) {
            Err(e) => Err(e),
            Ok(entries) => walk::chain(
                entries.filter(named()),
                blocks_from(data, off + size, size, sector_size),
            ),
        }
    }
}

impl Volume {
    /// Bytes in one cluster.
    pub open spec fn cluster_size(self) -> int {
        self.boot.cluster_bytes() as int
    }

    /// MFT record `n`, fixed up.
    pub open spec fn record(self, n: int) -> Result<Seq<u8>, NtfsError> {
        let size = self.boot.mft_record_size as int;
        if n * size > u64::MAX {
            Err(NtfsError::BadRunlist("record offset overflow"))
        } else {
            match virtual_value(self.image, self.mft_runs, self.cluster_size(), n * size, size) {
                Err(e) => Err(e),
                Ok(raw) => record::fixed_up(raw, self.boot.bytes_per_sector as int),
            }
        }
    }

    /// Whether reading MFT record `n` asks the source for any byte.
    pub open spec fn record_is_read(self, n: int) -> bool {
        &&& n * self.boot.mft_record_size <= u64::MAX
        &&& self.boot.mft_record_size > 0
        &&& data::has_stored(self.mft_runs)
    }

    /// Whether anything that starts from MFT record `n` may ask the source for bytes: not
    /// when there is no such record to be read.
    pub open spec fn is_reached(self, n: int) -> bool {
        self.record_is_read(n) || self.record(n) is Ok
    }

    /// Whether listing a directory record asks the source for any byte: only a large
    /// directory with an `$INDEX_ALLOCATION` does.
    pub open spec fn listing_is_read(self, rec: Seq<u8>) -> bool {
        attributes_of(rec) matches Ok(attrs) && {
            &&& walk::first(attrs, of_type(layout::INDEX_ROOT)) matches Some(a)
                && a.content_in(rec) matches Some(content) && index::parsed_root(
                content,
            ) matches Ok(root) && root.is_large
            &&& walk::first(attrs, of_type(layout::INDEX_ALLOCATION)) matches Some(a)
                && data::attribute_is_read(rec, a, self.cluster_size())
        }
    }

    /// The named entries in the `$INDEX_ALLOCATION` of a directory record, if it has one.
    pub open spec fn allocated_entries(self, rec: Seq<u8>, attrs: Seq<AttributeView>) -> Result<
        Seq<IndexEntryView>,
        NtfsError,
    > {
        match walk::first(attrs, of_type(layout::INDEX_ALLOCATION)) {
            None => Ok(Seq::empty()),
            Some(a) => match data::attribute_value(self.image, rec, a, self.cluster_size()) {
                Err(e) => Err(e),
                Ok(value) => blocks_from(
                    value,
                    0,
                    self.boot.index_record_size as int,
                    self.boot.bytes_per_sector as int,
                ),
            },
        }
    }

    /// The children of a directory record: the named entries of its index root, followed,
    /// for a large directory, by those of its index buffers.
    pub open spec fn listing(self, rec: Seq<u8>) -> Result<Seq<IndexEntryView>, FsErrorView> {
        match attributes_of(rec) {
            Err(e) => Err(error_view(e)),
            Ok(attrs) => match walk::first(attrs, of_type(layout::INDEX_ROOT)) {
                None => Err(FsErrorView::NotADirectory("record has no $INDEX_ROOT"@)),
                Some(a) => match a.content_in(rec) {
                    None => Err(
                        FsErrorView::Other(
                            NtfsError::BadIndex("$INDEX_ROOT content out of bounds"),
                        ),
                    ),
                    Some(content) => match index::parsed_root(content) {
                        Err(e) => Err(error_view(e)),
                        Ok(root) => if root.is_large {
                            lift(
                                walk::chain(
                                    root.entries.filter(named()),
                                    self.allocated_entries(rec, attrs),
                                ),
                            )
                        } else {
                            Ok(root.entries.filter(named()))
                        },
                    },
                },
            },
        }
    }
}

/// The mount of a volume: its boot sector is parsed, and the record at the `$MFT`'s
/// cluster says where the whole `$MFT` lies.
pub open spec fn mounted(image: Seq<u8>) -> Result<Volume, NtfsError> {
    match source::fetched(image, 0, BOOT_LEN as int) {
        Err(e) => Err(e),
        Ok(sector) => match boot::parsed_boot(sector) {
            Err(e) => Err(e),
            Ok(geometry) => {
                let at = boot::saturating_product(geometry.mft_lcn, geometry.cluster_bytes());
                match source::fetched(image, at as int, geometry.mft_record_size as int) {
                    Err(e) => Err(e),
                    Ok(raw) => match record::fixed_up(raw, geometry.bytes_per_sector as int) {
                        Err(e) => Err(e),
                        Ok(rec) => match mft_runs_of(rec) {
                            Err(e) => Err(e),
                            Ok(mft_runs) => Ok(Volume { image, boot: geometry, mft_runs }),
                        },
                    },
                }
            },
        },
    }
}

/// A read-only NTFS filesystem over a volume.
pub struct NtfsFs<R: ByteSource> {
    reader: R,
    boot: BootSector,
    mft_runs: Vec<Run>,
}

impl<R: ByteSource> View for NtfsFs<R> {
    type V = Volume;

    closed spec fn view(&self) -> Volume {
        Volume { image: self.reader.bytes(), boot: self.boot, mft_runs: self.mft_runs@ }
    }
}

impl<R: ByteSource> NtfsFs<R> {
    /// Whether the underlying source may fail on its own.
    pub closed spec fn flaky(&self) -> bool {
        self.reader.flaky()
    }

    /// Opens an NTFS volume: parses the boot sector and the `$MFT`'s data runs.
    ///
    /// # Errors
    ///
    /// Propagates boot-sector, record, and runlist errors.
    pub fn open(reader: R) -> (r: Result<Self, NtfsError>)
        ensures
            source::delivered(walk::model(r), mounted(reader.bytes()), reader.flaky()),
            r matches Ok(fs) ==> fs.flaky() == reader.flaky(),
    {
        let mut reader = reader;
        let sector = match source::read_exact_at(&mut reader, 0, BOOT_LEN) {
            Ok(s) => s,
            Err(e) => {
                return Err(e);
            },
        };
        let geometry = match BootSector::parse(sector.as_slice()) {
            Ok(b) => b,
            Err(e) => {
                return Err(e);
            },
        };
        proof {
            boot::law_parsed_geometry_is_usable(sector@);
        }
        let at: u64 = geometry.mft_byte_offset();
        let mut rec0 = match source::read_exact_at(
            &mut reader,
            at,
            geometry.mft_record_size as usize,
        ) {
            Ok(raw) => raw,
            Err(e) => {
                return Err(e);
            },
        };
        match record::apply_fixup(rec0.as_mut_slice(), geometry.bytes_per_sector as usize) {
            Ok(_) => {},
            Err(e) => {
                return Err(e);
            },
        }
        let mft_runs = match mft_data_runs(rec0.as_slice()) {
            Ok(runs) => runs,
            Err(e) => {
                return Err(e);
            },
        };
        Ok(NtfsFs { reader, boot: geometry, mft_runs })
    }

    /// The parsed boot sector.
    #[must_use]
    pub fn boot(&self) -> (r: &BootSector)
        ensures
            *r == self@.boot,
    {
        &self.boot
    }

    /// Reads MFT record `n` (raw bytes, update-sequence fixup applied).
    ///
    /// # Errors
    ///
    /// [`NtfsError::BadRunlist`] if the record lies outside the MFT, plus record / fixup
    /// errors.
    pub fn read_record(&mut self, n: u64) -> (r: Result<Vec<u8>, NtfsError>)
        ensures
            final(self)@ == old(self)@,
            final(self).flaky() == old(self).flaky(),
            source::delivered(
                walk::model(r),
                old(self)@.record(n as int),
                old(self).flaky() && old(self)@.record_is_read(n as int),
            ),
    {
        let size: u64 = self.boot.mft_record_size;
        let at: u64 = match n.checked_mul(size) {
            Some(v) => v,
            None => {
                return Err(NtfsError::BadRunlist("record offset overflow"));
            },
        };
        let cluster_size: u64 = self.boot.cluster_size();
        let mut raw = match read_virtual(
            &mut self.reader,
            self.mft_runs.as_slice(),
            cluster_size,
            at,
            size,
        ) {
            Ok(raw) => raw,
            Err(e) => {
                return Err(e);
            },
        };
        match record::apply_fixup(raw.as_mut_slice(), self.boot.bytes_per_sector as usize) {
            Ok(_) => Ok(raw),
            Err(e) => Err(e),
        }
    }
}

/// Moves the named entries of `entries` to the end of `out`.
fn keep_named(entries: Vec<IndexEntry>, out: &mut Vec<IndexEntry>)
    ensures
        walk::models(final(out)@) == walk::models(old(out)@) + walk::models(entries@).filter(
            named(),
        ),
{
    let ghost list = walk::models(entries@);
    let ghost before = walk::models(out@);
    proof {
        assert(list.take(0) =~= Seq::empty());
        reveal(Seq::filter);
        assert(list.take(0).filter(named()) =~= Seq::empty());
        assert(before + Seq::<IndexEntryView>::empty() =~= before);
    }
    for entry in it: entries
        invariant
            list == walk::models(it.seq()),
            walk::models(out@) == before + list.take(it.index() as int).filter(named()),
    {
        proof {
            let n = it.index() as int;
            walk::lemma_filter_step(list, named(), n);
            assert(list[n] == entry@);
            walk::lemma_models_push(out@, entry);
            assert((before + list.take(n).filter(named())).push(entry@) =~= before + list.take(
                n,
            ).filter(named()).push(entry@));
        }
        if entry.file_name.is_some() {
            out.push(entry);
        }
    }
    assert(list.take(list.len() as int) =~= list);
}

/// Reads the named entries of the `INDX` buffers in `data`.
fn read_blocks(data: &[u8], size: u64, sector_size: usize, out: &mut Vec<IndexEntry>) -> (r: Result<
    (),
    NtfsError,
>)
    ensures
        match r {
            Ok(_) => walk::chain(
                walk::models(old(out)@),
                blocks_from(data@, 0, size as int, sector_size as int),
            ) == Ok::<Seq<IndexEntryView>, NtfsError>(walk::models(final(out)@)),
            Err(e) => blocks_from(data@, 0, size as int, sector_size as int) == Err::<
                Seq<IndexEntryView>,
                NtfsError,
            >(e),
        },
{
    proof {
        walk::lemma_chain_done(walk::models(out@));
    }
    if size == 0 || size > data.len() as u64 {
        return Ok(());
    }
    let block: usize = size as usize;
    let mut off: usize = 0;
    while data.len() - off >= block
        invariant
            off <= data.len(),
            block == size,
            block > 0,
            walk::chain(
                walk::models(old(out)@),
                blocks_from(data@, 0, size as int, sector_size as int),
            ) == walk::chain(
                walk::models(out@),
                blocks_from(data@, off as int, size as int, sector_size as int),
            ),
            blocks_from(data@, 0, size as int, sector_size as int) is Err ==> blocks_from(
                data@,
                off as int,
                size as int,
                sector_size as int,
            ) == blocks_from(data@, 0, size as int, sector_size as int),
        decreases data.len() - off,
    {
        if signed_indx(data, off, block) {
            let mut buffer = vstd::slice::slice_to_vec(
                vstd::slice::slice_subrange(data, off, off + block),
            );
            match index::parse_index_buffer(buffer.as_mut_slice(), block, sector_size) {
                Ok(entries) => {
                    proof {
                        data::lemma_chain_append(
                            walk::models(out@),
                            walk::models(entries@).filter(named()),
                            blocks_from(
                                data@,
                                off + block,
                                size as int,
                                sector_size as int,
                            ),
                        );
                    }
                    keep_named(entries, out);
                },
                Err(e) => {
                    return Err(e);
                },
            }
        }
        off = off + block;
    }
    proof {
        walk::lemma_chain_done(walk::models(out@));
    }
    Ok(())
}

/// Whether the block at `off` carries the `INDX` signature.
fn signed_indx(data: &[u8], off: usize, block: usize) -> (r: bool)
    requires
        off + block <= data.len(),
    ensures
        r == bytes::has_at(data@, off as int, layout::SIGNATURE_INDX@),
{
    if data.len() - off < 4 {
        return false;
    }
    bytes::quad_is(data, off, layout::SIGNATURE_INDX)
}

impl<R: ByteSource> NtfsFs<R> {
    /// Lists a directory's child entries (those carrying a `$FILE_NAME`).
    ///
    /// # Errors
    ///
    /// [`NtfsError::NotADirectory`] if the record has no `$INDEX_ROOT`, plus index errors.
    pub fn directory_entries(&mut self, rec: &[u8]) -> (r: Result<Vec<IndexEntry>, NtfsError>)
        ensures
            final(self)@ == old(self)@,
            final(self).flaky() == old(self).flaky(),
            answered(
                walk::model_list(r),
                old(self)@.listing(rec@),
                old(self).flaky() && old(self)@.listing_is_read(rec@),
            ),
    {
        let attrs = match record_attributes(rec) {
            Ok(list) => list,
            Err(e) => {
                return Err(e);
            },
        };
        let root_attr = match find_type(&attrs, layout::INDEX_ROOT) {
            Some(a) => a,
            None => {
                return Err(NtfsError::NotADirectory("record has no $INDEX_ROOT".to_string()));
            },
        };
        let content = match root_attr.resident_content(rec) {
            Some(c) => c,
            None => {
                return Err(NtfsError::BadIndex("$INDEX_ROOT content out of bounds"));
            },
        };
        let root = match IndexRoot::parse(content) {
            Ok(root) => root,
            Err(e) => {
                return Err(e);
            },
        };
        let mut out: Vec<IndexEntry> = Vec::new();
        let large = root.is_large;
        let ghost root_entries = walk::models(root.entries@);
        keep_named(root.entries, &mut out);
        proof {
            assert(walk::models(Seq::<IndexEntry>::empty()) =~= Seq::<IndexEntryView>::empty());
            assert(walk::models(out@) =~= root_entries.filter(named()));
        }
        if large {
            match find_type(&attrs, layout::INDEX_ALLOCATION) {
                None => {
                    proof {
                        walk::lemma_chain_done(walk::models(out@));
                    }
                },
                Some(alloc) => {
                    let cluster_size: u64 = self.boot.cluster_size();
                    let value = match data::read_attribute_value(
                        &mut self.reader,
                        rec,
                        alloc,
                        cluster_size,
                    ) {
                        Ok(v) => v,
                        Err(e) => {
                            return Err(e);
                        },
                    };
                    match read_blocks(
                        value.as_slice(),
                        self.boot.index_record_size,
                        self.boot.bytes_per_sector as usize,
                        &mut out,
                    ) {
                        Ok(_) => {},
                        Err(e) => {
                            return Err(e);
                        },
                    }
                },
            }
        }
        Ok(out)
    }
}

/// Whether `c` separates path components.
pub open spec fn is_separator(c: char) -> bool {
    c == '\\' || c == '/'
}

/// How many characters come before the first separator.
pub open spec fn leading(path: Seq<char>) -> nat
    decreases path.len(),
{
    if path.len() == 0 || is_separator(path[0]) {
        0
    } else {
        1 + leading(path.skip(1))
    }
}

/// A path has no more leading characters than characters.
pub proof fn lemma_leading_bound(path: Seq<char>)
    ensures
        leading(path) <= path.len(),
    decreases path.len(),
{
    if path.len() > 0 && !is_separator(path[0]) {
        lemma_leading_bound(path.skip(1));
    }
}

/// The non-empty parts of a path between its separators.
pub open spec fn components(path: Seq<char>) -> Seq<Seq<char>>
    decreases path.len(),
{
    if path.len() == 0 {
        Seq::empty()
    } else if is_separator(path[0]) {
        components(path.skip(1))
    } else {
        let n = leading(path);
        proof {
            lemma_leading_bound(path);
        }
        seq![path.take(n as int)] + components(path.skip(n as int))
    }
}

/// A character with ASCII letters in lower case.
pub open spec fn ascii_lower(c: char) -> char {
    if 'A' <= c <= 'Z' {
        (c as u32 + 0x20) as char
    } else {
        c
    }
}

/// Whether two texts differ at most in the case of ASCII letters.
pub open spec fn same_ignoring_ascii_case(a: Seq<char>, b: Seq<char>) -> bool {
    &&& a.len() == b.len()
    &&& forall|i: int| 0 <= i < a.len() ==> ascii_lower(#[trigger] a[i]) == ascii_lower(b[i])
}

/// `str::eq_ignore_ascii_case` compares two strings as if both were in ASCII lower case.
/// Claimed: the answer is that of `same_ignoring_ascii_case`.
pub assume_specification[ str::eq_ignore_ascii_case ](s: &str, other: &str) -> (r: bool)
    ensures
        r == same_ignoring_ascii_case(s@, other@),
;

/// Whether an attribute holds its whole stream: a resident one does, and a mapped one
/// whose runs begin with the stream and allocate all that the attribute declares.
pub open spec fn covers_stream(rec: Seq<u8>, a: AttributeView, cluster_size: int) -> bool {
    match a.body {
        AttributeBody::Resident { .. } => true,
        AttributeBody::NonResident { start_vcn, allocated_size, real_size, .. } => {
            &&& start_vcn == 0
            &&& data::runlist_of(rec, a) matches Ok(runs) && data::allocated(
                runs,
                cluster_size,
            ) matches Ok(total) && allocated_size <= total && real_size <= total
        },
    }
}

/// Selects the entries whose name matches a path component.
pub open spec fn matching(component: Seq<char>) -> spec_fn(IndexEntryView) -> bool {
    |e: IndexEntryView|
        e.file_name matches Some(f) && same_ignoring_ascii_case(f.name, component)
}

/// One part of a stream: an attribute and the record that holds it.
#[verifier::ext_equal]
pub struct PieceView {
    pub record: Seq<u8>,
    pub attribute: AttributeView,
}

/// Selects the list entries of a stream.
pub open spec fn listed_stream(stream: Option<Seq<char>>) -> spec_fn(ListEntryView) -> bool {
    |e: ListEntryView| e.type_code == layout::DATA && e.name == stream
}

/// The pieces of a stream that has none listed: the `$DATA` in the record itself.
pub open spec fn own_pieces(
    rec: Seq<u8>,
    attrs: Seq<AttributeView>,
    stream: Option<Seq<char>>,
) -> Seq<PieceView> {
    match walk::first(attrs, of_stream(stream, None)) {
        None => Seq::empty(),
        Some(attribute) => seq![PieceView { record: rec, attribute }],
    }
}

/// The runs of all the pieces from `i` on, in order.
pub open spec fn piece_runs(pieces: Seq<PieceView>, i: int) -> Result<Seq<Run>, NtfsError>
    decreases pieces.len() - i,
{
    if i < 0 || i >= pieces.len() {
        Ok(Seq::empty())
    } else {
        match data::runlist_of(pieces[i].record, pieces[i].attribute) {
            Err(e) => Err(e),
            Ok(runs) => walk::chain(runs, piece_runs(pieces, i + 1)),
        }
    }
}

/// The end of a message about a missing stream.
pub open spec fn stream_suffix(stream: Option<Seq<char>>) -> Seq<char> {
    match stream {
        Some(name) => ":"@ + name,
        None => "::$DATA"@,
    }
}

impl Volume {
    /// The record number of the child of directory record `parent` that a path component
    /// names.
    pub open spec fn child(self, parent: int, component: Seq<char>) -> Result<u64, FsErrorView> {
        match self.record(parent) {
            Err(e) => Err(error_view(e)),
            Ok(rec) => match self.listing(rec) {
                Err(e) => Err(e),
                Ok(entries) => match walk::first(entries, matching(component)) {
                    None => Err(FsErrorView::NotFound(component)),
                    Some(entry) => Ok(entry.file_reference.record_number),
                },
            },
        }
    }

    /// The record number that path components lead to, starting from record `from`.
    pub open spec fn resolved(self, parts: Seq<Seq<char>>, from: u64) -> Result<u64, FsErrorView>
        decreases parts.len(),
    {
        if parts.len() == 0 {
            Ok(from)
        } else {
            match self.child(from as int, parts[0]) {
                Err(e) => Err(e),
                Ok(next) => self.resolved(parts.skip(1), next),
            }
        }
    }

    /// The record number of the file at `path`.
    pub open spec fn located(self, path: Seq<char>) -> Result<u64, FsErrorView> {
        self.resolved(components(path), layout::ROOT_RECORD)
    }

    /// The piece that a list entry points at: the `$DATA` of that name and id in the
    /// record that the entry refers to.
    pub open spec fn listed_piece(self, entry: ListEntryView) -> Result<PieceView, NtfsError> {
        match self.record(entry.base_reference.record_number as int) {
            Err(e) => Err(e),
            Ok(rec) => match attributes_of(rec) {
                Err(e) => Err(e),
                Ok(attrs) => match walk::first(
                    attrs,
                    of_stream(entry.name, Some(entry.attribute_id)),
                ) {
                    None => Err(NtfsError::BadAttributeList("listed attribute not found")),
                    Some(attribute) => Ok(PieceView { record: rec, attribute }),
                },
            },
        }
    }

    /// The pieces that the list entries from `i` on point at.
    pub open spec fn listed_pieces(self, entries: Seq<ListEntryView>, i: int) -> Result<
        Seq<PieceView>,
        NtfsError,
    >
        decreases entries.len() - i,
    {
        if i < 0 || i >= entries.len() {
            Ok(Seq::empty())
        } else {
            match self.listed_piece(entries[i]) {
                Err(e) => Err(e),
                Ok(piece) => walk::chain(seq![piece], self.listed_pieces(entries, i + 1)),
            }
        }
    }

    /// The pieces of a stream that the `$ATTRIBUTE_LIST` of a record points at: none when
    /// it has no list, or the list does not mention the stream.
    pub open spec fn pieces_listed(
        self,
        rec: Seq<u8>,
        attrs: Seq<AttributeView>,
        stream: Option<Seq<char>>,
    ) -> Result<Seq<PieceView>, NtfsError> {
        match walk::first(attrs, of_type(layout::ATTRIBUTE_LIST)) {
            None => Ok(Seq::empty()),
            Some(list) => match data::attribute_value(self.image, rec, list, self.cluster_size()) {
                Err(e) => Err(e),
                Ok(value) => match attribute_list::parsed_list(value) {
                    Err(e) => Err(e),
                    Ok(entries) => self.listed_pieces(entries.filter(listed_stream(stream)), 0),
                },
            },
        }
    }

    /// The pieces that make up a stream of the file whose base record is `rec`. A `$DATA`
    /// of the record itself that covers the whole stream is the stream. Else the
    /// `$ATTRIBUTE_LIST` says where the pieces are; where it says nothing of the stream,
    /// or cannot be followed, what the record itself has is the stream.
    pub open spec fn pieces(self, rec: Seq<u8>, stream: Option<Seq<char>>) -> Result<
        Seq<PieceView>,
        NtfsError,
    > {
        match attributes_of(rec) {
            Err(e) => Err(e),
            Ok(attrs) => {
                let own = own_pieces(rec, attrs, stream);
                if own.len() > 0 && covers_stream(rec, own[0].attribute, self.cluster_size()) {
                    Ok(own)
                } else {
                    match self.pieces_listed(rec, attrs, stream) {
                        Ok(listed) => if listed.len() == 0 {
                            Ok(own)
                        } else {
                            Ok(listed)
                        },
                        Err(e) => if own.len() > 0 {
                            Ok(own)
                        } else {
                            Err(e)
                        },
                    }
                }
            },
        }
    }

    /// The first `cap` bytes of the stream that `pieces` make up: the inline value of a
    /// resident first piece, and else what the runs of all the pieces hold.
    pub open spec fn pieces_value(self, pieces: Seq<PieceView>, cap: int) -> Result<
        Seq<u8>,
        NtfsError,
    > {
        let first = pieces[0].attribute;
        match first.body {
            AttributeBody::Resident { .. } => match data::attribute_value(
                self.image,
                pieces[0].record,
                first,
                self.cluster_size(),
            ) {
                Err(e) => Err(e),
                Ok(value) => Ok(value.take(data::least(value.len() as int, cap))),
            },
            AttributeBody::NonResident { real_size, .. } => match piece_runs(pieces, 0) {
                Err(e) => Err(e),
                Ok(runs) => data::stream_value(
                    self.image,
                    runs,
                    self.cluster_size(),
                    data::least(real_size as int, cap),
                    first.compressed(),
                    first.unit_shift(),
                    first.offset,
                ),
            },
        }
    }

    /// The first `cap` bytes of a stream of record `entry`. `label` begins the message
    /// about a missing stream.
    pub open spec fn stream(
        self,
        entry: int,
        stream: Option<Seq<char>>,
        cap: int,
        label: Seq<char>,
    ) -> Result<Seq<u8>, FsErrorView> {
        match self.record(entry) {
            Err(e) => Err(error_view(e)),
            Ok(rec) => match self.pieces(rec, stream) {
                Err(e) => Err(error_view(e)),
                Ok(pieces) => if pieces.len() == 0 {
                    Err(FsErrorView::NotFound(label + stream_suffix(stream)))
                } else {
                    lift(self.pieces_value(pieces, cap))
                },
            },
        }
    }

    /// The runs of a stream of record `entry`.
    pub open spec fn stream_runs(self, entry: int, stream: Option<Seq<char>>) -> Result<
        Seq<Run>,
        FsErrorView,
    > {
        match self.record(entry) {
            Err(e) => Err(error_view(e)),
            Ok(rec) => match self.pieces(rec, stream) {
                Err(e) => Err(error_view(e)),
                Ok(pieces) => if pieces.len() == 0 {
                    Err(FsErrorView::NotFound(stream_suffix(stream)))
                } else {
                    lift(piece_runs(pieces, 0))
                },
            },
        }
    }

    /// Whether reading the file at `path` may ask the source for bytes.
    pub open spec fn path_is_reached(self, path: Seq<char>) -> bool {
        components(path).len() > 0 || self.is_reached(layout::ROOT_RECORD as int)
    }

    /// The stream of the file at `path`.
    pub open spec fn file_stream(self, path: Seq<char>, stream: Option<Seq<char>>) -> Result<
        Seq<u8>,
        FsErrorView,
    > {
        match self.located(path) {
            Err(e) => Err(e),
            Ok(entry) => self.stream(entry as int, stream, u64::MAX as int, path),
        }
    }
}

/// The characters of a string.
fn chars_of(s: &str) -> (r: Vec<char>)
    ensures
        r@ == s@,
{
    let mut out: Vec<char> = Vec::new();
    for c in it: s.chars()
        invariant
            it.seq() == s@,
            out@ == s@.take(it.index() as int),
    {
        out.push(c);
        assert(out@ =~= s@.take(it.index() + 1));
    }
    assert(s@.take(s@.len() as int) =~= s@);
    out
}

proof fn lemma_leading(path: Seq<char>, n: int)
    requires
        0 <= n <= path.len(),
        forall|j: int| 0 <= j < n ==> !is_separator(#[trigger] path[j]),
        n == path.len() || is_separator(path[n]),
    ensures
        leading(path) == n,
    decreases n,
{
    if n > 0 {
        lemma_leading(path.skip(1), n - 1);
    }
}

/// Where the path component that begins at `pos` ends.
fn component_end(chars: &Vec<char>, pos: usize) -> (r: usize)
    requires
        pos < chars.len(),
        !is_separator(chars@[pos as int]),
    ensures
        pos < r <= chars@.len(),
        leading(chars@.skip(pos as int)) == r - pos,
{
    let mut end: usize = pos + 1;
    while end < chars.len() && chars[end] != '\\' && chars[end] != '/'
        invariant
            pos < end <= chars.len(),
            forall|j: int| pos <= j < end ==> !is_separator(#[trigger] chars@[j]),
        decreases chars.len() - end,
    {
        end += 1;
    }
    proof {
        lemma_leading(chars@.skip(pos as int), end - pos);
    }
    end
}

/// The first component of the rest of a path, and the components after it.
proof fn lemma_first_component(path: Seq<char>, pos: int, end: int)
    requires
        0 <= pos < end <= path.len(),
        !is_separator(path[pos]),
        leading(path.skip(pos)) == end - pos,
    ensures
        components(path.skip(pos)).len() > 0,
        components(path.skip(pos))[0] == path.subrange(pos, end),
        components(path.skip(pos)).skip(1) == components(path.skip(end)),
{
    let rest = path.skip(pos);
    assert(rest.take(end - pos) =~= path.subrange(pos, end));
    assert(rest.skip(end - pos) =~= path.skip(end));
    assert(components(rest).skip(1) =~= components(path.skip(end)));
}

proof fn lemma_resolved_step(volume: Volume, parts: Seq<Seq<char>>, i: int, from: u64)
    requires
        0 <= i < parts.len(),
    ensures
        volume.resolved(parts.skip(i), from) == (match volume.child(from as int, parts[i]) {
            Err(e) => Err(e),
            Ok(next) => volume.resolved(parts.skip(i + 1), next),
        }),
{
    assert(parts.skip(i)[0] == parts[i]);
    assert(parts.skip(i).skip(1) =~= parts.skip(i + 1));
}

/// Splits a path into its components.
fn split_path(path: &str) -> (r: Vec<String>)
    ensures
        walk::models(r@) == components(path@),
{
    let chars = chars_of(path);
    let ghost list = components(path@);
    let mut parts: Vec<String> = Vec::new();
    let mut pos: usize = 0;
    proof {
        assert(path@.skip(0) =~= path@);
        assert(walk::models(parts@) =~= Seq::empty());
        assert(Seq::<Seq<char>>::empty() + list =~= list);
    }
    while pos < chars.len()
        invariant
            pos <= chars.len(),
            chars@ == path@,
            list == walk::models(parts@) + components(path@.skip(pos as int)),
        decreases chars.len() - pos,
    {
        let ghost rest = path@.skip(pos as int);
        if chars[pos] == '\\' || chars[pos] == '/' {
            assert(rest.skip(1) =~= path@.skip(pos + 1));
            pos += 1;
            continue ;
        }
        let end: usize = component_end(&chars, pos);
        let part = path.substring_char(pos, end).to_string();
        proof {
            lemma_first_component(path@, pos as int, end as int);
            walk::lemma_models_push(parts@, part);
            let after = components(path@.skip(end as int));
            assert(components(rest) =~= seq![part@] + after);
            assert(walk::models(parts@) + (seq![part@] + after) =~= walk::models(parts@).push(
                part@,
            ) + after);
        }
        parts.push(part);
        pos = end;
    }
    proof {
        assert(path@.skip(pos as int) =~= Seq::empty());
        assert(walk::models(parts@) + Seq::<Seq<char>>::empty() =~= walk::models(parts@));
    }
    parts
}

impl<R: ByteSource> NtfsFs<R> {
    /// The child of directory record `parent` that a path component names.
    fn find_child(&mut self, parent: u64, component: &str) -> (r: Result<u64, NtfsError>)
        ensures
            final(self)@ == old(self)@,
            final(self).flaky() == old(self).flaky(),
            answered(
                r,
                old(self)@.child(parent as int, component@),
                old(self).flaky(),
            ),
    {
        let rec = match self.read_record(parent) {
            Ok(rec) => rec,
            Err(e) => {
                return Err(e);
            },
        };
        let entries = match self.directory_entries(rec.as_slice()) {
            Ok(list) => list,
            Err(e) => {
                return Err(e);
            },
        };
        let ghost list = walk::models(entries@);
        let ghost wanted = matching(component@);
        let mut i: usize = 0;
        while i < entries.len()
            invariant
                i <= entries.len(),
                list == walk::models(entries@),
                wanted == matching(component@),
                self@ == old(self)@,
                self.flaky() == old(self).flaky(),
                old(self)@.record(parent as int) == Ok::<Seq<u8>, NtfsError>(rec@),
                old(self)@.listing(rec@) == Ok::<Seq<IndexEntryView>, FsErrorView>(list),
                forall|j: int| 0 <= j < i ==> !wanted(#[trigger] list[j]),
            decreases entries.len() - i,
        {
            let found = match &entries[i].file_name {
                Some(f) => f.name.as_str().eq_ignore_ascii_case(component),
                None => false,
            };
            assert(list[i as int] == entries@[i as int]@);
            if found {
                proof {
                    walk::lemma_first_skip(list, wanted, i as int);
                }
                return Ok(entries[i].file_reference.record_number);
            }
            i += 1;
        }
        proof {
            walk::lemma_first_skip(list, wanted, i as int);
        }
        Err(NtfsError::NotFound(component.to_string()))
    }

    /// Resolves a `\`- or `/`-separated path to an MFT record number. Names match
    /// whatever the case of their ASCII letters.
    ///
    /// # Errors
    ///
    /// [`NtfsError::NotFound`] for a missing component, plus record and directory errors.
    pub fn resolve_path(&mut self, path: &str) -> (r: Result<u64, NtfsError>)
        ensures
            final(self)@ == old(self)@,
            final(self).flaky() == old(self).flaky(),
            answered(
                r,
                old(self)@.located(path@),
                old(self).flaky() && components(path@).len() > 0,
            ),
    {
        let parts = split_path(path);
        let ghost list = components(path@);
        let ghost volume = self@;
        let ghost whole = volume.located(path@);
        let mut current: u64 = layout::ROOT_RECORD;
        let mut i: usize = 0;
        proof {
            assert(list.skip(0) =~= list);
            assert forall|k: int| 0 <= k < list.len() implies #[trigger] list[k] == parts@[k]@ by {
                assert(walk::models(parts@)[k] == parts@[k]@);
            }
        }
        while i < parts.len()
            invariant
                i <= parts.len(),
                parts@.len() == list.len(),
                list == components(path@),
                forall|k: int| 0 <= k < list.len() ==> #[trigger] list[k] == parts@[k]@,
                self@ == volume,
                volume == old(self)@,
                self.flaky() == old(self).flaky(),
                whole == volume.located(path@),
                whole == volume.resolved(list.skip(i as int), current),
            decreases parts.len() - i,
        {
            proof {
                lemma_resolved_step(volume, list, i as int, current);
            }
            match self.find_child(current, parts[i].as_str()) {
                Ok(next) => {
                    current = next;
                },
                Err(e) => {
                    return Err(e);
                },
            }
            i += 1;
        }
        assert(list.skip(i as int) =~= Seq::empty());
        Ok(current)
    }
}

/// One part of a stream: an attribute and the record that holds it.
struct StreamPiece {
    record: Vec<u8>,
    attribute: Attribute,
}

impl View for StreamPiece {
    type V = PieceView;

    closed spec fn view(&self) -> PieceView {
        PieceView { record: self.record@, attribute: self.attribute@ }
    }
}

/// Keeps the list entries of a stream.
fn keep_stream(entries: Vec<AttributeListEntry>, stream: &Option<String>) -> (r: Vec<
    AttributeListEntry,
>)
    ensures
        walk::models(r@) == walk::models(entries@).filter(
            listed_stream(attribute::name_view(*stream)),
        ),
{
    let ghost list = walk::models(entries@);
    let ghost wanted = listed_stream(attribute::name_view(*stream));
    let mut out: Vec<AttributeListEntry> = Vec::new();
    proof {
        assert(list.take(0) =~= Seq::empty());
        reveal(Seq::filter);
        assert(list.take(0).filter(wanted) =~= Seq::empty());
        assert(walk::models(out@) =~= Seq::empty());
    }
    for entry in it: entries
        invariant
            list == walk::models(it.seq()),
            wanted == listed_stream(attribute::name_view(*stream)),
            walk::models(out@) == list.take(it.index() as int).filter(wanted),
    {
        proof {
            let n = it.index() as int;
            walk::lemma_filter_step(list, wanted, n);
            assert(list[n] == entry@);
            walk::lemma_models_push(out@, entry);
        }
        if entry.type_code == layout::DATA && same_name(&entry.name, stream) {
            out.push(entry);
        }
    }
    assert(list.take(list.len() as int) =~= list);
    out
}

/// Concatenates the runs of all the pieces.
fn join_runs(pieces: &Vec<StreamPiece>) -> (r: Result<Vec<Run>, NtfsError>)
    ensures
        match r {
            Ok(runs) => piece_runs(walk::models(pieces@), 0) == Ok::<Seq<Run>, NtfsError>(runs@),
            Err(e) => piece_runs(walk::models(pieces@), 0) == Err::<Seq<Run>, NtfsError>(e),
        },
{
    let ghost list = walk::models(pieces@);
    let mut out: Vec<Run> = Vec::new();
    let mut i: usize = 0;
    proof {
        walk::lemma_chain_empty(piece_runs(list, 0));
    }
    while i < pieces.len()
        invariant
            i <= pieces.len(),
            list == walk::models(pieces@),
            piece_runs(list, 0) == walk::chain(out@, piece_runs(list, i as int)),
        decreases pieces.len() - i,
    {
        assert(list[i as int] == pieces@[i as int]@);
        match data::attribute_runlist(pieces[i].record.as_slice(), &pieces[i].attribute) {
            Ok(mut runs) => {
                proof {
                    data::lemma_chain_append(out@, runs@, piece_runs(list, i + 1));
                }
                out.append(&mut runs);
            },
            Err(e) => {
                return Err(e);
            },
        }
        i += 1;
    }
    proof {
        walk::lemma_chain_done(out@);
    }
    Ok(out)
}

/// The piece of a stream in the base record itself.
fn own_piece(record: Vec<u8>, attrs: Vec<Attribute>, stream: &Option<String>) -> (r: Vec<StreamPiece>)
    ensures
        walk::models(r@) == own_pieces(
            record@,
            walk::models(attrs@),
            attribute::name_view(*stream),
        ),
{
    let mut attrs = attrs;
    let mut out: Vec<StreamPiece> = Vec::new();
    assert(walk::models(out@) =~= Seq::empty());
    match find_stream(&attrs, stream, None) {
        None => {},
        Some(i) => {
            let attribute = attrs.remove(i);
            let piece = StreamPiece { record, attribute };
            proof {
                walk::lemma_models_push(out@, piece);
                assert(Seq::<PieceView>::empty().push(piece@) =~= seq![piece@]);
            }
            out.push(piece);
        },
    }
    out
}

/// Whether an attribute holds its whole stream.
fn is_whole(rec: &[u8], a: &Attribute, cluster_size: u64) -> (r: bool)
    ensures
        r == covers_stream(rec@, a@, cluster_size as int),
{
    match a.body {
        AttributeBody::Resident { .. } => true,
        AttributeBody::NonResident { start_vcn, allocated_size, real_size, .. } => {
            if start_vcn != 0 {
                return false;
            }
            match data::attribute_runlist(rec, a) {
                Ok(runs) => match data::allocated_bytes(runs.as_slice(), cluster_size) {
                    Ok(total) => allocated_size <= total && real_size <= total,
                    Err(_) => false,
                },
                Err(_) => false,
            }
        },
    }
}

/// Whether an outcome does not blame the source.
spec fn blames_no_source<T>(r: Result<T, NtfsError>) -> bool {
    r matches Err(e) ==> !source::source_failed(e)
}

proof fn lemma_runlists_blame_no_source(bytes: Seq<u8>, pos: int, lcn: int, fuel: nat)
    ensures
        blames_no_source(runlist::runs_from(bytes, pos, lcn, fuel)),
    decreases fuel,
{
    if fuel > 0 && pos < bytes.len() && bytes[pos] != 0 {
        if let Ok(run) = runlist::run_at(bytes, pos, lcn) {
            let next_pos = pos + 1 + runlist::length_width(bytes[pos]) + runlist::delta_width(
                bytes[pos],
            );
            let next_lcn = match run.lcn {
                Some(l) => l as int,
                None => lcn,
            };
            lemma_runlists_blame_no_source(bytes, next_pos, next_lcn, (fuel - 1) as nat);
        }
    }
}

proof fn lemma_allocation_blames_no_source(runs: Seq<Run>, cluster_size: int)
    ensures
        blames_no_source(data::allocated(runs, cluster_size)),
    decreases runs.len(),
{
    if runs.len() > 0 {
        lemma_allocation_blames_no_source(runs.drop_last(), cluster_size);
    }
}

proof fn lemma_run_bytes_blame_no_source(
    image: Seq<u8>,
    runs: Seq<Run>,
    cluster_size: int,
    i: int,
    remaining: int,
)
    ensures
        blames_no_source(data::bytes_from(image, runs, cluster_size, i, remaining)),
    decreases runs.len() - i,
{
    if remaining > 0 && i < runs.len() {
        let take = data::least(runs[i].length * cluster_size, remaining);
        lemma_run_bytes_blame_no_source(image, runs, cluster_size, i + 1, remaining - take);
    }
}

proof fn lemma_gathering_blames_no_source(
    image: Seq<u8>,
    runs: Seq<Run>,
    cluster_size: int,
    run: int,
    used: int,
    need: int,
)
    ensures
        blames_no_source(data::gathered(image, runs, cluster_size, run, used, need)),
    decreases runs.len() - run, need,
{
    if need > 0 && run < runs.len() {
        let take = data::least(need, runs[run].length - used);
        if used + take == runs[run].length {
            lemma_gathering_blames_no_source(image, runs, cluster_size, run + 1, 0, need - take);
        } else if take > 0 {
            lemma_gathering_blames_no_source(
                image,
                runs,
                cluster_size,
                run,
                used + take,
                need - take,
            );
        }
    }
}

proof fn lemma_units_blame_no_source(
    image: Seq<u8>,
    runs: Seq<Run>,
    cluster_size: int,
    unit: int,
    real_size: int,
    run: int,
    used: int,
    out: Seq<u8>,
)
    ensures
        blames_no_source(
            data::units_from(image, runs, cluster_size, unit, real_size, run, used, out),
        ),
    decreases data::clusters_left(runs, run, used),
{
    if out.len() < real_size && data::place_ok(runs, run, used) && unit >= 0 {
        lemma_gathering_blames_no_source(image, runs, cluster_size, run, used, unit);
        data::lemma_gathered_advances(image, runs, cluster_size, run, used, unit);
        if let Ok(g) = data::gathered(image, runs, cluster_size, run, used, unit) {
            data::lemma_clusters_left_is_positive(runs, g.run, g.used);
            if g.got > 0 {
                if let Ok(piece) = data::unit_bytes(
                    g.stored,
                    g.solid,
                    unit,
                    cluster_size,
                    real_size - out.len(),
                ) {
                    lemma_units_blame_no_source(
                        image,
                        runs,
                        cluster_size,
                        unit,
                        real_size,
                        g.run,
                        g.used,
                        out + piece,
                    );
                }
            }
        }
    }
}

proof fn lemma_values_blame_no_source(
    image: Seq<u8>,
    rec: Seq<u8>,
    a: AttributeView,
    cluster_size: int,
)
    ensures
        blames_no_source(data::attribute_value(image, rec, a, cluster_size)),
{
    if let AttributeBody::NonResident { real_size, runs_offset, .. } = a.body {
        let start = a.offset + runs_offset;
        let end = a.offset + a.length;
        lemma_runlists_blame_no_source(
            rec.subrange(start, end),
            0,
            0,
            runlist::MAX_RUNS as nat,
        );
        if let Ok(runs) = data::runlist_of(rec, a) {
            lemma_allocation_blames_no_source(runs, cluster_size);
            if let Ok(total) = data::allocated(runs, cluster_size) {
                let want = data::least(real_size as int, total);
                lemma_run_bytes_blame_no_source(image, runs, cluster_size, 0, want);
            }
            let unit = vstd::arithmetic::power2::pow2(a.unit_shift() as nat) as int;
            lemma_units_blame_no_source(
                image,
                runs,
                cluster_size,
                unit,
                real_size as int,
                0,
                0,
                Seq::empty(),
            );
        }
    }
}

proof fn lemma_virtual_bytes_blame_no_source(
    image: Seq<u8>,
    runs: Seq<Run>,
    cluster_size: int,
    i: int,
    base: int,
    pos: int,
    len: int,
)
    ensures
        blames_no_source(virtual_from(image, runs, cluster_size, i, base, pos, len)),
    decreases runs.len() - i,
{
    if len > 0 && i < runs.len() {
        let size = runs[i].length * cluster_size;
        let take = data::least(size - (pos - base), len);
        if pos >= base + size {
            lemma_virtual_bytes_blame_no_source(
                image,
                runs,
                cluster_size,
                i + 1,
                base + size,
                pos,
                len,
            );
        } else {
            lemma_virtual_bytes_blame_no_source(
                image,
                runs,
                cluster_size,
                i + 1,
                base + size,
                pos + take,
                len - take,
            );
        }
    }
}

proof fn lemma_fixups_blame_no_source(
    buf: Seq<u8>,
    sector_size: int,
    usa: int,
    usn: u16,
    i: int,
    n: int,
)
    ensures
        blames_no_source(record::fixup_from(buf, sector_size, usa, usn, i, n).1),
    decreases n - i,
{
    let tail = record::sector_tail(sector_size, i);
    if i < n && bytes::u16_at(buf, tail) == usn {
        lemma_fixups_blame_no_source(
            record::copy_pair(buf, tail, usa + 2 + 2 * i),
            sector_size,
            usa,
            usn,
            i + 1,
            n,
        );
    }
}

proof fn lemma_records_blame_no_source(volume: Volume, n: int)
    ensures
        blames_no_source(volume.record(n)),
{
    let size = volume.boot.mft_record_size as int;
    let sector_size = volume.boot.bytes_per_sector as int;
    lemma_virtual_bytes_blame_no_source(
        volume.image,
        volume.mft_runs,
        volume.cluster_size(),
        0,
        0,
        n * size,
        size,
    );
    if let Ok(raw) = virtual_value(
        volume.image,
        volume.mft_runs,
        volume.cluster_size(),
        n * size,
        size,
    ) {
        let usa = bytes::u16_at(raw, 0x04) as int;
        lemma_fixups_blame_no_source(
            raw,
            sector_size,
            usa,
            bytes::u16_at(raw, usa),
            0,
            bytes::u16_at(raw, 0x06) - 1,
        );
    }
}

proof fn lemma_attributes_blame_no_source(rec: Seq<u8>, pos: int, fuel: nat)
    ensures
        blames_no_source(attribute::attributes_from(rec, pos, fuel)),
    decreases fuel,
{
    if fuel > 0 && pos + 4 <= rec.len() && bytes::u32_at(rec, pos) != layout::ATTRIBUTES_END {
        if let Ok(a) = attribute::attribute_at(rec, pos) {
            lemma_attributes_blame_no_source(rec, pos + a.length, (fuel - 1) as nat);
        }
    }
}

proof fn lemma_list_entries_blame_no_source(content: Seq<u8>, pos: int, fuel: nat)
    ensures
        blames_no_source(attribute_list::entries_from(content, pos, fuel)),
    decreases fuel,
{
    if fuel > 0 && pos + attribute_list::ENTRY_MIN <= content.len() {
        if let Ok(entry) = attribute_list::entry_at(content, pos) {
            let length = bytes::u16_at(content, pos + 0x04);
            lemma_list_entries_blame_no_source(content, pos + length, (fuel - 1) as nat);
        }
    }
}

proof fn lemma_listed_pieces_blame_no_source(volume: Volume, entries: Seq<ListEntryView>, i: int)
    ensures
        blames_no_source(volume.listed_pieces(entries, i)),
    decreases entries.len() - i,
{
    if 0 <= i < entries.len() {
        let n = entries[i].base_reference.record_number as int;
        lemma_records_blame_no_source(volume, n);
        if let Ok(rec) = volume.record(n) {
            if let Ok(header) = record::parsed_header(rec) {
                lemma_attributes_blame_no_source(
                    rec,
                    header.first_attribute_offset as int,
                    attribute::MAX_ATTRIBUTES as nat,
                );
            }
        }
        lemma_listed_pieces_blame_no_source(volume, entries, i + 1);
    }
}

/// What the bytes of a volume decide is never a failure of the source.
proof fn lemma_lists_blame_no_source(
    volume: Volume,
    rec: Seq<u8>,
    attrs: Seq<AttributeView>,
    stream: Option<Seq<char>>,
)
    ensures
        blames_no_source(volume.pieces_listed(rec, attrs, stream)),
{
    if let Some(list) = walk::first(attrs, of_type(layout::ATTRIBUTE_LIST)) {
        lemma_values_blame_no_source(volume.image, rec, list, volume.cluster_size());
        if let Ok(value) = data::attribute_value(
            volume.image,
            rec,
            list,
            volume.cluster_size(),
        ) {
            lemma_list_entries_blame_no_source(value, 0, attribute_list::MAX_ENTRIES as nat);
            if let Ok(entries) = attribute_list::parsed_list(value) {
                lemma_listed_pieces_blame_no_source(
                    volume,
                    entries.filter(listed_stream(stream)),
                    0,
                );
            }
        }
    }
}

/// Whether an error reports that the source failed for a reason of its own.
fn is_source_failure(e: &NtfsError) -> (r: bool)
    ensures
        r == source::source_failed(*e),
{
    match e {
        NtfsError::Io(IoFault::Other(_)) => true,
        _ => false,
    }
}

/// The end of a message about a missing stream.
fn missing_suffix(stream: &Option<String>) -> (r: String)
    ensures
        r@ == stream_suffix(attribute::name_view(*stream)),
{
    match stream {
        Some(name) => {
            let mut text = ":".to_string();
            text.append(name.as_str());
            text
        },
        None => "::$DATA".to_string(),
    }
}

impl<R: ByteSource> NtfsFs<R> {
    /// The piece that a list entry points at.
    fn read_listed(&mut self, entry: &AttributeListEntry) -> (r: Result<StreamPiece, NtfsError>)
        ensures
            final(self)@ == old(self)@,
            final(self).flaky() == old(self).flaky(),
            source::delivered(
                walk::model(r),
                old(self)@.listed_piece(entry@),
                old(self).flaky(),
            ),
    {
        let record = match self.read_record(entry.base_reference.record_number) {
            Ok(rec) => rec,
            Err(e) => {
                return Err(e);
            },
        };
        let mut attrs = match record_attributes(record.as_slice()) {
            Ok(list) => list,
            Err(e) => {
                return Err(e);
            },
        };
        match find_stream(&attrs, &entry.name, Some(entry.attribute_id)) {
            None => Err(NtfsError::BadAttributeList("listed attribute not found")),
            Some(i) => {
                let attribute = attrs.remove(i);
                Ok(StreamPiece { record, attribute })
            },
        }
    }

    /// The pieces that list entries point at.
    fn read_all_listed(&mut self, entries: &Vec<AttributeListEntry>) -> (r: Result<
        Vec<StreamPiece>,
        NtfsError,
    >)
        ensures
            final(self)@ == old(self)@,
            final(self).flaky() == old(self).flaky(),
            source::delivered(
                walk::model_list(r),
                old(self)@.listed_pieces(walk::models(entries@), 0),
                old(self).flaky(),
            ),
    {
        let ghost list = walk::models(entries@);
        let ghost whole = self@.listed_pieces(list, 0);
        let mut out: Vec<StreamPiece> = Vec::new();
        let mut i: usize = 0;
        proof {
            assert(walk::models(out@) =~= Seq::empty());
            walk::lemma_chain_empty(whole);
        }
        while i < entries.len()
            invariant
                i <= entries.len(),
                list == walk::models(entries@),
                self@ == old(self)@,
                self.flaky() == old(self).flaky(),
                whole == old(self)@.listed_pieces(list, 0),
                whole == walk::chain(
                    walk::models(out@),
                    old(self)@.listed_pieces(list, i as int),
                ),
            decreases entries.len() - i,
        {
            assert(list[i as int] == entries@[i as int]@);
            match self.read_listed(&entries[i]) {
                Ok(piece) => {
                    proof {
                        walk::lemma_models_push(out@, piece);
                        walk::lemma_chain_push(
                            walk::models(out@),
                            piece@,
                            old(self)@.listed_pieces(list, i + 1),
                        );
                    }
                    out.push(piece);
                },
                Err(e) => {
                    return Err(e);
                },
            }
            i += 1;
        }
        proof {
            walk::lemma_chain_done(walk::models(out@));
        }
        Ok(out)
    }

    /// The pieces of a stream that the `$ATTRIBUTE_LIST` of a record points at.
    fn find_listed(
        &mut self,
        record: &[u8],
        attrs: &Vec<Attribute>,
        stream: &Option<String>,
    ) -> (r: Result<Vec<StreamPiece>, NtfsError>)
        ensures
            final(self)@ == old(self)@,
            final(self).flaky() == old(self).flaky(),
            source::delivered(
                walk::model_list(r),
                old(self)@.pieces_listed(
                    record@,
                    walk::models(attrs@),
                    attribute::name_view(*stream),
                ),
                old(self).flaky(),
            ),
    {
        let list = match find_type(attrs, layout::ATTRIBUTE_LIST) {
            None => {
                let none: Vec<StreamPiece> = Vec::new();
                assert(walk::models(none@) =~= Seq::empty());
                return Ok(none);
            },
            Some(a) => a,
        };
        let cluster_size: u64 = self.boot.cluster_size();
        let value = match data::read_attribute_value(
            &mut self.reader,
            record,
            list,
            cluster_size,
        ) {
            Ok(v) => v,
            Err(e) => {
                return Err(e);
            },
        };
        match attribute_list::parse(value.as_slice()) {
            Ok(entries) => {
                let listed = keep_stream(entries, stream);
                self.read_all_listed(&listed)
            },
            Err(e) => Err(e),
        }
    }

    /// Finds the pieces that make up a stream of the file whose base record is `record`.
    fn find_pieces(&mut self, record: Vec<u8>, stream: &Option<String>) -> (r: Result<
        Vec<StreamPiece>,
        NtfsError,
    >)
        ensures
            final(self)@ == old(self)@,
            final(self).flaky() == old(self).flaky(),
            source::delivered(
                walk::model_list(r),
                old(self)@.pieces(record@, attribute::name_view(*stream)),
                old(self).flaky(),
            ),
    {
        let attrs = match record_attributes(record.as_slice()) {
            Ok(list) => list,
            Err(e) => {
                return Err(e);
            },
        };
        let cluster_size: u64 = self.boot.cluster_size();
        let (own, whole): (bool, bool) = match find_stream(&attrs, stream, None) {
            Some(i) => (true, is_whole(record.as_slice(), &attrs[i], cluster_size)),
            None => (false, false),
        };
        if own && whole {
            return Ok(own_piece(record, attrs, stream));
        }
        match self.find_listed(record.as_slice(), &attrs, stream) {
            Ok(listed) => {
                if listed.len() == 0 {
                    Ok(own_piece(record, attrs, stream))
                } else {
                    Ok(listed)
                }
            },
            Err(e) => {
                proof {
                    lemma_lists_blame_no_source(
                        self@,
                        record@,
                        walk::models(attrs@),
                        attribute::name_view(*stream),
                    );
                }
                if own && !is_source_failure(&e) {
                    Ok(own_piece(record, attrs, stream))
                } else {
                    Err(e)
                }
            },
        }
    }

    /// Reads the first `cap` bytes of the stream that `pieces` make up.
    fn read_pieces(&mut self, pieces: &Vec<StreamPiece>, cap: u64) -> (r: Result<
        Vec<u8>,
        NtfsError,
    >)
        requires
            pieces@.len() > 0,
        ensures
            final(self)@ == old(self)@,
            final(self).flaky() == old(self).flaky(),
            source::delivered(
                walk::model(r),
                old(self)@.pieces_value(walk::models(pieces@), cap as int),
                old(self).flaky(),
            ),
    {
        assert(walk::models(pieces@)[0] == pieces@[0]@);
        let cluster_size: u64 = self.boot.cluster_size();
        match pieces[0].attribute.body {
            AttributeBody::Resident { .. } => {
                let mut value = match data::read_attribute_value(
                    &mut self.reader,
                    pieces[0].record.as_slice(),
                    &pieces[0].attribute,
                    cluster_size,
                ) {
                    Ok(v) => v,
                    Err(e) => {
                        return Err(e);
                    },
                };
                let ghost all = value@;
                if cap < value.len() as u64 {
                    value.truncate(cap as usize);
                }
                assert(value@ =~= all.take(data::least(all.len() as int, cap as int)));
                Ok(value)
            },
            AttributeBody::NonResident { real_size, .. } => {
                let runs = match join_runs(pieces) {
                    Ok(runs) => runs,
                    Err(e) => {
                        return Err(e);
                    },
                };
                let size: u64 = if real_size < cap {
                    real_size
                } else {
                    cap
                };
                data::read_stream(
                    &mut self.reader,
                    runs.as_slice(),
                    cluster_size,
                    size,
                    pieces[0].attribute.is_compressed(),
                    pieces[0].attribute.compression_unit(),
                    pieces[0].attribute.offset,
                )
            },
        }
    }

    /// Reads the first `cap` bytes of a stream of record `entry`.
    fn read_stream_of(
        &mut self,
        entry: u64,
        stream: &Option<String>,
        cap: u64,
        label: &str,
    ) -> (r: Result<Vec<u8>, NtfsError>)
        ensures
            final(self)@ == old(self)@,
            final(self).flaky() == old(self).flaky(),
            answered(
                walk::model(r),
                old(self)@.stream(
                    entry as int,
                    attribute::name_view(*stream),
                    cap as int,
                    label@,
                ),
                old(self).flaky() && old(self)@.is_reached(entry as int),
            ),
    {
        let record = match self.read_record(entry) {
            Ok(rec) => rec,
            Err(e) => {
                return Err(e);
            },
        };
        let pieces = match self.find_pieces(record, stream) {
            Ok(p) => p,
            Err(e) => {
                return Err(e);
            },
        };
        if pieces.len() == 0 {
            let mut text = label.to_string();
            let suffix = missing_suffix(stream);
            text.append(suffix.as_str());
            return Err(NtfsError::NotFound(text));
        }
        self.read_pieces(&pieces, cap)
    }

    /// Reads the first `cap` bytes of a `$DATA` stream of MFT record `entry`: the unnamed
    /// one when `stream` is `None`.
    ///
    /// # Errors
    ///
    /// [`NtfsError::NotFound`] if the record has no such stream, plus record and data
    /// errors.
    pub fn read_data_by_record(&mut self, entry: u64, stream: &Option<String>, cap: u64) -> (r:
        Result<Vec<u8>, NtfsError>)
        ensures
            final(self)@ == old(self)@,
            final(self).flaky() == old(self).flaky(),
            answered(
                walk::model(r),
                old(self)@.stream(
                    entry as int,
                    attribute::name_view(*stream),
                    cap as int,
                    ""@,
                ),
                old(self).flaky() && old(self)@.is_reached(entry as int),
            ),
    {
        self.read_stream_of(entry, stream, cap, "")
    }

    /// Reads the `$DATA` stream of the file at `path`.
    fn read_data_stream(&mut self, path: &str, stream: &Option<String>) -> (r: Result<
        Vec<u8>,
        NtfsError,
    >)
        ensures
            final(self)@ == old(self)@,
            final(self).flaky() == old(self).flaky(),
            answered(
                walk::model(r),
                old(self)@.file_stream(path@, attribute::name_view(*stream)),
                old(self).flaky() && old(self)@.path_is_reached(path@),
            ),
    {
        match self.resolve_path(path) {
            Ok(entry) => self.read_stream_of(entry, stream, u64::MAX, path),
            Err(e) => Err(e),
        }
    }

    /// Reads a file's unnamed (default) `$DATA` by path.
    ///
    /// # Errors
    ///
    /// [`NtfsError::NotFound`] if the path or its `$DATA` is missing.
    pub fn read_file(&mut self, path: &str) -> (r: Result<Vec<u8>, NtfsError>)
        ensures
            final(self)@ == old(self)@,
            final(self).flaky() == old(self).flaky(),
            answered(
                walk::model(r),
                old(self)@.file_stream(path@, None),
                old(self).flaky() && old(self)@.path_is_reached(path@),
            ),
    {
        let unnamed: Option<String> = None;
        self.read_data_stream(path, &unnamed)
    }

    /// Reads a named `$DATA` stream, an alternate data stream (ADS), by path and stream
    /// name (e.g. `$UsnJrnl`'s `$J`, or a file's `Zone.Identifier`).
    ///
    /// # Errors
    ///
    /// [`NtfsError::NotFound`] if the path or the named stream is missing.
    pub fn read_named_stream(&mut self, path: &str, stream: &str) -> (r: Result<
        Vec<u8>,
        NtfsError,
    >)
        ensures
            final(self)@ == old(self)@,
            final(self).flaky() == old(self).flaky(),
            answered(
                walk::model(r),
                old(self)@.file_stream(path@, Some(stream@)),
                old(self).flaky() && old(self)@.path_is_reached(path@),
            ),
    {
        let name: Option<String> = Some(stream.to_string());
        self.read_data_stream(path, &name)
    }

    /// The runs of a `$DATA` stream of MFT record `entry`.
    ///
    /// # Errors
    ///
    /// [`NtfsError::NotFound`] if the record has no such stream,
    /// [`NtfsError::BadAttribute`] if the stream is resident, plus record and runlist
    /// errors.
    pub fn runs_by_record(&mut self, entry: u64, stream: &Option<String>) -> (r: Result<
        Vec<Run>,
        NtfsError,
    >)
        ensures
            final(self)@ == old(self)@,
            final(self).flaky() == old(self).flaky(),
            answered(
                walk::model(r),
                old(self)@.stream_runs(entry as int, attribute::name_view(*stream)),
                old(self).flaky() && old(self)@.is_reached(entry as int),
            ),
    {
        let record = match self.read_record(entry) {
            Ok(rec) => rec,
            Err(e) => {
                return Err(e);
            },
        };
        let pieces = match self.find_pieces(record, stream) {
            Ok(p) => p,
            Err(e) => {
                return Err(e);
            },
        };
        if pieces.len() == 0 {
            return Err(NtfsError::NotFound(missing_suffix(stream)));
        }
        join_runs(&pieces)
    }
}

proof fn lemma_virtual_bytes(
    image: Seq<u8>,
    runs: Seq<Run>,
    cluster_size: int,
    i: int,
    base: int,
    pos: int,
    len: int,
)
    requires
        0 <= i,
        0 <= cluster_size,
        0 <= len,
        len > 0 ==> base <= pos,
    ensures
        virtual_from(image, runs, cluster_size, i, base, pos, len) matches Ok(v) ==> {
            &&& v.len() == len
            &&& forall|j: int|
                0 <= j < len ==> #[trigger] v[j] == data::virtual_byte(
                    image,
                    runs,
                    cluster_size,
                    i,
                    pos - base + j,
                )
        },
    decreases runs.len() - i,
{
    if len > 0 && i < runs.len() {
        let size = runs[i].length * cluster_size;
        assert(0 <= size) by (nonlinear_arith)
            requires
                0 <= cluster_size,
                0 <= runs[i].length,
                size == runs[i].length * cluster_size,
        ;
        let within = pos - base;
        let take = data::least(size - within, len);
        if pos >= base + size {
            lemma_virtual_bytes(image, runs, cluster_size, i + 1, base + size, pos, len);
        } else {
            let tail = virtual_from(
                image,
                runs,
                cluster_size,
                i + 1,
                base + size,
                pos + take,
                len - take,
            );
            lemma_virtual_bytes(
                image,
                runs,
                cluster_size,
                i + 1,
                base + size,
                pos + take,
                len - take,
            );
            if let Ok(v) = virtual_from(image, runs, cluster_size, i, base, pos, len) {
                if let Ok(rest) = tail {
                    assert forall|j: int| 0 <= j < len implies #[trigger] v[j]
                        == data::virtual_byte(image, runs, cluster_size, i, within + j) by {
                        if j >= take {
                            assert(v[j] == rest[j - take]);
                        }
                    }
                }
            }
        }
    }
}

/// A read from the middle of a file gives exactly the bytes that the runs map: the same
/// bytes that a read of the whole file has at those places.
pub proof fn law_reads_from_the_middle_agree_with_the_whole(
    image: Seq<u8>,
    runs: Seq<Run>,
    cluster_size: int,
    offset: int,
    len: int,
    real_size: int,
)
    requires
        0 <= cluster_size,
        0 <= offset,
        0 <= len,
        offset + len <= real_size,
    ensures
        virtual_value(image, runs, cluster_size, offset, len) matches Ok(part) ==> {
            &&& part.len() == len
            &&& (data::runs_value(image, runs, cluster_size, real_size) matches Ok(whole) ==> offset
                + len <= whole.len() ==> part == whole.subrange(offset, offset + len))
        },
{
    lemma_virtual_bytes(image, runs, cluster_size, 0, 0, offset, len);
    data::law_file_bytes_are_where_the_runs_say(image, runs, cluster_size, real_size);
    if let Ok(part) = virtual_value(image, runs, cluster_size, offset, len) {
        if let Ok(whole) = data::runs_value(image, runs, cluster_size, real_size) {
            if offset + len <= whole.len() {
                assert forall|j: int| 0 <= j < len implies part[j] == whole.subrange(
                    offset,
                    offset + len,
                )[j] by {
                    assert(whole[offset + j] == data::virtual_byte(
                        image,
                        runs,
                        cluster_size,
                        0,
                        offset + j,
                    ));
                }
                assert(part =~= whole.subrange(offset, offset + len));
            }
        }
    }
}

proof fn lemma_separators_have_no_components(path: Seq<char>)
    requires
        forall|i: int| 0 <= i < path.len() ==> is_separator(#[trigger] path[i]),
    ensures
        components(path) == Seq::<Seq<char>>::empty(),
    decreases path.len(),
{
    if path.len() > 0 {
        assert forall|i: int| 0 <= i < path.skip(1).len() implies is_separator(
            #[trigger] path.skip(1)[i],
        ) by {
            assert(path.skip(1)[i] == path[i + 1]);
        }
        lemma_separators_have_no_components(path.skip(1));
    }
}

/// A path of separators alone (or none) is the root directory.
pub proof fn law_separators_alone_name_the_root(volume: Volume, path: Seq<char>)
    requires
        forall|i: int| 0 <= i < path.len() ==> is_separator(#[trigger] path[i]),
    ensures
        volume.located(path) == Ok::<u64, FsErrorView>(layout::ROOT_RECORD),
{
    lemma_separators_have_no_components(path);
}

/// Whether two paths differ at most in which of the two separators they use.
pub open spec fn same_but_separators(a: Seq<char>, b: Seq<char>) -> bool {
    &&& a.len() == b.len()
    &&& forall|i: int|
        0 <= i < a.len() ==> #[trigger] a[i] == b[i] || (is_separator(a[i]) && is_separator(b[i]))
}

proof fn lemma_leading_ignores_separator_kind(a: Seq<char>, b: Seq<char>)
    requires
        same_but_separators(a, b),
    ensures
        leading(a) == leading(b),
        leading(a) <= a.len(),
        a.take(leading(a) as int) == b.take(leading(a) as int),
    decreases a.len(),
{
    lemma_leading_bound(a);
    lemma_leading_bound(b);
    if a.len() > 0 {
        assert(a[0] == b[0] || (is_separator(a[0]) && is_separator(b[0])));
        if !is_separator(a[0]) {
            assert(same_but_separators(a.skip(1), b.skip(1)));
            lemma_leading_ignores_separator_kind(a.skip(1), b.skip(1));
            let n = leading(a) as int;
            assert forall|i: int| 0 <= i < n implies a.take(n)[i] == b.take(n)[i] by {
                if i > 0 {
                    assert(a.skip(1).take(n - 1)[i - 1] == a[i]);
                    assert(b.skip(1).take(n - 1)[i - 1] == b[i]);
                }
            }
            assert(a.take(n) =~= b.take(n));
        } else {
            assert(a.take(0) =~= b.take(0));
        }
    } else {
        assert(a.take(0) =~= b.take(0));
    }
}

proof fn lemma_components_ignore_separator_kind(a: Seq<char>, b: Seq<char>)
    requires
        same_but_separators(a, b),
    ensures
        components(a) == components(b),
    decreases a.len(),
{
    if a.len() > 0 {
        assert(a[0] == b[0] || (is_separator(a[0]) && is_separator(b[0])));
        if is_separator(a[0]) {
            assert(same_but_separators(a.skip(1), b.skip(1)));
            lemma_components_ignore_separator_kind(a.skip(1), b.skip(1));
        } else {
            lemma_leading_ignores_separator_kind(a, b);
            let n = leading(a) as int;
            assert(same_but_separators(a.skip(n), b.skip(n)));
            lemma_components_ignore_separator_kind(a.skip(n), b.skip(n));
        }
    }
}

/// It does not matter which separators a path uses.
pub proof fn law_separators_are_interchangeable(volume: Volume, a: Seq<char>, b: Seq<char>)
    requires
        same_but_separators(a, b),
    ensures
        volume.located(a) == volume.located(b),
{
    lemma_components_ignore_separator_kind(a, b);
}

proof fn lemma_first_ignores_case(
    entries: Seq<IndexEntryView>,
    a: Seq<char>,
    b: Seq<char>,
    i: int,
)
    requires
        same_ignoring_ascii_case(a, b),
    ensures
        walk::first_from(entries, matching(a), i) == walk::first_from(entries, matching(b), i),
    decreases entries.len() - i,
{
    if 0 <= i < entries.len() {
        if let Some(f) = entries[i].file_name {
            if same_ignoring_ascii_case(f.name, a) {
                assert forall|k: int| 0 <= k < f.name.len() implies ascii_lower(
                    #[trigger] f.name[k],
                ) == ascii_lower(b[k]) by {
                    assert(ascii_lower(a[k]) == ascii_lower(b[k]));
                }
            }
            if same_ignoring_ascii_case(f.name, b) {
                assert forall|k: int| 0 <= k < f.name.len() implies ascii_lower(
                    #[trigger] f.name[k],
                ) == ascii_lower(a[k]) by {
                    assert(ascii_lower(a[k]) == ascii_lower(b[k]));
                }
            }
        }
        lemma_first_ignores_case(entries, a, b, i + 1);
    }
}

/// A component finds the same child whatever the case of its ASCII letters.
pub proof fn law_names_match_in_any_case(volume: Volume, parent: int, a: Seq<char>, b: Seq<char>)
    requires
        same_ignoring_ascii_case(a, b),
    ensures
        volume.child(parent, a) is Ok <==> volume.child(parent, b) is Ok,
        volume.child(parent, a) is Ok ==> volume.child(parent, a) == volume.child(parent, b),
{
    if let Ok(rec) = volume.record(parent) {
        if let Ok(entries) = volume.listing(rec) {
            lemma_first_ignores_case(entries, a, b, 0);
        }
    }
}

/// Reading a stream with a smaller cap gives the leading bytes of what a larger cap gives.
pub proof fn law_capped_reads_are_prefixes(
    volume: Volume,
    entry: int,
    stream: Option<Seq<char>>,
    fewer: int,
    cap: int,
    label: Seq<char>,
)
    requires
        0 <= fewer <= cap,
        volume.stream(entry, stream, cap, label) is Ok,
    ensures
        volume.stream(entry, stream, fewer, label) == Ok::<Seq<u8>, FsErrorView>(
            data::leading(volume.stream(entry, stream, cap, label)->Ok_0, fewer),
        ),
{
    let rec = volume.record(entry)->Ok_0;
    let pieces = volume.pieces(rec, stream)->Ok_0;
    let whole = volume.pieces_value(pieces, cap)->Ok_0;
    let first = pieces[0].attribute;
    match first.body {
        AttributeBody::Resident { .. } => {
            let value = data::attribute_value(
                volume.image,
                pieces[0].record,
                first,
                volume.cluster_size(),
            )->Ok_0;
            assert(data::leading(value, fewer) =~= data::leading(whole, fewer));
        },
        AttributeBody::NonResident { real_size, .. } => {
            let runs = piece_runs(pieces, 0)->Ok_0;
            let larger = data::least(real_size as int, cap);
            let smaller = data::least(real_size as int, fewer);
            data::law_shorter_reads_are_prefixes(
                volume.image,
                runs,
                volume.cluster_size(),
                smaller,
                larger,
                first.compressed(),
                first.unit_shift(),
                first.offset,
            );
            data::lemma_stream_is_bounded(
                volume.image,
                runs,
                volume.cluster_size(),
                larger,
                first.compressed(),
                first.unit_shift(),
                first.offset,
            );
            assert(data::leading(whole, smaller) =~= data::leading(whole, fewer));
        },
    }
}

/// Whether two lists of path components differ at most in the case of ASCII letters.
pub open spec fn same_parts(a: Seq<Seq<char>>, b: Seq<Seq<char>>) -> bool {
    &&& a.len() == b.len()
    &&& forall|i: int| 0 <= i < a.len() ==> same_ignoring_ascii_case(#[trigger] a[i], b[i])
}

proof fn lemma_resolution_ignores_case(
    volume: Volume,
    a: Seq<Seq<char>>,
    b: Seq<Seq<char>>,
    from: u64,
)
    requires
        same_parts(a, b),
        volume.resolved(a, from) is Ok,
    ensures
        volume.resolved(b, from) == volume.resolved(a, from),
    decreases a.len(),
{
    if a.len() > 0 {
        assert(same_ignoring_ascii_case(a[0], b[0]));
        law_names_match_in_any_case(volume, from as int, a[0], b[0]);
        assert forall|i: int| 0 <= i < a.skip(1).len() implies same_ignoring_ascii_case(
            #[trigger] a.skip(1)[i],
            b.skip(1)[i],
        ) by {
            assert(same_ignoring_ascii_case(a[i + 1], b[i + 1]));
        }
        lemma_resolution_ignores_case(
            volume,
            a.skip(1),
            b.skip(1),
            volume.child(from as int, a[0])->Ok_0,
        );
    }
}

/// A path that leads to a file leads to the same file whatever the case of its ASCII
/// letters.
pub proof fn law_paths_match_in_any_case(volume: Volume, a: Seq<char>, b: Seq<char>)
    requires
        same_parts(components(a), components(b)),
        volume.located(a) is Ok,
    ensures
        volume.located(b) == volume.located(a),
{
    lemma_resolution_ignores_case(volume, components(a), components(b), layout::ROOT_RECORD);
}

proof fn lemma_resolution_stops(volume: Volume, parts: Seq<Seq<char>>, i: int, from: u64, dir: u64)
    requires
        0 <= i < parts.len(),
        volume.resolved(parts.take(i), from) == Ok::<u64, FsErrorView>(dir),
        volume.child(dir as int, parts[i]) is Err,
    ensures
        volume.resolved(parts, from) == volume.child(dir as int, parts[i]),
    decreases i,
{
    if i == 0 {
        assert(parts.take(0).len() == 0);
    } else {
        let next = volume.child(from as int, parts[0])->Ok_0;
        assert(parts.take(i)[0] == parts[0]);
        assert(parts.take(i).skip(1) =~= parts.skip(1).take(i - 1));
        assert(parts.skip(1)[i - 1] == parts[i]);
        lemma_resolution_stops(volume, parts.skip(1), i - 1, next, dir);
    }
}

/// A component that no entry of the directory reached so far matches is reported as
/// missing, by its own text.
pub proof fn law_a_missing_component_is_named(
    volume: Volume,
    path: Seq<char>,
    i: int,
    dir: u64,
    rec: Seq<u8>,
    entries: Seq<IndexEntryView>,
)
    requires
        0 <= i < components(path).len(),
        volume.resolved(components(path).take(i), layout::ROOT_RECORD) == Ok::<u64, FsErrorView>(
            dir,
        ),
        volume.record(dir as int) == Ok::<Seq<u8>, NtfsError>(rec),
        volume.listing(rec) == Ok::<Seq<IndexEntryView>, FsErrorView>(entries),
        forall|k: int|
            0 <= k < entries.len() ==> !matching(components(path)[i])(#[trigger] entries[k]),
    ensures
        volume.located(path) == Err::<u64, FsErrorView>(
            FsErrorView::NotFound(components(path)[i]),
        ),
{
    walk::lemma_first_skip(entries, matching(components(path)[i]), entries.len() as int);
    lemma_resolution_stops(volume, components(path), i, layout::ROOT_RECORD, dir);
}

/// A record without an `$INDEX_ROOT` is no directory, and nothing is read to tell.
pub proof fn law_no_index_root_means_no_directory(volume: Volume, rec: Seq<u8>)
    requires
        attributes_of(rec) matches Ok(attrs) && walk::first(
            attrs,
            of_type(layout::INDEX_ROOT),
        ) is None,
    ensures
        volume.listing(rec) == Err::<Seq<IndexEntryView>, FsErrorView>(
            FsErrorView::NotADirectory("record has no $INDEX_ROOT"@),
        ),
        !volume.listing_is_read(rec),
{
}

/// Whether every entry carries a name.
pub open spec fn all_named(entries: Seq<IndexEntryView>) -> bool {
    forall|k: int| 0 <= k < entries.len() ==> (#[trigger] entries[k]).file_name is Some
}

proof fn lemma_named_are_named(entries: Seq<IndexEntryView>)
    ensures
        all_named(entries.filter(named())),
    decreases entries.len(),
{
    reveal(Seq::filter);
    if entries.len() > 0 {
        lemma_named_are_named(entries.drop_last());
    }
}

proof fn lemma_blocks_are_named(data: Seq<u8>, off: int, size: int, sector_size: int)
    ensures
        blocks_from(data, off, size, sector_size) matches Ok(entries) ==> all_named(entries),
    decreases data.len() - off,
{
    if size > 0 && off + size <= data.len() {
        lemma_blocks_are_named(data, off + size, size, sector_size);
        if bytes::has_at(data, off, layout::SIGNATURE_INDX@) {
            if let Ok(entries) = index::parsed_buffer(
                data.subrange(off, off + size),
                size,
                sector_size,
            ) {
                lemma_named_are_named(entries);
            }
        }
    }
}

/// The index root that a directory record holds.
pub open spec fn index_root_of(rec: Seq<u8>) -> Option<index::IndexRootView> {
    match attributes_of(rec) {
        Ok(attrs) => match walk::first(attrs, of_type(layout::INDEX_ROOT)) {
            Some(a) => match a.content_in(rec) {
                Some(content) => match index::parsed_root(content) {
                    Ok(root) => Some(root),
                    Err(_) => None,
                },
                None => None,
            },
            None => None,
        },
        Err(_) => None,
    }
}

/// Whether a record has an `$INDEX_ALLOCATION`.
pub open spec fn has_index_buffers(rec: Seq<u8>) -> bool {
    attributes_of(rec) matches Ok(attrs) && walk::first(
        attrs,
        of_type(layout::INDEX_ALLOCATION),
    ) is Some
}

/// A listing has named entries only. It begins with those of the index root, in their
/// order, and holds nothing else where the directory is not large or has no index
/// buffers.
pub proof fn law_a_listing_begins_with_the_root(
    volume: Volume,
    rec: Seq<u8>,
    entries: Seq<IndexEntryView>,
)
    requires
        volume.listing(rec) == Ok::<Seq<IndexEntryView>, FsErrorView>(entries),
    ensures
        all_named(entries),
        index_root_of(rec) matches Some(root) && {
            let own = root.entries.filter(named());
            &&& own.len() <= entries.len()
            &&& entries.take(own.len() as int) == own
            &&& !root.is_large || !has_index_buffers(rec) ==> entries == own
        },
{
    let root = index_root_of(rec)->0;
    let own = root.entries.filter(named());
    lemma_named_are_named(root.entries);
    if root.is_large {
        let attrs = attributes_of(rec)->Ok_0;
        let more = volume.allocated_entries(rec, attrs)->Ok_0;
        if let Some(a) = walk::first(attrs, of_type(layout::INDEX_ALLOCATION)) {
            let value = data::attribute_value(volume.image, rec, a, volume.cluster_size())->Ok_0;
            lemma_blocks_are_named(
                value,
                0,
                volume.boot.index_record_size as int,
                volume.boot.bytes_per_sector as int,
            );
        }
        assert(entries == own + more);
        assert(entries.take(own.len() as int) =~= own);
        assert(more.len() == 0 ==> entries =~= own);
    } else {
        assert(entries.take(own.len() as int) =~= own);
    }
}

/// What a stream of a record is when its list cannot be followed, or is not needed: the
/// record's own `$DATA`, where it has one.
pub proof fn law_own_data_outlives_a_broken_list(
    volume: Volume,
    rec: Seq<u8>,
    stream: Option<Seq<char>>,
)
    requires
        attributes_of(rec) matches Ok(attrs) && own_pieces(rec, attrs, stream).len() > 0 && (
        covers_stream(rec, own_pieces(rec, attrs, stream)[0].attribute, volume.cluster_size())
            || volume.pieces_listed(rec, attrs, stream) is Err),
    ensures
        volume.pieces(rec, stream) == Ok::<Seq<PieceView>, NtfsError>(
            own_pieces(rec, attributes_of(rec)->Ok_0, stream),
        ),
{
}

proof fn lemma_blocks_come_first(a: Seq<u8>, b: Seq<u8>, off: int, size: int, sector_size: int)
    requires
        4 <= size,
        0 <= off <= a.len(),
        (a.len() - off) % size == 0,
    ensures
        blocks_from(a + b, off, size, sector_size) == (match blocks_from(
            a,
            off,
            size,
            sector_size,
        ) {
            Err(e) => Err(e),
            Ok(first) => walk::chain(first, blocks_from(a + b, a.len() as int, size, sector_size)),
        }),
    decreases a.len() - off,
{
    let all = a + b;
    if off == a.len() {
        walk::lemma_chain_empty(blocks_from(all, off, size, sector_size));
    } else {
        assert(off + size <= a.len() && (a.len() - (off + size)) % size == 0)
            by (nonlinear_arith)
            requires
                0 < size,
                off < a.len(),
                (a.len() - off) % size == 0,
        ;
        lemma_blocks_come_first(a, b, off + size, size, sector_size);
        assert(all.subrange(off, off + size) =~= a.subrange(off, off + size));
        assert(all.subrange(off, off + 4) =~= a.subrange(off, off + 4));
        let block = a.subrange(off, off + size);
        let next = blocks_from(all, a.len() as int, size, sector_size);
        if let Ok(entries) = index::parsed_buffer(block, size, sector_size) {
            if let Ok(rest) = blocks_from(a, off + size, size, sector_size) {
                data::lemma_chain_append(entries.filter(named()), rest, next);
            }
        }
    }
}

proof fn lemma_blocks_are_movable(
    a: Seq<u8>,
    b: Seq<u8>,
    off: int,
    size: int,
    sector_size: int,
)
    requires
        4 <= size,
        0 <= off,
    ensures
        blocks_from(a + b, a.len() + off, size, sector_size) == blocks_from(
            b,
            off,
            size,
            sector_size,
        ),
    decreases b.len() - off,
{
    let all = a + b;
    let at = a.len() + off;
    if off + size <= b.len() {
        lemma_blocks_are_movable(a, b, off + size, size, sector_size);
        assert(all.subrange(at, at + size) =~= b.subrange(off, off + size));
        assert(all.subrange(at, at + 4) =~= b.subrange(off, off + 4));
    }
}

/// What the index buffers of two pieces hold is what those of the first hold, followed by
/// what those of the second hold, where the first is a whole number of buffers.
pub proof fn law_index_buffers_add_up(a: Seq<u8>, b: Seq<u8>, size: int, sector_size: int)
    requires
        4 <= size,
        a.len() as int % size == 0,
    ensures
        blocks_from(a + b, 0, size, sector_size) == (match blocks_from(a, 0, size, sector_size) {
            Err(e) => Err(e),
            Ok(first) => walk::chain(first, blocks_from(b, 0, size, sector_size)),
        }),
{
    lemma_blocks_come_first(a, b, 0, size, sector_size);
    lemma_blocks_are_movable(a, b, 0, size, sector_size);
}

/// Whether block `k` begins with the bytes `INDX`.
pub open spec fn is_index_block(data: Seq<u8>, k: int, size: int) -> bool {
    &&& data[k * size] == 0x49
    &&& data[k * size + 1] == 0x4E
    &&& data[k * size + 2] == 0x44
    &&& data[k * size + 3] == 0x58
}

/// Block `k` of index data.
pub open spec fn index_block(data: Seq<u8>, k: int, size: int) -> Seq<u8> {
    data.subrange(k * size, (k + 1) * size)
}

#[verifier::rlimit(60)]
#[verifier::spinoff_prover]
proof fn lemma_block_counts(data: Seq<u8>, from: int, k: int, size: int, sector_size: int)
    requires
        4 <= size,
        0 <= from <= k,
        (k + 1) * size <= data.len(),
        is_index_block(data, k, size),
        blocks_from(data, from * size, size, sector_size) is Ok,
    ensures
        index::parsed_buffer(index_block(data, k, size), size, sector_size) is Ok,
        forall|e: IndexEntryView| #[trigger]
            index::parsed_buffer(index_block(data, k, size), size, sector_size)->Ok_0.contains(e)
                && e.file_name is Some ==> blocks_from(
                data,
                from * size,
                size,
                sector_size,
            )->Ok_0.contains(e),
    decreases k - from,
{
    let off = from * size;
    assert(off + size == (from + 1) * size) by (nonlinear_arith)
        requires
            off == from * size,
    ;
    assert((from + 1) * size <= (k + 1) * size && 0 <= off) by (nonlinear_arith)
        requires
            0 <= from <= k,
            0 < size,
            off == from * size,
    ;
    let list = blocks_from(data, off, size, sector_size)->Ok_0;
    if from == k {
        assert(data.subrange(off, off + 4) =~= layout::SIGNATURE_INDX@);
        let entries = index::parsed_buffer(data.subrange(off, off + size), size, sector_size)->Ok_0;
        let kept = entries.filter(named());
        walk::lemma_filter_picks(entries, named());
        assert forall|e: IndexEntryView| #[trigger]
            entries.contains(e) && e.file_name is Some implies list.contains(e) by {
            assert(kept.contains(e));
            let i = choose|i: int| 0 <= i < kept.len() && kept[i] == e;
            assert(list[i] == e);
        }
    } else {
        lemma_block_counts(data, from + 1, k, size, sector_size);
        let rest = blocks_from(data, off + size, size, sector_size)->Ok_0;
        let entries = index::parsed_buffer(index_block(data, k, size), size, sector_size)->Ok_0;
        assert forall|e: IndexEntryView| #[trigger]
            entries.contains(e) && e.file_name is Some implies list.contains(e) by {
            assert(rest.contains(e));
            let i = choose|i: int| 0 <= i < rest.len() && rest[i] == e;
            assert(list[list.len() - rest.len() + i] == e);
        }
    }
}

/// Every index buffer counts: where the blocks are listed, each block that begins with
/// `INDX` parses, and each named entry that it parses to is in the list.
pub proof fn law_every_index_buffer_counts(data: Seq<u8>, k: int, size: int, sector_size: int)
    requires
        4 <= size,
        0 <= k,
        (k + 1) * size <= data.len(),
        is_index_block(data, k, size),
        blocks_from(data, 0, size, sector_size) is Ok,
    ensures
        index::parsed_buffer(index_block(data, k, size), size, sector_size) is Ok,
        forall|e: IndexEntryView| #[trigger]
            index::parsed_buffer(index_block(data, k, size), size, sector_size)->Ok_0.contains(e)
                && e.file_name is Some ==> blocks_from(data, 0, size, sector_size)->Ok_0.contains(
                e,
            ),
{
    lemma_block_counts(data, 0, k, size, sector_size);
}

/// A single index buffer lists its named entries in their order, and a block of another
/// kind lists nothing.
pub proof fn law_one_index_buffer_lists_its_entries(data: Seq<u8>, sector_size: int)
    requires
        4 <= data.len(),
    ensures
        is_index_block(data, 0, data.len() as int) ==> match index::parsed_buffer(
            data,
            data.len() as int,
            sector_size,
        ) {
            Ok(entries) => blocks_from(data, 0, data.len() as int, sector_size) == Ok::<
                Seq<IndexEntryView>,
                NtfsError,
            >(entries.filter(named())),
            Err(e) => blocks_from(data, 0, data.len() as int, sector_size) == Err::<
                Seq<IndexEntryView>,
                NtfsError,
            >(e),
        },
        !is_index_block(data, 0, data.len() as int) ==> blocks_from(
            data,
            0,
            data.len() as int,
            sector_size,
        ) == Ok::<Seq<IndexEntryView>, NtfsError>(Seq::empty()),
{
    let size = data.len() as int;
    assert(data.subrange(0, size) =~= data);
    let head = data.subrange(0, 4);
    assert(is_index_block(data, 0, size) ==> head =~= layout::SIGNATURE_INDX@);
    assert(head[0] == data[0] && head[1] == data[1] && head[2] == data[2] && head[3] == data[3]);
    assert(blocks_from(data, size, size, sector_size) == Ok::<Seq<IndexEntryView>, NtfsError>(
        Seq::empty(),
    ));
    if let Ok(entries) = index::parsed_buffer(data, size, sector_size) {
        walk::lemma_chain_done(entries.filter(named()));
    }
}

/// A large directory lists every named entry of every index buffer in its
/// `$INDEX_ALLOCATION`.
pub proof fn law_large_directories_list_every_buffer(
    volume: Volume,
    rec: Seq<u8>,
    attrs: Seq<AttributeView>,
    a: int,
    value: Seq<u8>,
    k: int,
    e: IndexEntryView,
)
    requires
        attributes_of(rec) == Ok::<Seq<AttributeView>, NtfsError>(attrs),
        0 <= a < attrs.len(),
        attrs[a].type_code == 0xA0,
        forall|j: int| 0 <= j < a ==> (#[trigger] attrs[j]).type_code != 0xA0,
        data::attribute_value(volume.image, rec, attrs[a], volume.cluster_size()) == Ok::<
            Seq<u8>,
            NtfsError,
        >(value),
        volume.listing(rec) is Ok,
        index_root_of(rec) matches Some(root) && root.is_large,
        ({
            let size = volume.boot.index_record_size as int;
            &&& 4 <= size
            &&& 0 <= k
            &&& (k + 1) * size <= value.len()
            &&& is_index_block(value, k, size)
            &&& index::parsed_buffer(
                index_block(value, k, size),
                size,
                volume.boot.bytes_per_sector as int,
            ) matches Ok(entries) && entries.contains(e)
        }),
        e.file_name is Some,
    ensures
        volume.listing(rec)->Ok_0.contains(e),
{
    let size = volume.boot.index_record_size as int;
    let sector_size = volume.boot.bytes_per_sector as int;
    walk::lemma_first_skip(attrs, of_type(layout::INDEX_ALLOCATION), a);
    assert(walk::first(attrs, of_type(layout::INDEX_ALLOCATION)) == Some(attrs[a]));
    let more = blocks_from(value, 0, size, sector_size)->Ok_0;
    law_every_index_buffer_counts(value, k, size, sector_size);
    let list = volume.listing(rec)->Ok_0;
    assert(more.contains(e));
    let i = choose|i: int| 0 <= i < more.len() && more[i] == e;
    assert(list[list.len() - more.len() + i] == e);
}

proof fn lemma_leading_stops(path: Seq<char>, c: char, rest: Seq<char>)
    requires
        is_separator(c),
    ensures
        leading(path + seq![c] + rest) == leading(path),
    decreases path.len(),
{
    let whole = path + seq![c] + rest;
    if path.len() > 0 {
        assert(whole[0] == path[0]);
        assert(whole.skip(1) =~= path.skip(1) + seq![c] + rest);
        if !is_separator(path[0]) {
            lemma_leading_stops(path.skip(1), c, rest);
        }
    } else {
        assert(whole[0] == c);
    }
}

/// Slashes and backslashes separate and do nothing else: the components of two paths with
/// one between them are those of the first and then those of the second.
pub proof fn law_separators_separate(a: Seq<char>, c: char, b: Seq<char>)
    requires
        c == '/' || c == '\\',
    ensures
        components(a + seq![c] + b) == components(a) + components(b),
    decreases a.len(),
{
    let whole = a + seq![c] + b;
    if a.len() == 0 {
        assert(whole[0] == c);
        assert(whole.skip(1) =~= b);
        assert(components(a) + components(b) =~= components(b));
    } else {
        assert(whole[0] == a[0]);
        if is_separator(a[0]) {
            assert(whole.skip(1) =~= a.skip(1) + seq![c] + b);
            law_separators_separate(a.skip(1), c, b);
        } else {
            let n = leading(a) as int;
            lemma_leading_stops(a, c, b);
            lemma_leading_bound(a);
            assert(whole.take(n) =~= a.take(n));
            assert(whole.skip(n) =~= a.skip(n) + seq![c] + b);
            law_separators_separate(a.skip(n), c, b);
            assert(components(a) == seq![a.take(n)] + components(a.skip(n)));
            assert(components(whole) == seq![whole.take(n)] + components(whole.skip(n)));
            assert(components(whole) =~= components(a) + components(b));
        }
    }
}

proof fn lemma_all_leading(name: Seq<char>)
    requires
        forall|i: int| 0 <= i < name.len() ==> !is_separator(#[trigger] name[i]),
    ensures
        leading(name) == name.len(),
    decreases name.len(),
{
    if name.len() > 0 {
        assert forall|i: int| 0 <= i < name.skip(1).len() implies !is_separator(
            #[trigger] name.skip(1)[i],
        ) by {
            assert(name.skip(1)[i] == name[i + 1]);
        }
        lemma_all_leading(name.skip(1));
    }
}

/// A name without a slash or backslash is one component, and an empty path has none.
pub proof fn law_a_name_is_one_component(name: Seq<char>)
    requires
        forall|i: int| 0 <= i < name.len() ==> #[trigger] name[i] != '/' && name[i] != '\\',
    ensures
        name.len() > 0 ==> components(name) == seq![name],
        name.len() == 0 ==> components(name).len() == 0,
{
    if name.len() > 0 {
        lemma_all_leading(name);
        let n = name.len() as int;
        assert(name.take(n) =~= name);
        assert(name.skip(n) =~= Seq::empty());
        assert(components(name.skip(n)).len() == 0);
        assert(components(name) =~= seq![name]);
    }
}

#[verifier::rlimit(60)]
#[verifier::spinoff_prover]
proof fn lemma_resolved_in_steps(
    volume: Volume,
    a: Seq<Seq<char>>,
    b: Seq<Seq<char>>,
    from: u64,
    to: u64,
)
    requires
        volume.resolved(a, from) == Ok::<u64, FsErrorView>(to),
    ensures
        volume.resolved(a + b, from) == volume.resolved(b, to),
    decreases a.len(),
{
    let all = a + b;
    if a.len() == 0 {
        assert(all =~= b);
    } else {
        assert(all[0] == a[0]);
        assert(all.skip(1) =~= a.skip(1) + b);
        let next = volume.child(from as int, a[0])->Ok_0;
        lemma_resolved_in_steps(volume, a.skip(1), b, next, to);
    }
}

/// Paths are walked step by step from record 5: a name behind a path is the child of that
/// name in the directory that the path leads to.
pub proof fn law_paths_are_walked_step_by_step(
    volume: Volume,
    path: Seq<char>,
    c: char,
    name: Seq<char>,
    dir: u64,
)
    requires
        c == '/' || c == '\\',
        name.len() > 0,
        forall|i: int| 0 <= i < name.len() ==> #[trigger] name[i] != '/' && name[i] != '\\',
        volume.located(path) == Ok::<u64, FsErrorView>(dir),
    ensures
        volume.located(path + seq![c] + name) == volume.child(dir as int, name),
        volume.located(Seq::empty()) == Ok::<u64, FsErrorView>(5),
{
    let none: Seq<Seq<char>> = Seq::empty();
    let one = seq![name];
    law_separators_separate(path, c, name);
    law_a_name_is_one_component(name);
    lemma_resolved_in_steps(volume, components(path), one, 5, dir);
    assert(one.skip(1) =~= none);
    if let Ok(next) = volume.child(dir as int, name) {
        assert(volume.resolved(none, next) == Ok::<u64, FsErrorView>(next));
    }
}

/// The child that a name leads to is the first entry of the directory with that name, in
/// whatever case, and without one the name is not found.
pub proof fn law_the_first_entry_of_a_name_counts(
    volume: Volume,
    dir: int,
    rec: Seq<u8>,
    entries: Seq<IndexEntryView>,
    name: Seq<char>,
    i: int,
)
    requires
        volume.record(dir) == Ok::<Seq<u8>, NtfsError>(rec),
        volume.listing(rec) == Ok::<Seq<IndexEntryView>, FsErrorView>(entries),
        0 <= i <= entries.len(),
        forall|j: int|
            0 <= j < i ==> !((#[trigger] entries[j]).file_name matches Some(f)
                && same_ignoring_ascii_case(f.name, name)),
        i < entries.len() ==> (entries[i].file_name matches Some(f) && same_ignoring_ascii_case(
            f.name,
            name,
        )),
    ensures
        volume.child(dir, name) == if i < entries.len() {
            Ok::<u64, FsErrorView>(entries[i].file_reference.record_number)
        } else {
            Err(FsErrorView::NotFound(name))
        },
{
    assert forall|j: int| 0 <= j < i implies !matching(name)(#[trigger] entries[j]) by {
        let e = entries[j];
        assert(!(e.file_name matches Some(f) && same_ignoring_ascii_case(f.name, name)));
    }
    walk::lemma_first_is(entries, matching(name), i);
}

proof fn lemma_inside_is_virtual(
    image: Seq<u8>,
    runs: Seq<Run>,
    cluster_size: int,
    i: int,
    base: int,
    pos: int,
    len: int,
)
    requires
        0 <= i,
        0 <= cluster_size,
        0 <= base,
        len > 0 ==> base <= pos,
        image.len() <= u64::MAX,
        base + data::bytes_left(runs, cluster_size, i) <= u64::MAX,
        data::lie_inside(image, runs, cluster_size),
    ensures
        virtual_from(image, runs, cluster_size, i, base, pos, len) is Ok <==> len <= 0 || pos + len
            <= base + data::bytes_left(runs, cluster_size, i),
    decreases runs.len() - i,
{
    data::lemma_bytes_left_is_positive(runs, cluster_size, i + 1);
    if len > 0 && i < runs.len() {
        let length = runs[i].length as int;
        let size = length * cluster_size;
        let take = data::least(size - (pos - base), len);
        assert(0 <= size) by (nonlinear_arith)
            requires
                size == length * cluster_size,
                0 <= length,
                0 <= cluster_size,
        ;
        if pos >= base + size {
            lemma_inside_is_virtual(image, runs, cluster_size, i + 1, base + size, pos, len);
        } else {
            if let Some(lcn) = runs[i].lcn {
                assert((lcn + length) * cluster_size == lcn * cluster_size + size && 0 <= lcn
                    * cluster_size) by (nonlinear_arith)
                    requires
                        size == length * cluster_size,
                        0 <= lcn,
                        0 <= cluster_size,
                ;
            }
            lemma_inside_is_virtual(
                image,
                runs,
                cluster_size,
                i + 1,
                base + size,
                pos + take,
                len - take,
            );
        }
    }
}

/// A read from the middle of runs that lie on the image succeeds exactly when the runs
/// reach that far.
pub proof fn law_reads_inside_the_runs_succeed(
    image: Seq<u8>,
    runs: Seq<Run>,
    cluster_size: int,
    offset: int,
    len: int,
)
    requires
        0 <= cluster_size,
        0 <= offset,
        0 < len <= usize::MAX,
        image.len() <= u64::MAX,
        data::bytes_left(runs, cluster_size, 0) <= u64::MAX,
        data::lie_inside(image, runs, cluster_size),
    ensures
        virtual_value(image, runs, cluster_size, offset, len) is Ok <==> offset + len
            <= data::bytes_left(runs, cluster_size, 0),
{
    lemma_inside_is_virtual(image, runs, cluster_size, 0, 0, offset, len);
}

/// Record `n` is the `n`-th of the table, counted from zero in steps of the record size,
/// with the protection of its sectors undone.
pub proof fn law_records_stand_one_after_the_other(
    volume: Volume,
    n: int,
    raw: Seq<u8>,
    plain: Seq<u8>,
    usa: int,
    usn: u16,
    sectors: int,
)
    requires
        0 <= n,
        n * volume.boot.mft_record_size <= u64::MAX,
        virtual_value(
            volume.image,
            volume.mft_runs,
            volume.boot.bytes_per_sector * volume.boot.sectors_per_cluster,
            n * volume.boot.mft_record_size,
            volume.boot.mft_record_size as int,
        ) == Ok::<Seq<u8>, NtfsError>(raw),
        record::protects(
            raw,
            plain,
            volume.boot.bytes_per_sector as int,
            usa,
            usn,
            sectors,
        ),
        record::has_room(
            raw.len() as int,
            volume.boot.bytes_per_sector as int,
            usa,
            sectors,
        ),
    ensures
        volume.record(n) == Ok::<Seq<u8>, NtfsError>(plain),
{
    let boot = volume.boot;
    assert(0 <= boot.bytes_per_sector * boot.sectors_per_cluster <= 0xFFFF * 0xFF)
        by (nonlinear_arith)
        requires
            boot.bytes_per_sector <= 0xFFFF,
            boot.sectors_per_cluster <= 0xFF,
    ;
    record::law_fixup_undoes_protection(
        raw,
        plain,
        volume.boot.bytes_per_sector as int,
        usa,
        usn,
        sectors,
    );
}

/// The attributes of a record begin where its header says.
pub proof fn law_attributes_begin_where_the_header_says(rec: Seq<u8>, h: MftRecordHeader)
    requires
        record::holds_header(rec, h),
        h.signature@ == seq![0x46u8, 0x49, 0x4C, 0x45],
    ensures
        attributes_of(rec) == attribute::parsed_attributes(rec, h.first_attribute_offset as int),
{
    record::law_written_headers_parse_back(rec, h);
}

/// The table's own runs are those that were written in the first unnamed `$DATA` of its
/// record that is not resident.
pub proof fn law_the_table_finds_itself(
    rec: Seq<u8>,
    attrs: Seq<AttributeView>,
    i: int,
    runs: Seq<Run>,
    widths: Seq<runlist::Widths>,
    junk: Seq<u8>,
)
    requires
        attributes_of(rec) == Ok::<Seq<AttributeView>, NtfsError>(attrs),
        0 <= i < attrs.len(),
        attrs[i].type_code == 0x80 && attrs[i].name is None && attrs[i].body is NonResident,
        forall|j: int|
            0 <= j < i ==> (#[trigger] attrs[j]).type_code != 0x80 || attrs[j].name is Some
                || attrs[j].body is Resident,
        attrs[i].body->runs_offset <= attrs[i].length,
        attrs[i].offset + attrs[i].length <= rec.len(),
        runs.len() <= 0x10_0000,
        runlist::all_writable(runs, widths, 0),
        rec.subrange(
            attrs[i].offset + attrs[i].body->runs_offset,
            attrs[i].offset + attrs[i].length,
        ) == runlist::written(runs, widths, 0) + seq![0u8] + junk,
    ensures
        mft_runs_of(rec) == Ok::<Seq<Run>, NtfsError>(runs),
{
    walk::lemma_first_is(attrs, mapped_data(), i);
    runlist::law_decoding_undoes_writing(runs, widths, junk);
}

/// A volume is mounted by its boot sector, in its first 512 bytes, and by the record at the
/// first cluster of its table.
pub proof fn law_a_volume_is_mounted_by_its_boot_sector(
    image: Seq<u8>,
    geometry: BootSector,
    plain: Seq<u8>,
    usa: int,
    usn: u16,
    sectors: int,
    runs: Seq<Run>,
)
    requires
        image.len() >= 512,
        boot::holds_boot(image.take(512), geometry),
        boot::is_geometry(geometry),
        ({
            let at = geometry.mft_lcn * (geometry.bytes_per_sector * geometry.sectors_per_cluster);
            let size = geometry.mft_record_size as int;
            &&& at + size <= image.len()
            &&& at <= u64::MAX
            &&& record::protects(
                image.subrange(at, at + size),
                plain,
                geometry.bytes_per_sector as int,
                usa,
                usn,
                sectors,
            )
            &&& record::has_room(size, geometry.bytes_per_sector as int, usa, sectors)
        }),
        mft_runs_of(plain) == Ok::<Seq<Run>, NtfsError>(runs),
    ensures
        mounted(image) == Ok::<Volume, NtfsError>(
            Volume { image, boot: geometry, mft_runs: runs },
        ),
{
    let at = geometry.mft_lcn * (geometry.bytes_per_sector * geometry.sectors_per_cluster);
    let size = geometry.mft_record_size as int;
    assert(image.take(512) =~= image.subrange(0, 512));
    boot::law_written_boot_sectors_parse_back(image.take(512), geometry);
    assert(0 <= geometry.bytes_per_sector * geometry.sectors_per_cluster <= 0xFFFF * 0xFF)
        by (nonlinear_arith)
        requires
            geometry.bytes_per_sector <= 0xFFFF,
            geometry.sectors_per_cluster <= 0xFF,
    ;
    let cluster = geometry.bytes_per_sector * geometry.sectors_per_cluster;
    assert(0 <= geometry.mft_lcn * cluster) by (nonlinear_arith)
        requires
            0 <= cluster,
            0 <= geometry.mft_lcn,
    ;
    record::law_fixup_undoes_protection(
        image.subrange(at, at + size),
        plain,
        geometry.bytes_per_sector as int,
        usa,
        usn,
        sectors,
    );
}

/// The pieces of a stream come in the order of its list entries, one for each.
#[verifier::rlimit(60)]
#[verifier::spinoff_prover]
pub proof fn law_pieces_follow_the_list(volume: Volume, entries: Seq<ListEntryView>, i: int)
    requires
        0 <= i <= entries.len(),
    ensures
        volume.listed_pieces(entries, i) matches Ok(pieces) ==> {
            &&& pieces.len() == entries.len() - i
            &&& forall|k: int|
                0 <= k < pieces.len() ==> volume.listed_piece(entries[i + k]) == Ok::<
                    PieceView,
                    NtfsError,
                >(#[trigger] pieces[k])
        },
        (exists|k: int|
            i <= k < entries.len() && volume.listed_piece(#[trigger] entries[k]) is Err)
            <==> volume.listed_pieces(entries, i) is Err,
    decreases entries.len() - i,
{
    if i < entries.len() {
        law_pieces_follow_the_list(volume, entries, i + 1);
        if let Ok(piece) = volume.listed_piece(entries[i]) {
            if let Ok(rest) = volume.listed_pieces(entries, i + 1) {
                let pieces = seq![piece] + rest;
                assert forall|k: int| 0 <= k < pieces.len() implies volume.listed_piece(
                    entries[i + k],
                ) == Ok::<PieceView, NtfsError>(#[trigger] pieces[k]) by {
                    if k > 0 {
                        assert(pieces[k] == rest[k - 1]);
                        assert(entries[i + k] == entries[(i + 1) + (k - 1)]);
                    }
                }
            } else {
                let k = choose|k: int|
                    i + 1 <= k < entries.len() && volume.listed_piece(#[trigger] entries[k]) is Err;
                assert(volume.listed_piece(entries[k]) is Err);
            }
        } else {
            assert(volume.listed_piece(entries[i]) is Err);
        }
    }
}

/// A list entry points at the first `$DATA` of its name and id in the record that it refers
/// to.
pub proof fn law_a_list_entry_points_at_its_attribute(
    volume: Volume,
    entry: ListEntryView,
    rec: Seq<u8>,
    attrs: Seq<AttributeView>,
    i: int,
)
    requires
        volume.record(entry.base_reference.record_number as int) == Ok::<Seq<u8>, NtfsError>(rec),
        attributes_of(rec) == Ok::<Seq<AttributeView>, NtfsError>(attrs),
        0 <= i < attrs.len(),
        attrs[i].type_code == 0x80 && attrs[i].name == entry.name && attrs[i].attribute_id
            == entry.attribute_id,
        forall|j: int|
            0 <= j < i ==> !((#[trigger] attrs[j]).type_code == 0x80 && attrs[j].name == entry.name
                && attrs[j].attribute_id == entry.attribute_id),
    ensures
        volume.listed_piece(entry) == Ok::<PieceView, NtfsError>(
            PieceView { record: rec, attribute: attrs[i] },
        ),
{
    walk::lemma_first_is(attrs, of_stream(entry.name, Some(entry.attribute_id)), i);
}

/// The entries of a stream in a list are those of the `$DATA` type with the stream's name.
pub proof fn law_a_stream_has_the_entries_of_its_name(
    entries: Seq<ListEntryView>,
    stream: Option<Seq<char>>,
    e: ListEntryView,
)
    ensures
        entries.filter(listed_stream(stream)).contains(e) <==> entries.contains(e) && e.type_code
            == 0x80 && e.name == stream,
{
    walk::lemma_filter_picks(entries, listed_stream(stream));
}

/// The runs of several pieces are those of each, one after the other.
pub proof fn law_runs_of_pieces_are_joined(a: Seq<PieceView>, b: Seq<PieceView>, i: int)
    requires
        0 <= i <= a.len(),
        piece_runs(a, i) is Ok,
        piece_runs(b, 0) is Ok,
    ensures
        piece_runs(a + b, i) == Ok::<Seq<Run>, NtfsError>(
            piece_runs(a, i)->Ok_0 + piece_runs(b, 0)->Ok_0,
        ),
        forall|k: int|
            0 <= k < a.len() ==> piece_runs(seq![#[trigger] a[k]], 0) == data::runlist_of(
                a[k].record,
                a[k].attribute,
            ),
    decreases a.len() - i,
{
    assert forall|k: int| 0 <= k < a.len() implies piece_runs(seq![#[trigger] a[k]], 0)
        == data::runlist_of(a[k].record, a[k].attribute) by {
        let one = seq![a[k]];
        assert(one[0] == a[k]);
        assert(piece_runs(one, 1) == Ok::<Seq<Run>, NtfsError>(Seq::empty()));
        if let Ok(runs) = data::runlist_of(a[k].record, a[k].attribute) {
            walk::lemma_chain_done(runs);
        }
    }
    if i < a.len() {
        assert((a + b)[i] == a[i]);
        law_runs_of_pieces_are_joined(a, b, i + 1);
        let runs = data::runlist_of(a[i].record, a[i].attribute)->Ok_0;
        assert(runs + (piece_runs(a, i + 1)->Ok_0 + piece_runs(b, 0)->Ok_0) =~= runs + piece_runs(
            a,
            i + 1,
        )->Ok_0 + piece_runs(b, 0)->Ok_0);
    } else {
        lemma_pieces_behind(a, b, 0);
        assert(Seq::<Run>::empty() + piece_runs(b, 0)->Ok_0 =~= piece_runs(b, 0)->Ok_0);
    }
}

proof fn lemma_pieces_behind(a: Seq<PieceView>, b: Seq<PieceView>, i: int)
    requires
        0 <= i <= b.len(),
    ensures
        piece_runs(a + b, a.len() + i) == piece_runs(b, i),
    decreases b.len() - i,
{
    if i < b.len() {
        assert((a + b)[a.len() + i] == b[i]);
        lemma_pieces_behind(a, b, i + 1);
    }
}

/// A `$DATA` in the record itself is not the whole stream when it begins further on, or its
/// runs do not hold what it declares: where the list has pieces of the stream, they are it.
pub proof fn law_a_fragment_is_not_the_stream(
    volume: Volume,
    rec: Seq<u8>,
    attrs: Seq<AttributeView>,
    stream: Option<Seq<char>>,
    i: int,
    total: int,
)
    requires
        attributes_of(rec) == Ok::<Seq<AttributeView>, NtfsError>(attrs),
        0 <= i < attrs.len(),
        attrs[i].type_code == 0x80 && attrs[i].name == stream,
        forall|j: int|
            0 <= j < i ==> !((#[trigger] attrs[j]).type_code == 0x80 && attrs[j].name == stream),
        attrs[i].body is NonResident,
        data::runlist_of(rec, attrs[i]) matches Ok(runs) && data::allocated(
            runs,
            volume.cluster_size(),
        ) == Ok::<int, NtfsError>(total),
        volume.pieces_listed(rec, attrs, stream) matches Ok(listed) && listed.len() > 0,
    ensures
        attrs[i].body matches AttributeBody::NonResident {
            start_vcn,
            allocated_size,
            real_size,
            ..
        } && volume.pieces(rec, stream) == if start_vcn > 0 || allocated_size > total || real_size
            > total {
            volume.pieces_listed(rec, attrs, stream)
        } else {
            Ok::<Seq<PieceView>, NtfsError>(
                seq![PieceView { record: rec, attribute: attrs[i] }],
            )
        },
{
    walk::lemma_first_is(attrs, of_stream(stream, None), i);
}

/// The pieces of a resident stream, or of one that no list mentions, are the first `$DATA`
/// of its name in the record, and there are none when it has none.
pub proof fn law_a_stream_is_the_first_of_its_name(
    volume: Volume,
    rec: Seq<u8>,
    attrs: Seq<AttributeView>,
    stream: Option<Seq<char>>,
    i: int,
)
    requires
        attributes_of(rec) == Ok::<Seq<AttributeView>, NtfsError>(attrs),
        0 <= i <= attrs.len(),
        i < attrs.len() ==> attrs[i].type_code == 0x80 && attrs[i].name == stream,
        forall|j: int|
            0 <= j < i ==> !((#[trigger] attrs[j]).type_code == 0x80 && attrs[j].name == stream),
        i < attrs.len() && attrs[i].body is Resident || forall|j: int|
            0 <= j < attrs.len() ==> (#[trigger] attrs[j]).type_code != 0x20,
    ensures
        volume.pieces(rec, stream) == Ok::<Seq<PieceView>, NtfsError>(
            if i < attrs.len() {
                seq![PieceView { record: rec, attribute: attrs[i] }]
            } else {
                Seq::empty()
            },
        ),
{
    walk::lemma_first_is(attrs, of_stream(stream, None), i);
    if forall|j: int| 0 <= j < attrs.len() ==> (#[trigger] attrs[j]).type_code != 0x20 {
        walk::lemma_first_is(attrs, of_type(0x20), attrs.len() as int);
    }
}

/// A list is looked for in the first attribute of its type, and its entries of the stream
/// are followed.
pub proof fn law_the_list_is_followed(
    volume: Volume,
    rec: Seq<u8>,
    attrs: Seq<AttributeView>,
    stream: Option<Seq<char>>,
    i: int,
    value: Seq<u8>,
    entries: Seq<ListEntryView>,
)
    requires
        0 <= i < attrs.len(),
        attrs[i].type_code == 0x20,
        forall|j: int| 0 <= j < i ==> (#[trigger] attrs[j]).type_code != 0x20,
        data::attribute_value(volume.image, rec, attrs[i], volume.cluster_size()) == Ok::<
            Seq<u8>,
            NtfsError,
        >(value),
        attribute_list::parsed_list(value) == Ok::<Seq<ListEntryView>, NtfsError>(entries),
        forall|k: int|
            0 <= k < entries.len() ==> (#[trigger] entries[k]).type_code == 0x80 && entries[k].name
                == stream,
    ensures
        volume.pieces_listed(rec, attrs, stream) == volume.listed_pieces(entries, 0),
{
    walk::lemma_first_is(attrs, of_type(0x20), i);
    lemma_all_picked(entries, listed_stream(stream));
}

proof fn lemma_all_picked<T>(items: Seq<T>, wanted: spec_fn(T) -> bool)
    requires
        forall|k: int| 0 <= k < items.len() ==> wanted(#[trigger] items[k]),
    ensures
        items.filter(wanted) == items,
    decreases items.len(),
{
    reveal(Seq::filter);
    if items.len() > 0 {
        lemma_all_picked(items.drop_last(), wanted);
        assert(items =~= items.drop_last().push(items.last()));
    }
}

/// The value of a stream in clusters is what the runs of all its pieces hold, up to the
/// real size that its first piece declares, or the cap; compressed when the first piece is.
pub proof fn law_the_first_piece_declares_the_stream(
    volume: Volume,
    pieces: Seq<PieceView>,
    cap: int,
    runs: Seq<Run>,
)
    requires
        pieces.len() > 0,
        0 <= cap,
        piece_runs(pieces, 0) == Ok::<Seq<Run>, NtfsError>(runs),
        pieces[0].attribute.body is NonResident,
    ensures
        pieces[0].attribute.body matches AttributeBody::NonResident {
            real_size,
            compression_unit,
            ..
        } && volume.pieces_value(pieces, cap) == data::stream_value(
            volume.image,
            runs,
            volume.cluster_size(),
            if real_size < cap {
                real_size as int
            } else {
                cap
            },
            pieces[0].attribute.flags % 2 == 1,
            compression_unit,
            pieces[0].attribute.offset,
        ),
{
    attribute::law_the_lowest_flag_means_compressed(pieces[0].attribute);
}

/// A stream that the record does not have is not found, and the message names it.
#[verifier::rlimit(60)]
#[verifier::spinoff_prover]
pub proof fn law_a_missing_stream_is_named(
    volume: Volume,
    entry: int,
    rec: Seq<u8>,
    attrs: Seq<AttributeView>,
    stream: Option<Seq<char>>,
    cap: int,
    label: Seq<char>,
)
    requires
        volume.record(entry) == Ok::<Seq<u8>, NtfsError>(rec),
        attributes_of(rec) == Ok::<Seq<AttributeView>, NtfsError>(attrs),
        forall|j: int|
            0 <= j < attrs.len() ==> (#[trigger] attrs[j]).type_code != 0x20 && !(attrs[j].type_code
                == 0x80 && attrs[j].name == stream),
    ensures
        volume.stream(entry, stream, cap, label) == Err::<Seq<u8>, FsErrorView>(
            FsErrorView::NotFound(
                match stream {
                    Some(name) => label + seq![':'] + name,
                    None => label + seq![':', ':', '$', 'D', 'A', 'T', 'A'],
                },
            ),
        ),
{
    reveal_strlit(":");
    reveal_strlit("::$DATA");
    law_a_stream_is_the_first_of_its_name(volume, rec, attrs, stream, attrs.len() as int);
    assert(":"@ =~= seq![':']);
    assert("::$DATA"@ =~= seq![':', ':', '$', 'D', 'A', 'T', 'A']);
    if let Some(name) = stream {
        assert(label + (seq![':'] + name) =~= label + seq![':'] + name);
    }
}

/// The value of a stream whose first piece is resident is what stands in that piece's
/// record, cut to the cap.
pub proof fn law_a_resident_stream_stands_in_its_record(
    volume: Volume,
    pieces: Seq<PieceView>,
    cap: int,
    content: Seq<u8>,
)
    requires
        pieces.len() > 0,
        0 <= cap,
        pieces[0].attribute.body is Resident,
        pieces[0].attribute.content_in(pieces[0].record) == Some(content),
    ensures
        volume.pieces_value(pieces, cap) matches Ok(value) && {
            &&& content.len() <= cap ==> value == content
            &&& content.len() > cap ==> value == content.take(cap)
        },
{
    assert(content.take(content.len() as int) =~= content);
}

/// A stream that has pieces is read from them and from nothing else: its bytes are theirs,
/// and its runs are theirs.
pub proof fn law_a_stream_is_its_pieces(
    volume: Volume,
    entry: int,
    rec: Seq<u8>,
    stream: Option<Seq<char>>,
    pieces: Seq<PieceView>,
    cap: int,
    label: Seq<char>,
)
    requires
        volume.record(entry) == Ok::<Seq<u8>, NtfsError>(rec),
        volume.pieces(rec, stream) == Ok::<Seq<PieceView>, NtfsError>(pieces),
        pieces.len() > 0,
    ensures
        volume.pieces_value(pieces, cap) matches Ok(value) ==> volume.stream(
            entry,
            stream,
            cap,
            label,
        ) == Ok::<Seq<u8>, FsErrorView>(value),
        volume.pieces_value(pieces, cap) is Err ==> volume.stream(entry, stream, cap, label) is Err,
        piece_runs(pieces, 0) matches Ok(runs) ==> volume.stream_runs(entry, stream) == Ok::<
            Seq<Run>,
            FsErrorView,
        >(runs),
        piece_runs(pieces, 0) is Err ==> volume.stream_runs(entry, stream) is Err,
{
}

/// A file is read whole, from the record that its path leads to, and not at all when the
/// path leads nowhere.
pub proof fn law_a_file_is_what_its_path_leads_to(
    volume: Volume,
    path: Seq<char>,
    stream: Option<Seq<char>>,
)
    ensures
        volume.located(path) is Err ==> volume.file_stream(path, stream) is Err,
        volume.located(path) matches Ok(entry) ==> volume.file_stream(path, stream)
            == volume.stream(entry as int, stream, 0xFFFF_FFFF_FFFF_FFFF, path),
{
}

/// A directory is its index root, in the first attribute of that type, and for a large one
/// the buffers of its first index allocation: it can be listed when these can be read, every
/// named entry of the root is in the list, and the buffers' entries follow the root's.
pub proof fn law_a_directory_is_its_root_and_its_buffers(
    volume: Volume,
    rec: Seq<u8>,
    attrs: Seq<AttributeView>,
    r: int,
    content: Seq<u8>,
    root: index::IndexRootView,
    a: int,
    value: Seq<u8>,
    more: Seq<IndexEntryView>,
)
    requires
        attributes_of(rec) == Ok::<Seq<AttributeView>, NtfsError>(attrs),
        0 <= r < attrs.len(),
        attrs[r].type_code == 0x90,
        forall|j: int| 0 <= j < r ==> (#[trigger] attrs[j]).type_code != 0x90,
        attrs[r].content_in(rec) == Some(content),
        index::parsed_root(content) == Ok::<index::IndexRootView, NtfsError>(root),
        0 <= a <= attrs.len(),
        forall|j: int| 0 <= j < a ==> (#[trigger] attrs[j]).type_code != 0xA0,
        a < attrs.len() ==> {
            &&& attrs[a].type_code == 0xA0
            &&& data::attribute_value(volume.image, rec, attrs[a], volume.cluster_size()) == Ok::<
                Seq<u8>,
                NtfsError,
            >(value)
            &&& blocks_from(
                value,
                0,
                volume.boot.index_record_size as int,
                volume.boot.bytes_per_sector as int,
            ) == Ok::<Seq<IndexEntryView>, NtfsError>(more)
        },
    ensures
        volume.listing(rec) matches Ok(list) && {
            let own = root.entries.filter(named());
            &&& list == if root.is_large && a < attrs.len() {
                own + more
            } else {
                own
            }
            &&& forall|e: IndexEntryView| #[trigger]
                root.entries.contains(e) && e.file_name is Some ==> list.contains(e)
        },
{
    walk::lemma_first_is(attrs, of_type(0x90), r);
    walk::lemma_first_is(attrs, of_type(0xA0), a);
    let own = root.entries.filter(named());
    walk::lemma_filter_picks(root.entries, named());
    walk::lemma_chain_done(own);
    let list = volume.listing(rec)->Ok_0;
    assert forall|e: IndexEntryView| #[trigger]
        root.entries.contains(e) && e.file_name is Some implies list.contains(e) by {
        assert(own.contains(e));
        let i = choose|i: int| 0 <= i < own.len() && own[i] == e;
        assert(list[i] == e);
    }
}

} // verus!
