//! What an MFT record says of its file: kind, size, times, and best name.

use vstd::prelude::*;
use crate::attribute;
use crate::attribute::{Attribute, AttributeBody, AttributeView};
use crate::error::NtfsError;
use crate::file_name;
use crate::file_name::{FileName, FileNameView};
use crate::fs;
use crate::layout;
use crate::record;
use crate::record::MftRecordHeader;
use crate::reparse;
use crate::reparse::NodeKind;
use crate::standard_information;
use crate::standard_information::StandardInformation;
use crate::walk;

verus! {

/// Whether a record is in use.
#[derive(Debug, Clone, Copy, PartialEq, Eq, Structural)]
pub enum Allocation {
    /// In use.
    Allocated,
    /// Not in use: a deleted file.
    Deleted,
}

/// Where a file's content is stored.
#[derive(Debug, Clone, Copy, PartialEq, Eq, Structural)]
pub enum ResidencyKind {
    /// Inside the MFT record.
    Resident {
        /// Length of the inline content.
        inline_len: u32,
    },
    /// In clusters of its own.
    NonResident,
}

/// The four timestamps, in nanoseconds since the Unix epoch.
#[derive(Debug, Clone, Copy, PartialEq, Eq, Structural)]
pub struct MacbTimes {
    /// Content modification time.
    pub modified: Option<i128>,
    /// Last access time.
    pub accessed: Option<i128>,
    /// MFT record modification time.
    pub changed: Option<i128>,
    /// Creation time.
    pub born: Option<i128>,
}

/// The metadata of one file.
#[derive(Debug, Clone, Copy, PartialEq, Eq, Structural)]
pub struct NodeMeta {
    /// MFT record number.
    pub ino: u64,
    /// What the file is.
    pub kind: NodeKind,
    /// Whether the record is in use.
    pub allocated: Allocation,
    /// Size of the unnamed `$DATA`, in bytes.
    pub size: u64,
    /// Hard link count.
    pub nlink: u32,
    /// The `$STANDARD_INFORMATION` times.
    pub times: MacbTimes,
    /// Where the unnamed `$DATA` is stored.
    pub residency: ResidencyKind,
}

/// No times.
pub open spec fn no_times() -> MacbTimes {
    MacbTimes { modified: None, accessed: None, changed: None, born: None }
}

/// The times of a `$STANDARD_INFORMATION`.
pub open spec fn times_of(si: StandardInformation) -> MacbTimes {
    MacbTimes {
        modified: Some((si.modified.unix_ticks() * 100) as i128),
        accessed: Some((si.accessed.unix_ticks() * 100) as i128),
        changed: Some((si.mft_modified.unix_ticks() * 100) as i128),
        born: Some((si.created.unix_ticks() * 100) as i128),
    }
}

/// The times of a record: none where its `$STANDARD_INFORMATION` is missing or malformed.
pub open spec fn record_times(rec: Seq<u8>, attrs: Seq<AttributeView>) -> MacbTimes {
    match fs::first_content(rec, attrs, layout::STANDARD_INFORMATION) {
        Some(content) => match standard_information::parsed_information(content) {
            Ok(si) => times_of(si),
            Err(_) => no_times(),
        },
        None => no_times(),
    }
}

/// The size and residency of the unnamed `$DATA`: empty and resident when there is none.
pub open spec fn record_size(attrs: Seq<AttributeView>) -> (u64, ResidencyKind) {
    match walk::first(attrs, fs::of_stream(None, None)) {
        Some(a) => match a.body {
            AttributeBody::Resident { content_length, .. } => (
                content_length as u64,
                ResidencyKind::Resident { inline_len: content_length },
            ),
            AttributeBody::NonResident { real_size, .. } => (real_size, ResidencyKind::NonResident),
        },
        None => (0, ResidencyKind::Resident { inline_len: 0 }),
    }
}

/// The kind of a record: the directory flag decides, then a stated POSIX type.
pub open spec fn record_kind(
    header: MftRecordHeader,
    rec: Seq<u8>,
    attrs: Seq<AttributeView>,
) -> NodeKind {
    if header.directory() {
        NodeKind::Dir
    } else {
        match reparse::stated_kind(rec, attrs) {
            Some(kind) => kind,
            None => NodeKind::File,
        }
    }
}

/// The metadata that the bytes of record `entry` state.
pub open spec fn node_meta(entry: u64, rec: Seq<u8>) -> Result<NodeMeta, NtfsError> {
    match record::parsed_header(rec) {
        Err(e) => Err(e),
        Ok(header) => match attribute::parsed_attributes(
            rec,
            header.first_attribute_offset as int,
        ) {
            Err(e) => Err(e),
            Ok(attrs) => Ok(
                NodeMeta {
                    ino: entry,
                    kind: record_kind(header, rec, attrs),
                    allocated: if header.in_use() {
                        Allocation::Allocated
                    } else {
                        Allocation::Deleted
                    },
                    size: record_size(attrs).0,
                    nlink: header.hard_link_count as u32,
                    times: record_times(rec, attrs),
                    residency: record_size(attrs).1,
                },
            ),
        },
    }
}

/// Reads the times of a record.
fn find_times(rec: &[u8], attrs: &Vec<Attribute>) -> (r: MacbTimes)
    ensures
        r == record_times(rec@, walk::models(attrs@)),
{
    let none = MacbTimes { modified: None, accessed: None, changed: None, born: None };
    match fs::find_content(rec, attrs, layout::STANDARD_INFORMATION) {
        Some(content) => match StandardInformation::parse(content) {
            Ok(si) => MacbTimes {
                modified: Some(si.modified.to_unix_nanos()),
                accessed: Some(si.accessed.to_unix_nanos()),
                changed: Some(si.mft_modified.to_unix_nanos()),
                born: Some(si.created.to_unix_nanos()),
            },
            Err(_) => none,
        },
        None => none,
    }
}

/// Assembles the metadata of a record whose raw bytes are `rec`.
///
/// Size and residency come from the unnamed `$DATA`, which is authoritative: the
/// `$FILE_NAME` sizes are updated lazily and are routinely zero on a real volume. A
/// missing or malformed `$STANDARD_INFORMATION` leaves the times empty.
///
/// # Errors
///
/// Record-header and attribute errors.
pub fn build_meta(entry: u64, rec: &[u8]) -> (r: Result<NodeMeta, NtfsError>)
    ensures
        r == node_meta(entry, rec@),
{
    let header = match MftRecordHeader::parse(rec) {
        Ok(header) => header,
        Err(e) => {
            return Err(e);
        },
    };
    let attrs = match attribute::parse_attributes(rec, header.first_attribute_offset as usize) {
        Ok(list) => list,
        Err(e) => {
            return Err(e);
        },
    };
    let times = find_times(rec, &attrs);
    let unnamed: Option<String> = None;
    let (size, residency): (u64, ResidencyKind) = match fs::find_stream(&attrs, &unnamed, None) {
        Some(i) => match attrs[i].body {
            AttributeBody::Resident { content_length, .. } => (
                content_length as u64,
                ResidencyKind::Resident { inline_len: content_length },
            ),
            AttributeBody::NonResident { real_size, .. } => (real_size, ResidencyKind::NonResident),
        },
        None => (0, ResidencyKind::Resident { inline_len: 0 }),
    };
    let kind = if header.is_directory() {
        NodeKind::Dir
    } else {
        match reparse::special_kind(rec, &attrs) {
            Some(kind) => kind,
            None => NodeKind::File,
        }
    };
    let allocated = if header.is_in_use() {
        Allocation::Allocated
    } else {
        Allocation::Deleted
    };
    Ok(
        NodeMeta {
            ino: entry,
            kind,
            allocated,
            size,
            nlink: header.hard_link_count as u32,
            times,
            residency,
        },
    )
}

/// How much a namespace is preferred.
pub open spec fn rank_of(ns: u8) -> u8 {
    if ns == layout::NS_WIN32_AND_DOS {
        3
    } else if ns == layout::NS_WIN32 {
        2
    } else if ns == layout::NS_POSIX {
        1
    } else {
        0
    }
}

/// Namespace preference when a record carries several `$FILE_NAME` links: pick the human
/// name over the 8.3 short name. Win32/DOS combined > Win32 > POSIX > DOS, so a DOS-only
/// short name is used only when nothing better exists.
pub fn namespace_rank(ns: u8) -> (r: u8)
    ensures
        r == rank_of(ns),
{
    match ns {
        layout::NS_WIN32_AND_DOS => 3,
        layout::NS_WIN32 => 2,
        layout::NS_POSIX => 1,
        _ => 0,
    }
}

/// The name that attribute `a` holds, when it is a well-formed resident `$FILE_NAME`.
pub open spec fn name_in(rec: Seq<u8>, a: AttributeView) -> Option<FileNameView> {
    if a.type_code != layout::FILE_NAME {
        None
    } else {
        match a.content_in(rec) {
            Some(content) => match file_name::parsed_name(content) {
                Ok(name) => Some(name),
                Err(_) => None,
            },
            None => None,
        }
    }
}

/// The names among the first `n` attributes, in order.
pub open spec fn names_among(rec: Seq<u8>, attrs: Seq<AttributeView>, n: int) -> Seq<FileNameView>
    decreases n,
{
    if n <= 0 {
        Seq::empty()
    } else {
        match name_in(rec, attrs[n - 1]) {
            Some(name) => names_among(rec, attrs, n - 1).push(name),
            None => names_among(rec, attrs, n - 1),
        }
    }
}

/// Whether the name at `i` is the best: none ranks higher, and none of the same rank
/// comes later.
pub open spec fn is_best(names: Seq<FileNameView>, i: int) -> bool {
    &&& 0 <= i < names.len()
    &&& forall|j: int|
        0 <= j < names.len() ==> rank_of((#[trigger] names[j]).namespace) <= rank_of(
            names[i].namespace,
        )
    &&& forall|j: int|
        i < j < names.len() ==> rank_of((#[trigger] names[j]).namespace) < rank_of(
            names[i].namespace,
        )
}

/// The names of a record, in attribute order: none when the record does not parse.
pub open spec fn record_names(rec: Seq<u8>) -> Seq<FileNameView> {
    match fs::attributes_of(rec) {
        Ok(attrs) => names_among(rec, attrs, attrs.len() as int),
        Err(_) => Seq::empty(),
    }
}

/// The best name of a list of names.
pub open spec fn best_of(names: Seq<FileNameView>) -> Option<FileNameView>
    decreases names.len(),
{
    if names.len() == 0 {
        None
    } else {
        match best_of(names.drop_last()) {
            Some(best) => if rank_of(names.last().namespace) >= rank_of(best.namespace) {
                Some(names.last())
            } else {
                Some(best)
            },
            None => Some(names.last()),
        }
    }
}

/// The best name is the last of those with the highest rank; a list that is not empty has
/// one.
pub proof fn law_best_name_ranks_highest(names: Seq<FileNameView>)
    ensures
        names.len() == 0 ==> best_of(names) is None,
        names.len() > 0 ==> exists|i: int|
            #[trigger] is_best(names, i) && best_of(names) == Some(names[i]),
    decreases names.len(),
{
    if names.len() > 0 {
        let shorter = names.drop_last();
        law_best_name_ranks_highest(shorter);
        let n = names.len() - 1;
        if shorter.len() == 0 {
            assert(is_best(names, n));
        } else {
            let i = choose|i: int|
                #[trigger] is_best(shorter, i) && best_of(shorter) == Some(shorter[i]);
            assert(forall|j: int| 0 <= j < n ==> #[trigger] shorter[j] == names[j]);
            if rank_of(names.last().namespace) >= rank_of(shorter[i].namespace) {
                assert forall|j: int| 0 <= j < names.len() implies rank_of(
                    (#[trigger] names[j]).namespace,
                ) <= rank_of(names[n].namespace) by {
                    if j < n {
                        assert(names[j] == shorter[j]);
                    }
                }
                assert(is_best(names, n));
            } else {
                assert forall|j: int| 0 <= j < names.len() implies rank_of(
                    (#[trigger] names[j]).namespace,
                ) <= rank_of(names[i].namespace) by {
                    if j < n {
                        assert(names[j] == shorter[j]);
                    }
                }
                assert forall|j: int| i < j < names.len() implies rank_of(
                    (#[trigger] names[j]).namespace,
                ) < rank_of(names[i].namespace) by {
                    if j < n {
                        assert(names[j] == shorter[j]);
                    }
                }
                assert(is_best(names, i));
            }
        }
    }
}

/// Reads the name that an attribute holds.
fn read_name(rec: &[u8], a: &Attribute) -> (r: Option<FileName>)
    ensures
        match r {
            Some(name) => name_in(rec@, a@) == Some(name@),
            None => name_in(rec@, a@) is None,
        },
{
    if a.type_code != layout::FILE_NAME {
        return None;
    }
    match a.resident_content(rec) {
        Some(content) => match FileName::parse(content) {
            Ok(name) => Some(name),
            Err(_) => None,
        },
        None => None,
    }
}

/// The content of an optional name.
pub open spec fn optional_name(name: Option<FileName>) -> Option<FileNameView> {
    match name {
        Some(n) => Some(n@),
        None => None,
    }
}

/// The best `$FILE_NAME` of a record: the highest-ranked namespace among all name links
/// (Win32 over 8.3 DOS). `None` when the record has no parseable `$FILE_NAME`.
pub fn best_file_name(rec: &[u8]) -> (r: Option<FileName>)
    ensures
        optional_name(r) == best_of(record_names(rec@)),
{
    let attrs = match fs::record_attributes(rec) {
        Ok(list) => list,
        Err(_) => {
            return None;
        },
    };
    let ghost list = walk::models(attrs@);
    let mut best: Option<FileName> = None;
    let mut i: usize = 0;
    while i < attrs.len()
        invariant
            i <= attrs.len(),
            list == walk::models(attrs@),
            optional_name(best) == best_of(names_among(rec@, list, i as int)),
        decreases attrs.len() - i,
    {
        let ghost names = names_among(rec@, list, i as int);
        assert(list[i as int] == attrs@[i as int]@);
        match read_name(rec, &attrs[i]) {
            Some(name) => {
                proof {
                    assert(names.push(name@).drop_last() =~= names);
                    assert(names.push(name@).last() == name@);
                }
                let better = match &best {
                    Some(held) => namespace_rank(name.namespace) >= namespace_rank(held.namespace),
                    None => true,
                };
                if better {
                    best = Some(name);
                }
            },
            None => {},
        }
        i += 1;
    }
    best
}

/// The names of a record are those of its `$FILE_NAME` attributes that can be read, and no
/// others.
pub proof fn law_every_readable_name_is_a_candidate(
    rec: Seq<u8>,
    attrs: Seq<AttributeView>,
    n: int,
    name: FileNameView,
)
    requires
        0 <= n <= attrs.len(),
    ensures
        names_among(rec, attrs, n).contains(name) <==> exists|i: int|
            0 <= i < n && (#[trigger] attrs[i]).type_code == 0x30 && (attrs[i].content_in(
                rec,
            ) matches Some(content) && file_name::parsed_name(content) == Ok::<
                FileNameView,
                NtfsError,
            >(name)),
    decreases n,
{
    let names = names_among(rec, attrs, n);
    if n > 0 {
        law_every_readable_name_is_a_candidate(rec, attrs, n - 1, name);
        let shorter = names_among(rec, attrs, n - 1);
        if let Some(found) = name_in(rec, attrs[n - 1]) {
            assert(names == shorter.push(found));
            if shorter.contains(name) {
                let k = choose|k: int| 0 <= k < shorter.len() && shorter[k] == name;
                assert(names[k] == name);
            }
            if found == name {
                assert(names[names.len() - 1] == name);
                assert(attrs[n - 1].type_code == 0x30);
            }
            if names.contains(name) {
                let k = choose|k: int| 0 <= k < names.len() && names[k] == name;
                if k < shorter.len() {
                    assert(shorter[k] == name);
                    assert(shorter.contains(name));
                }
            }
        }
    }
}

/// A name for both Win32 and DOS is preferred to one for Win32 alone, that to a POSIX one,
/// and that to a DOS short name.
pub proof fn law_namespaces_are_ranked(ns: u8)
    ensures
        rank_of(3) > rank_of(1) > rank_of(0) > rank_of(2),
        ns > 3 ==> rank_of(ns) == rank_of(2),
{
}

/// The metadata of a record is what its header and attributes say: the number that was
/// asked for, the link count, the in-use flag, and the directory flag before all else.
pub proof fn law_metadata_follows_the_header(
    entry: u64,
    rec: Seq<u8>,
    h: MftRecordHeader,
    attrs: Seq<AttributeView>,
)
    requires
        record::holds_header(rec, h),
        h.signature@ == seq![0x46u8, 0x49, 0x4C, 0x45],
        attribute::parsed_attributes(rec, h.first_attribute_offset as int) == Ok::<
            Seq<AttributeView>,
            NtfsError,
        >(attrs),
    ensures
        node_meta(entry, rec) matches Ok(meta) && {
            &&& meta.ino == entry
            &&& meta.nlink == h.hard_link_count
            &&& meta.size == record_size(attrs).0
            &&& meta.residency == record_size(attrs).1
            &&& meta.times == record_times(rec, attrs)
            &&& meta.allocated == Allocation::Allocated <==> h.flags % 2 == 1
            &&& meta.kind == NodeKind::Dir <==> h.flags / 2 % 2 == 1
            &&& h.flags / 2 % 2 == 0 ==> (meta.kind == match reparse::stated_kind(rec, attrs) {
                Some(kind) => kind,
                None => NodeKind::File,
            })
        },
{
    record::law_written_headers_parse_back(rec, h);
    record::law_flag_bits_have_their_places(h);
    lemma_no_directory_is_stated(rec, attrs);
}

proof fn lemma_no_directory_is_stated(rec: Seq<u8>, attrs: Seq<AttributeView>)
    ensures
        reparse::stated_kind(rec, attrs) != Some(NodeKind::Dir),
{
}

/// The times of a record are those of its first `$STANDARD_INFORMATION`, each in its own
/// field: born when created, changed when the record was; in nanoseconds since 1970, which
/// came 11,644,473,600 seconds after the timestamps' own start.
pub proof fn law_times_come_from_the_information(
    rec: Seq<u8>,
    attrs: Seq<AttributeView>,
    i: int,
    si: StandardInformation,
)
    requires
        0 <= i < attrs.len(),
        attrs[i].type_code == 0x10,
        forall|j: int| 0 <= j < i ==> (#[trigger] attrs[j]).type_code != 0x10,
        attrs[i].content_in(rec) matches Some(content) && standard_information::holds_information(
            content,
            si,
        ),
    ensures
        ({
            let epoch = 11_644_473_600int * 1_000_000_000;
            let times = record_times(rec, attrs);
            &&& times.born matches Some(t) && t == 100 * si.created.0 - epoch
            &&& times.modified matches Some(t) && t == 100 * si.modified.0 - epoch
            &&& times.changed matches Some(t) && t == 100 * si.mft_modified.0 - epoch
            &&& times.accessed matches Some(t) && t == 100 * si.accessed.0 - epoch
        }),
{
    walk::lemma_first_is(attrs, fs::of_type(0x10), i);
    standard_information::law_written_information_parses_back(attrs[i].content_in(rec)->0, si);
}

/// A record without a `$STANDARD_INFORMATION` has no times.
pub proof fn law_no_information_means_no_times(rec: Seq<u8>, attrs: Seq<AttributeView>)
    requires
        forall|j: int| 0 <= j < attrs.len() ==> (#[trigger] attrs[j]).type_code != 0x10,
    ensures
        record_times(rec, attrs).born is None,
        record_times(rec, attrs).modified is None,
        record_times(rec, attrs).changed is None,
        record_times(rec, attrs).accessed is None,
{
    walk::lemma_first_is(attrs, fs::of_type(0x10), attrs.len() as int);
}

/// The size of a file is that of its first unnamed data: the length of a resident value,
/// or the real size of one in clusters, not the allocated one.
pub proof fn law_size_is_that_of_the_unnamed_data(attrs: Seq<AttributeView>, i: int)
    requires
        0 <= i <= attrs.len(),
        i < attrs.len() ==> attrs[i].type_code == 0x80 && attrs[i].name is None,
        forall|j: int|
            0 <= j < i ==> (#[trigger] attrs[j]).type_code != 0x80 || attrs[j].name is Some,
    ensures
        i == attrs.len() ==> record_size(attrs).0 == 0,
        i < attrs.len() ==> match attrs[i].body {
            AttributeBody::Resident { content_offset, content_length } => {
                &&& record_size(attrs).0 == content_length
                &&& record_size(attrs).1 == ResidencyKind::Resident { inline_len: content_length }
            },
            AttributeBody::NonResident { real_size, .. } => {
                &&& record_size(attrs).0 == real_size
                &&& record_size(attrs).1 == ResidencyKind::NonResident
            },
        },
{
    walk::lemma_first_is(attrs, fs::of_stream(None, None), i);
}

/// Every attribute of a record may give its name.
pub proof fn law_a_record_has_the_names_of_its_attributes(
    rec: Seq<u8>,
    attrs: Seq<AttributeView>,
    name: FileNameView,
)
    requires
        fs::attributes_of(rec) == Ok::<Seq<AttributeView>, NtfsError>(attrs),
    ensures
        record_names(rec).contains(name) <==> exists|i: int|
            0 <= i < attrs.len() && (#[trigger] attrs[i]).type_code == 0x30 && (attrs[i].content_in(
                rec,
            ) matches Some(content) && file_name::parsed_name(content) == Ok::<
                FileNameView,
                NtfsError,
            >(name)),
{
    law_every_readable_name_is_a_candidate(rec, attrs, attrs.len() as int, name);
}

} // verus!
