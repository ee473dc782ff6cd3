//! MFT entry carving from unallocated space or raw disk data.
//!
//! Scans arbitrary binary data looking for valid MFT entries ("FILE" signature at
//! 1024-byte boundaries), validates each candidate, and extracts the identity fields
//! needed for path resolution.

use vstd::prelude::*;
use safe_read::{le_u16, le_u32, le_u64};
use crate::bytes;
use crate::file_name;
use crate::file_name::FileReference;
use crate::layout;
use crate::text;
use crate::walk;

verus! {

/// Standard MFT entry size in bytes.
pub const MFT_ENTRY_SIZE: usize = 1024;

/// Maximum number of attributes to walk before giving up.
pub const MAX_ATTR_WALK: usize = 20;

/// Minimum `$FILE_NAME` content (through the namespace byte).
pub const NAME_HEADER: usize = 66;

/// A carved MFT entry with its offset in the source data.
#[derive(Debug, Clone)]
pub struct CarvedMftEntry {
    /// Byte offset in the source data where this entry was found.
    pub offset: usize,
    /// MFT record number (from NTFS 3.1+ header field at offset 44).
    pub entry_number: u64,
    /// Sequence number from the MFT entry header.
    pub sequence_number: u16,
    /// Best filename extracted from FILE_NAME attribute (Win32 preferred over DOS).
    pub filename: String,
    /// Parent directory MFT entry number.
    pub parent_entry: u64,
    /// Parent directory sequence number.
    pub parent_sequence: u16,
    /// Whether this entry has the directory flag set.
    pub is_directory: bool,
    /// Whether this entry has the in-use flag set.
    pub is_in_use: bool,
}

/// The mathematical content of a [`CarvedMftEntry`].
#[verifier::ext_equal]
pub struct CarvedView {
    pub offset: usize,
    pub entry_number: u64,
    pub sequence_number: u16,
    pub filename: Seq<char>,
    pub parent_entry: u64,
    pub parent_sequence: u16,
    pub is_directory: bool,
    pub is_in_use: bool,
}

impl View for CarvedMftEntry {
    type V = CarvedView;

    open spec fn view(&self) -> CarvedView {
        CarvedView {
            offset: self.offset,
            entry_number: self.entry_number,
            sequence_number: self.sequence_number,
            filename: self.filename@,
            parent_entry: self.parent_entry,
            parent_sequence: self.parent_sequence,
            is_directory: self.is_directory,
            is_in_use: self.is_in_use,
        }
    }
}

/// Statistics from an MFT carving operation.
#[derive(Debug, Clone, PartialEq, Eq, Structural)]
pub struct MftCarvingStats {
    /// Total bytes scanned.
    pub bytes_scanned: usize,
    /// Number of "FILE" signature candidates found.
    pub candidates_examined: u64,
    /// Number of entries successfully carved.
    pub entries_carved: usize,
    /// Number of candidates rejected (invalid header, no filename, etc.).
    pub rejected: u64,
}

impl Default for MftCarvingStats {
    fn default() -> (r: Self)
        ensures
            r.bytes_scanned == 0,
            r.candidates_examined == 0,
            r.entries_carved == 0,
            r.rejected == 0,
    {
        MftCarvingStats {
            bytes_scanned: 0,
            candidates_examined: 0,
            entries_carved: 0,
            rejected: 0,
        }
    }
}

/// A name found in an entry, with the directory that it places the file in.
#[verifier::ext_equal]
pub struct NameView {
    pub name: Seq<char>,
    pub parent: FileReference,
    pub namespace: u8,
}

/// The name in the FILE_NAME attribute at `at`, unless the attribute is too short for
/// its header, declares no name, or its name reaches past the entry or the attribute.
pub open spec fn name_at(entry: Seq<u8>, at: int) -> Option<NameView> {
    let start = at + bytes::u16_or_zero(entry, at + 20);
    let units = entry[start + 64];
    let stop = start + NAME_HEADER + 2 * units;
    if start + NAME_HEADER > entry.len() || bytes::u32_or_zero(entry, at + 16) < NAME_HEADER {
        None
    } else if units == 0 || stop > entry.len() || stop > at + bytes::u32_or_zero(entry, at + 4) {
        None
    } else {
        Some(
            NameView {
                name: text::utf16le_text(entry.subrange(start + NAME_HEADER, stop)),
                parent: file_name::reference_of(bytes::u64_at(entry, start)),
                namespace: entry[start + 65],
            },
        )
    }
}

/// Whether `ns` is a namespace of names for display.
pub open spec fn is_win32(ns: u8) -> bool {
    ns == layout::NS_WIN32 || ns == layout::NS_WIN32_AND_DOS
}

/// Whether a name of namespace `ns` takes the place of the best one so far: a Win32 name
/// is kept, and a DOS name never replaces another.
pub open spec fn displaces(best: Option<NameView>, ns: u8) -> bool {
    match best {
        None => true,
        Some(held) => (held.namespace == layout::NS_DOS && is_win32(ns)) || (!is_win32(
            held.namespace,
        ) && ns != layout::NS_DOS),
    }
}

/// The best name after the attribute at `at`: only a resident FILE_NAME can change it.
pub open spec fn better(entry: Seq<u8>, at: int, best: Option<NameView>) -> Option<NameView> {
    if bytes::u32_at(entry, at) == layout::FILE_NAME && at + 8 < entry.len() && entry[at + 8]
        == 0 {
        match name_at(entry, at) {
            Some(found) => if displaces(best, found.namespace) {
                Some(found)
            } else {
                best
            },
            None => best,
        }
    } else {
        best
    }
}

/// The best name after the attributes from `at` on, of which `left` may still be walked.
/// The walk ends at the end marker and at an attribute that is corrupt.
pub open spec fn best_from(entry: Seq<u8>, at: int, left: nat, best: Option<NameView>) -> Option<
    NameView,
>
    decreases left,
{
    let length = bytes::u32_at(entry, at + 4);
    if left == 0 || at + 8 > MFT_ENTRY_SIZE || bytes::u32_at(entry, at) == layout::ATTRIBUTES_END {
        best
    } else if length < 8 || at + length > MFT_ENTRY_SIZE {
        best
    } else {
        best_from(entry, at + length, (left - 1) as nat, better(entry, at, best))
    }
}

/// What the entry at `offset` of the data is carved as: nothing when it was never used,
/// its first attribute lies outside the plausible range, or it has no name.
pub open spec fn carved_at(data: Seq<u8>, offset: int) -> Option<CarvedView> {
    let entry = data.subrange(offset, offset + MFT_ENTRY_SIZE);
    let first = bytes::u16_at(entry, 20);
    if bytes::u16_at(entry, 16) == 0 || !(48 <= first < MFT_ENTRY_SIZE - 8) {
        None
    } else {
        match best_from(entry, first as int, MAX_ATTR_WALK as nat, None) {
            None => None,
            Some(best) => Some(
                CarvedView {
                    offset: offset as usize,
                    entry_number: bytes::u32_at(entry, 44) as u64,
                    sequence_number: bytes::u16_at(entry, 16),
                    filename: best.name,
                    parent_entry: best.parent.record_number,
                    parent_sequence: best.parent.sequence,
                    is_directory: bytes::u16_at(entry, 22) & 0x02 != 0,
                    is_in_use: bytes::u16_at(entry, 22) & 0x01 != 0,
                },
            ),
        }
    }
}

/// Whether a candidate begins at `offset`.
pub open spec fn candidate_at(data: Seq<u8>, offset: int) -> bool {
    bytes::has_at(data, offset, layout::SIGNATURE_FILE@)
}

/// The entries carved from `offset` on, one 1024-byte step at a time.
pub open spec fn carved_from(data: Seq<u8>, offset: int) -> Seq<CarvedView>
    decreases data.len() - offset,
{
    if offset + MFT_ENTRY_SIZE > data.len() {
        Seq::empty()
    } else {
        let rest = carved_from(data, offset + MFT_ENTRY_SIZE);
        if candidate_at(data, offset) {
            match carved_at(data, offset) {
                Some(entry) => seq![entry] + rest,
                None => rest,
            }
        } else {
            rest
        }
    }
}

/// How many candidates there are from `offset` on.
pub open spec fn candidates_from(data: Seq<u8>, offset: int) -> nat
    decreases data.len() - offset,
{
    if offset + MFT_ENTRY_SIZE > data.len() {
        0
    } else {
        candidates_from(data, offset + MFT_ENTRY_SIZE) + if candidate_at(data, offset) {
            1nat
        } else {
            0nat
        }
    }
}

/// A name found in an entry.
struct FoundName {
    name: String,
    parent: FileReference,
    namespace: u8,
}

impl View for FoundName {
    type V = NameView;

    closed spec fn view(&self) -> NameView {
        NameView { name: self.name@, parent: self.parent, namespace: self.namespace }
    }
}

/// The view of an optional name.
spec fn found_view(found: Option<FoundName>) -> Option<NameView> {
    match found {
        Some(f) => Some(f@),
        None => None,
    }
}

/// Carves MFT entries from raw binary data.
///
/// Scans on 1024-byte boundaries looking for the "FILE" signature, validates the entry
/// header, and extracts identity fields from the FILE_NAME attribute. Returns the carved
/// entries and the statistics of the scan.
pub fn carve_mft_entries(data: &[u8]) -> (r: (Vec<CarvedMftEntry>, MftCarvingStats))
    ensures
        walk::models(r.0@) == carved_from(data@, 0),
        r.1.bytes_scanned == data@.len(),
        r.1.candidates_examined == candidates_from(data@, 0),
        r.1.entries_carved == r.0@.len(),
        r.1.rejected == candidates_from(data@, 0) - r.0@.len(),
{
    let mut results: Vec<CarvedMftEntry> = Vec::new();
    let mut candidates: u64 = 0;
    let mut rejected: u64 = 0;
    let mut offset: usize = 0;
    assert(walk::models(results@) + carved_from(data@, 0) =~= carved_from(data@, 0));
    while data.len() - offset >= MFT_ENTRY_SIZE
        invariant
            offset <= data.len(),
            candidates <= offset,
            rejected + results@.len() == candidates,
            walk::models(results@) + carved_from(data@, offset as int) == carved_from(data@, 0),
            candidates + candidates_from(data@, offset as int) == candidates_from(data@, 0),
        decreases data.len() - offset,
    {
        if bytes::quad_is(data, offset, layout::SIGNATURE_FILE) {
            candidates += 1;
            match try_carve_entry(data, offset) {
                Some(entry) => {
                    proof {
                        let rest = carved_from(data@, offset + MFT_ENTRY_SIZE);
                        walk::lemma_models_push(results@, entry);
                        assert(walk::models(results@) + (seq![entry@] + rest) =~= walk::models(
                            results@,
                        ).push(entry@) + rest);
                    }
                    results.push(entry);
                },
                None => {
                    rejected += 1;
                },
            }
        }
        offset += MFT_ENTRY_SIZE;
    }
    assert(walk::models(results@) + Seq::<CarvedView>::empty() =~= walk::models(results@));
    let entries_carved: usize = results.len();
    let stats = MftCarvingStats {
        bytes_scanned: data.len(),
        candidates_examined: candidates,
        entries_carved,
        rejected,
    };
    (results, stats)
}

/// Attempts to carve a single MFT entry at the given offset.
fn try_carve_entry(data: &[u8], offset: usize) -> (r: Option<CarvedMftEntry>)
    requires
        offset + MFT_ENTRY_SIZE <= data.len(),
    ensures
        match r {
            Some(entry) => carved_at(data@, offset as int) == Some(entry@),
            None => carved_at(data@, offset as int) is None,
        },
{
    let entry = vstd::slice::slice_subrange(data, offset, offset + MFT_ENTRY_SIZE);
    let sequence_number: u16 = le_u16(entry, 16);
    if sequence_number == 0 {
        return None;
    }
    let first: usize = le_u16(entry, 20) as usize;
    if first < 48 || first >= MFT_ENTRY_SIZE - 8 {
        return None;
    }
    let flags: u16 = le_u16(entry, 22);
    let entry_number: u64 = le_u32(entry, 44) as u64;
    let mut best: Option<FoundName> = None;
    let mut at: usize = first;
    let mut left: usize = MAX_ATTR_WALK;
    let ghost whole = best_from(entry@, first as int, MAX_ATTR_WALK as nat, None);
    while at + 8 <= MFT_ENTRY_SIZE && left > 0
        invariant_except_break
            at <= MFT_ENTRY_SIZE,
            left <= MAX_ATTR_WALK,
            entry@.len() == MFT_ENTRY_SIZE,
            whole == best_from(entry@, at as int, left as nat, found_view(best)),
        ensures
            whole == found_view(best),
        decreases left,
    {
        let attr_type: u32 = le_u32(entry, at);
        if attr_type == layout::ATTRIBUTES_END {
            break;
        }
        let attr_len: usize = le_u32(entry, at + 4) as usize;
        if attr_len < 8 || attr_len > MFT_ENTRY_SIZE - at {
            break;
        }
        if attr_type == layout::FILE_NAME && at + 8 < MFT_ENTRY_SIZE && entry[at + 8] == 0 {
            match parse_filename_attr(entry, at) {
                Some(found) => {
                    if should_replace(&best, found.namespace) {
                        best = Some(found);
                    }
                },
                None => {},
            }
        }
        at += attr_len;
        left -= 1;
    }
    match best {
        Some(found) => Some(
            CarvedMftEntry {
                offset,
                entry_number,
                sequence_number,
                filename: found.name,
                parent_entry: found.parent.record_number,
                parent_sequence: found.parent.sequence,
                is_directory: flags & 0x02 != 0,
                is_in_use: flags & 0x01 != 0,
            },
        ),
        None => None,
    }
}

/// Whether a name of namespace `ns` takes the place of the best one so far.
fn should_replace(best: &Option<FoundName>, ns: u8) -> (r: bool)
    ensures
        r == displaces(found_view(*best), ns),
{
    let win32 = ns == layout::NS_WIN32 || ns == layout::NS_WIN32_AND_DOS;
    match best {
        None => true,
        Some(held) => {
            let held_win32 = held.namespace == layout::NS_WIN32 || held.namespace
                == layout::NS_WIN32_AND_DOS;
            (held.namespace == layout::NS_DOS && win32) || (!held_win32 && ns != layout::NS_DOS)
        },
    }
}

/// Parses a FILE_NAME attribute and extracts identity fields.
fn parse_filename_attr(entry: &[u8], at: usize) -> (r: Option<FoundName>)
    requires
        entry@.len() == MFT_ENTRY_SIZE,
        at + 8 <= MFT_ENTRY_SIZE,
    ensures
        found_view(r) == name_at(entry@, at as int),
{
    let content_offset: usize = le_u16(entry, at + 20) as usize;
    let content_size: usize = le_u32(entry, at + 16) as usize;
    let start: usize = at + content_offset;
    if start + NAME_HEADER > entry.len() || content_size < NAME_HEADER {
        return None;
    }
    let parent = FileReference::from_u64(le_u64(entry, start));
    let units: usize = entry[start + 64] as usize;
    let namespace: u8 = entry[start + 65];
    if units == 0 {
        return None;
    }
    let name_start: usize = start + NAME_HEADER;
    let name_stop: usize = name_start + 2 * units;
    let attr_len: u64 = le_u32(entry, at + 4) as u64;
    if name_stop > entry.len() || name_stop as u64 > at as u64 + attr_len {
        return None;
    }
    let name = text::decode_utf16le(vstd::slice::slice_subrange(entry, name_start, name_stop));
    Some(FoundName { name, parent, namespace })
}

proof fn lemma_carved_from_are_sound(data: Seq<u8>, offset: int)
    requires
        0 <= offset,
        offset % 1024 == 0,
        data.len() <= usize::MAX,
    ensures
        forall|i: int|
            0 <= i < carved_from(data, offset).len() ==> {
                let entry = #[trigger] carved_from(data, offset)[i];
                &&& entry.offset as int % 1024 == 0
                &&& entry.offset + MFT_ENTRY_SIZE <= data.len()
                &&& candidate_at(data, entry.offset as int)
                &&& carved_at(data, entry.offset as int) == Some(entry)
                &&& entry.sequence_number != 0
            },
        carved_from(data, offset).len() <= candidates_from(data, offset),
    decreases data.len() - offset,
{
    if offset + MFT_ENTRY_SIZE <= data.len() {
        lemma_carved_from_are_sound(data, offset + MFT_ENTRY_SIZE);
        let rest = carved_from(data, offset + MFT_ENTRY_SIZE);
        let all = carved_from(data, offset);
        assert forall|i: int| 0 <= i < all.len() implies {
            let entry = #[trigger] all[i];
            &&& entry.offset as int % 1024 == 0
            &&& entry.offset + MFT_ENTRY_SIZE <= data.len()
            &&& candidate_at(data, entry.offset as int)
            &&& carved_at(data, entry.offset as int) == Some(entry)
            &&& entry.sequence_number != 0
        } by {
            if candidate_at(data, offset) && carved_at(data, offset) is Some {
                if i > 0 {
                    assert(all[i] == rest[i - 1]);
                }
            } else {
                assert(all[i] == rest[i]);
            }
        }
    }
}

/// Every carved entry lies whole inside the data at a 1024-byte boundary, begins with the
/// signature, and was used at least once; and no more entries come out than there are
/// candidates.
pub proof fn law_carved_entries_are_signed_and_aligned(data: Seq<u8>)
    requires
        data.len() <= usize::MAX,
    ensures
        forall|i: int|
            0 <= i < carved_from(data, 0).len() ==> {
                let entry = #[trigger] carved_from(data, 0)[i];
                &&& entry.offset as int % 1024 == 0
                &&& entry.offset + MFT_ENTRY_SIZE <= data.len()
                &&& candidate_at(data, entry.offset as int)
                &&& carved_at(data, entry.offset as int) == Some(entry)
                &&& entry.sequence_number != 0
            },
        carved_from(data, 0).len() <= candidates_from(data, 0),
{
    lemma_carved_from_are_sound(data, 0);
}

/// Once a Win32 name is held, no other name takes its place.
pub proof fn law_win32_name_is_kept(held: NameView, ns: u8)
    requires
        is_win32(held.namespace),
    ensures
        !displaces(Some(held), ns),
{
}

/// What is written of an attribute: its type and length, and, for a resident name, where
/// the value begins, its length, the units of the name and what they place.
pub struct WrittenAttribute {
    pub code: u32,
    pub length: u32,
    pub value_at: u16,
    pub value_length: u32,
    pub units: Seq<u16>,
    pub name: NameView,
}

/// Whether `a` is written in `entry` at `at`: an attribute of another type, or a resident
/// name with its fields at their places.
pub open spec fn holds_attribute(entry: Seq<u8>, at: int, a: WrittenAttribute) -> bool {
    let value = at + a.value_at;
    &&& 8 <= a.length
    &&& a.code != 0xFFFF_FFFF
    &&& bytes::spells(entry, at, 4, a.code as nat)
    &&& bytes::spells(entry, at + 4, 4, a.length as nat)
    &&& a.code == 0x30 ==> {
        &&& 24 <= a.length
        &&& entry[at + 8] == 0
        &&& bytes::spells(entry, at + 0x10, 4, a.value_length as nat)
        &&& bytes::spells(entry, at + 0x14, 2, a.value_at as nat)
        &&& a.value_length >= 66
        &&& a.value_at + 66 + 2 * a.units.len() <= a.length
        &&& a.units.len() > 0
        &&& a.name.parent.record_number < 0x1_0000_0000_0000
        &&& bytes::spells(
            entry,
            value,
            8,
            (a.name.parent.record_number + 0x1_0000_0000_0000 * a.name.parent.sequence) as nat,
        )
        &&& bytes::spells(entry, value + 0x40, 1, a.units.len())
        &&& bytes::spells(entry, value + 0x41, 1, a.name.namespace as nat)
        &&& text::stand_at(entry, value + 0x42, a.units)
        &&& a.name.name == text::utf16_lossy(a.units)
    }
}

/// Whether `list` is written in `entry` from `at` on, back to back, and then the end
/// marker.
pub open spec fn holds_list(entry: Seq<u8>, at: int, list: Seq<WrittenAttribute>) -> bool
    decreases list.len(),
{
    if list.len() == 0 {
        at + 8 <= 1024 && bytes::spells(entry, at, 4, 0xFFFF_FFFF)
    } else {
        &&& holds_attribute(entry, at, list[0])
        &&& at + list[0].length <= 1024
        &&& holds_list(entry, at + list[0].length, list.skip(1))
    }
}

/// The names among written attributes, in order.
pub open spec fn written_names(list: Seq<WrittenAttribute>) -> Seq<NameView>
    decreases list.len(),
{
    if list.len() == 0 {
        Seq::empty()
    } else if list[0].code == 0x30 {
        seq![list[0].name] + written_names(list.skip(1))
    } else {
        written_names(list.skip(1))
    }
}

/// What is left as the best when names come one after the other.
spec fn settled(best: Option<NameView>, names: Seq<NameView>) -> Option<NameView>
    decreases names.len(),
{
    if names.len() == 0 {
        best
    } else if displaces(best, names[0].namespace) {
        settled(Some(names[0]), names.skip(1))
    } else {
        settled(best, names.skip(1))
    }
}

proof fn lemma_written_name(entry: Seq<u8>, at: int, a: WrittenAttribute)
    requires
        entry.len() == 1024,
        0 <= at,
        at + a.length <= 1024,
        holds_attribute(entry, at, a),
        a.code == 0x30,
    ensures
        name_at(entry, at) == Some(a.name),
{
    let value = at + a.value_at;
    let raw = a.name.parent.record_number + 0x1_0000_0000_0000 * a.name.parent.sequence;
    reveal_with_fuel(bytes::spells, 2);
    bytes::law_numbers_read_back(entry, at + 4, a.length as nat);
    bytes::law_numbers_read_back(entry, at + 0x10, a.value_length as nat);
    bytes::law_numbers_read_back(entry, at + 0x14, a.value_at as nat);
    bytes::law_numbers_read_back(entry, value, raw as nat);
    assert(file_name::reference_of(raw as u64) == a.name.parent);
    text::law_written_units_read_back(entry, value + 0x42, a.units);
}

proof fn lemma_walk_settles(
    entry: Seq<u8>,
    at: int,
    list: Seq<WrittenAttribute>,
    left: nat,
    best: Option<NameView>,
)
    requires
        entry.len() == 1024,
        0 <= at,
        list.len() <= left,
        holds_list(entry, at, list),
    ensures
        best_from(entry, at, left, best) == settled(best, written_names(list)),
    decreases list.len(),
{
    if list.len() == 0 {
        bytes::law_numbers_read_back(entry, at, 0xFFFF_FFFF);
    } else {
        let a = list[0];
        let names = written_names(list.skip(1));
        bytes::law_numbers_read_back(entry, at, a.code as nat);
        bytes::law_numbers_read_back(entry, at + 4, a.length as nat);
        let next = better(entry, at, best);
        lemma_walk_settles(entry, at + a.length, list.skip(1), (left - 1) as nat, next);
        if a.code == 0x30 {
            lemma_written_name(entry, at, a);
            let all = seq![a.name] + names;
            assert(all.skip(1) =~= names);
            assert(all[0] == a.name);
        }
        assert(best_from(entry, at, left, best) == best_from(
            entry,
            at + a.length,
            (left - 1) as nat,
            next,
        ));
    }
}

/// Whether `name` is the one to keep of `names`: the first Win32 name if there is one, else
/// the last that is not a DOS name if there is one, else the first.
pub open spec fn is_choice(names: Seq<NameView>, i: int) -> bool {
    let win32 = |n: NameView| n.namespace == 1 || n.namespace == 3;
    &&& 0 <= i < names.len()
    &&& if win32(names[i]) {
        forall|j: int| 0 <= j < i ==> !win32(#[trigger] names[j])
    } else if names[i].namespace != 2 {
        &&& forall|j: int| 0 <= j < names.len() ==> !win32(#[trigger] names[j])
        &&& forall|j: int| i < j < names.len() ==> (#[trigger] names[j]).namespace == 2
    } else {
        &&& i == 0
        &&& forall|j: int| 0 <= j < names.len() ==> (#[trigger] names[j]).namespace == 2
    }
}

proof fn lemma_settled_is_choice(names: Seq<NameView>, done: int, i: int)
    requires
        0 < done <= names.len(),
        is_choice(names.take(done), i),
    ensures
        exists|k: int|
            #[trigger] is_choice(names, k) && settled(Some(names[i]), names.skip(done)) == Some(
                names[k],
            ),
    decreases names.len() - done,
{
    let before = names.take(done);
    assert(forall|j: int| 0 <= j < done ==> #[trigger] before[j] == names[j]);
    if done == names.len() {
        assert(before =~= names);
        assert(names.skip(done) =~= Seq::empty());
        assert(is_choice(names, i));
    } else {
        let after = names.take(done + 1);
        assert(forall|j: int| 0 <= j <= done ==> #[trigger] after[j] == names[j]);
        let rest = names.skip(done);
        assert(rest[0] == names[done]);
        assert(rest.skip(1) =~= names.skip(done + 1));
        let k = if displaces(Some(names[i]), names[done].namespace) {
            done
        } else {
            i
        };
        assert forall|j: int| 0 <= j < after.len() && j != done implies #[trigger] after[j]
            == before[j] by {}
        assert(is_choice(after, k));
        lemma_settled_is_choice(names, done + 1, k);
    }
}

/// An entry that was written is carved, with its fields and the name to keep of those that
/// it has: no flag, number or name of it is lost or taken from elsewhere.
pub proof fn law_written_entries_are_carved(
    data: Seq<u8>,
    offset: int,
    sequence: u16,
    first: u16,
    flags: u16,
    number: u32,
    list: Seq<WrittenAttribute>,
)
    requires
        0 <= offset,
        offset + 1024 <= data.len() <= usize::MAX,
        ({
            let entry = data.subrange(offset, offset + 1024);
            &&& bytes::spells(entry, 0x10, 2, sequence as nat)
            &&& bytes::spells(entry, 0x14, 2, first as nat)
            &&& bytes::spells(entry, 0x16, 2, flags as nat)
            &&& bytes::spells(entry, 0x2C, 4, number as nat)
            &&& holds_list(entry, first as int, list)
        }),
        sequence != 0,
        48 <= first < 1016,
        list.len() <= 20,
        written_names(list).len() > 0,
    ensures
        exists|k: int|
            #[trigger] is_choice(written_names(list), k) && carved_at(data, offset) == Some(
                CarvedView {
                    offset: offset as usize,
                    entry_number: number as u64,
                    sequence_number: sequence,
                    filename: written_names(list)[k].name,
                    parent_entry: written_names(list)[k].parent.record_number,
                    parent_sequence: written_names(list)[k].parent.sequence,
                    is_directory: flags / 2 % 2 == 1,
                    is_in_use: flags % 2 == 1,
                },
            ),
{
    let entry = data.subrange(offset, offset + 1024);
    let names = written_names(list);
    bytes::law_numbers_read_back(entry, 0x10, sequence as nat);
    bytes::law_numbers_read_back(entry, 0x14, first as nat);
    bytes::law_numbers_read_back(entry, 0x16, flags as nat);
    bytes::law_numbers_read_back(entry, 0x2C, number as nat);
    assert(flags & 1u16 != 0 <==> flags % 2 == 1) by (bit_vector);
    assert(flags & 2u16 != 0 <==> flags / 2 % 2 == 1) by (bit_vector);
    lemma_walk_settles(entry, first as int, list, 20, None);
    assert(names.take(1)[0] == names[0]);
    assert(is_choice(names.take(1), 0));
    lemma_settled_is_choice(names, 1, 0);
}

/// An entry that was never used, whose first attribute cannot be where it says, or that has
/// no name is not carved.
pub proof fn law_implausible_entries_are_not_carved(
    data: Seq<u8>,
    offset: int,
    sequence: u16,
    first: u16,
    list: Seq<WrittenAttribute>,
)
    requires
        0 <= offset,
        offset + 1024 <= data.len() <= usize::MAX,
        bytes::spells(data.subrange(offset, offset + 1024), 0x10, 2, sequence as nat),
        bytes::spells(data.subrange(offset, offset + 1024), 0x14, 2, first as nat),
        sequence == 0 || first < 48 || first >= 1016 || (list.len() <= 20 && holds_list(
            data.subrange(offset, offset + 1024),
            first as int,
            list,
        ) && written_names(list).len() == 0),
    ensures
        carved_at(data, offset) is None,
{
    let entry = data.subrange(offset, offset + 1024);
    bytes::law_numbers_read_back(entry, 0x10, sequence as nat);
    bytes::law_numbers_read_back(entry, 0x14, first as nat);
    if list.len() <= 20 && holds_list(entry, first as int, list) {
        lemma_walk_settles(entry, first as int, list, 20, None);
    }
}

/// Carved entries, each found `by` bytes further on.
pub open spec fn moved(entries: Seq<CarvedView>, by: int) -> Seq<CarvedView> {
    entries.map_values(
        |e: CarvedView| CarvedView { offset: (e.offset + by) as usize, ..e },
    )
}

proof fn lemma_scan_is_movable(data: Seq<u8>, offset: int)
    requires
        0 <= offset,
        1024 <= data.len() <= usize::MAX,
    ensures
        carved_from(data, offset + 1024) == moved(carved_from(data.skip(1024), offset), 1024),
        candidates_from(data, offset + 1024) == candidates_from(data.skip(1024), offset),
    decreases data.len() - offset,
{
    let rest = data.skip(1024);
    if offset + 1024 + MFT_ENTRY_SIZE > data.len() {
        assert(moved(Seq::empty(), 1024) =~= Seq::empty());
    } else {
        lemma_scan_is_movable(data, offset + 1024);
        assert(data.subrange(offset + 1024, offset + 1024 + MFT_ENTRY_SIZE) =~= rest.subrange(
            offset,
            offset + MFT_ENTRY_SIZE,
        ));
        assert(data.subrange(offset + 1024, offset + 1028) =~= rest.subrange(offset, offset + 4));
        assert(candidate_at(data, offset + 1024) == candidate_at(rest, offset));
        let later = carved_from(rest, offset + 1024);
        if candidate_at(rest, offset) {
            if let Some(e) = carved_at(rest, offset) {
                let shifted = CarvedView { offset: (e.offset + 1024) as usize, ..e };
                assert(carved_at(data, offset + 1024) == Some(shifted));
                assert(moved(seq![e] + later, 1024) =~= seq![shifted] + moved(later, 1024));
            } else {
                assert(carved_at(data, offset + 1024) is None);
            }
        }
    }
}

/// Data is scanned in steps of 1024 bytes: the first block is a candidate when it begins
/// with `FILE`, and the rest is scanned as if it stood alone, only further on.
pub proof fn law_blocks_are_scanned_one_by_one(data: Seq<u8>)
    requires
        data.len() <= usize::MAX,
    ensures
        data.len() < 1024 ==> carved_from(data, 0).len() == 0 && candidates_from(data, 0) == 0,
        data.len() >= 1024 ==> {
            let signed = data.take(4) == seq![0x46u8, 0x49, 0x4C, 0x45];
            let later = moved(carved_from(data.skip(1024), 0), 1024);
            &&& candidates_from(data, 0) == candidates_from(data.skip(1024), 0) + if signed {
                1nat
            } else {
                0nat
            }
            &&& carved_from(data, 0) == if signed {
                match carved_at(data, 0) {
                    Some(e) => seq![e] + later,
                    None => later,
                }
            } else {
                later
            }
        },
{
    if data.len() >= 1024 {
        lemma_scan_is_movable(data, 0);
        assert(data.subrange(0, 4) =~= data.take(4));
        assert(layout::SIGNATURE_FILE@ =~= seq![0x46u8, 0x49, 0x4C, 0x45]);
    }
}

/// A name that is not resident, that is too short for its fixed part, that has no
/// characters, or that reaches past its attribute is not taken; nor is an attribute of
/// another type.
pub proof fn law_unusable_names_are_passed_over(
    entry: Seq<u8>,
    at: int,
    code: u32,
    length: u32,
    value_length: u32,
    value_at: u16,
    best: Option<NameView>,
)
    requires
        entry.len() == 1024,
        0 <= at,
        at + 24 <= 1024,
        bytes::spells(entry, at, 4, code as nat),
        bytes::spells(entry, at + 4, 4, length as nat),
        bytes::spells(entry, at + 0x10, 4, value_length as nat),
        bytes::spells(entry, at + 0x14, 2, value_at as nat),
        ({
            ||| code != 0x30
            ||| entry[at + 8] != 0
            ||| value_length < 66
            ||| at + value_at + 66 > 1024
            ||| entry[at + value_at + 64] == 0
            ||| value_at + 66 + 2 * entry[at + value_at + 64] > length
        }),
    ensures
        better(entry, at, best) == best,
{
    bytes::law_numbers_read_back(entry, at, code as nat);
    bytes::law_numbers_read_back(entry, at + 4, length as nat);
    bytes::law_numbers_read_back(entry, at + 0x10, value_length as nat);
    bytes::law_numbers_read_back(entry, at + 0x14, value_at as nat);
}

} // verus!
