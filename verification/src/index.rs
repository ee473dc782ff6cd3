//! Directory index B-tree: `$INDEX_ROOT` (resident) and the `INDX` buffers of
//! `$INDEX_ALLOCATION` (non-resident).
//!
//! A directory's children are kept in a B-tree of *index entries*, each holding a file
//! reference and an embedded `$FILE_NAME`. Small directories fit entirely in the
//! resident `$INDEX_ROOT`; larger ones spill into fixed-size `INDX` buffers (each
//! `INDX`-signed and protected by the same update-sequence fixup as an MFT record).
//!
//! Entry, node, and stream bounds are all validated against the buffer; a crafted
//! index cannot drive an out-of-bounds read or a non-terminating walk.

use vstd::prelude::*;
use crate::bytes;
use crate::error::NtfsError;
use crate::file_name;
use crate::file_name::{FileName, FileNameView, FileReference};
use crate::layout;
use crate::record;
use crate::walk;

verus! {

/// Bytes of the fixed index header.
pub const INDEX_HEADER_LEN: usize = 0x10;

/// Minimum entry size (the fixed entry header).
pub const ENTRY_MIN: usize = 0x10;

/// `$INDEX_ROOT` fixed header before its index header.
pub const ROOT_HEADER_LEN: usize = 0x10;

/// `INDX` buffer fixed header before its index header.
pub const INDX_HEADER_LEN: usize = 0x18;

/// Cap on the entries taken from a node.
pub const MAX_ENTRIES: usize = 0x10_0000;

/// Index-header flag: this index has an `$INDEX_ALLOCATION` (it is "large").
pub const IH_FLAG_LARGE: u32 = 0x01;

/// Entry flag: the entry points to a child node (its last 8 bytes are a VCN).
pub const IE_FLAG_SUBNODE: u8 = 0x01;

/// Entry flag: this is the final entry in the node.
pub const IE_FLAG_LAST: u8 = 0x02;

/// One directory index entry.
#[derive(Debug, Clone, PartialEq, Eq)]
pub struct IndexEntry {
    /// File reference of the entry's target (0 for the terminal entry).
    pub file_reference: FileReference,
    /// The embedded `$FILE_NAME`, or `None` for the terminal entry.
    pub file_name: Option<FileName>,
    /// VCN of the child index buffer, if this entry has a sub-node.
    pub child_vcn: Option<u64>,
}

/// The mathematical content of an [`IndexEntry`].
#[verifier::ext_equal]
pub struct IndexEntryView {
    pub file_reference: FileReference,
    pub file_name: Option<FileNameView>,
    pub child_vcn: Option<u64>,
}

impl View for IndexEntry {
    type V = IndexEntryView;

    open spec fn view(&self) -> IndexEntryView {
        IndexEntryView {
            file_reference: self.file_reference,
            file_name: match self.file_name {
                Some(f) => Some(f@),
                None => None,
            },
            child_vcn: self.child_vcn,
        }
    }
}

/// A parsed `$INDEX_ROOT`.
#[derive(Debug, Clone, PartialEq, Eq)]
pub struct IndexRoot {
    /// The attribute type this index is keyed on (usually `$FILE_NAME` = 0x30).
    pub indexed_type: u32,
    /// `true` if the directory also has an `$INDEX_ALLOCATION`.
    pub is_large: bool,
    /// The entries held directly in the root node.
    pub entries: Vec<IndexEntry>,
}

/// The mathematical content of an [`IndexRoot`].
#[verifier::ext_equal]
pub struct IndexRootView {
    pub indexed_type: u32,
    pub is_large: bool,
    pub entries: Seq<IndexEntryView>,
}

impl View for IndexRoot {
    type V = IndexRootView;

    open spec fn view(&self) -> IndexRootView {
        IndexRootView {
            indexed_type: self.indexed_type,
            is_large: self.is_large,
            entries: walk::models(self.entries@),
        }
    }
}

/// Whether the entry at `pos` is the last of its node.
pub open spec fn is_last_entry(node: Seq<u8>, pos: int) -> bool {
    node[pos + 0x0C] & IE_FLAG_LAST != 0
}

/// Whether the entry at `pos` has a child node.
pub open spec fn has_subnode(node: Seq<u8>, pos: int) -> bool {
    node[pos + 0x0C] & IE_FLAG_SUBNODE != 0
}

/// The name embedded in the entry that spans `[pos, end)`: none in the last one.
pub open spec fn entry_name_at(node: Seq<u8>, pos: int, end: int) -> Result<
    Option<FileNameView>,
    NtfsError,
> {
    let stop = pos + 0x10 + bytes::u16_at(node, pos + 0x0A);
    if is_last_entry(node, pos) {
        Ok(None)
    } else if stop > end {
        Err(NtfsError::BadIndex("stream extends past entry"))
    } else {
        match file_name::parsed_name(node.subrange(pos + 0x10, stop)) {
            Ok(name) => Ok(Some(name)),
            Err(e) => Err(e),
        }
    }
}

/// The entry at `pos` of a node whose entries end at `limit`.
pub open spec fn entry_at(node: Seq<u8>, pos: int, limit: int) -> Result<
    IndexEntryView,
    NtfsError,
> {
    let length = bytes::u16_at(node, pos + 0x08);
    let end = pos + length;
    if length < ENTRY_MIN {
        Err(NtfsError::BadIndex("entry length below minimum"))
    } else if end > limit {
        Err(NtfsError::BadIndex("entry extends past node"))
    } else if has_subnode(node, pos) && length < ENTRY_MIN + 8 {
        Err(NtfsError::BadIndex("sub-node VCN does not fit in entry"))
    } else {
        match entry_name_at(node, pos, end) {
            Err(e) => Err(e),
            Ok(name) => Ok(
                IndexEntryView {
                    file_reference: file_name::reference_of(bytes::u64_at(node, pos)),
                    file_name: name,
                    child_vcn: if has_subnode(node, pos) {
                        Some(bytes::u64_at(node, end - 8))
                    } else {
                        None
                    },
                },
            ),
        }
    }
}

/// The entries from `pos` on, at most `fuel` of them. The walk ends after the entry
/// marked last, or where no entry header fits before `limit`.
pub open spec fn entries_from(node: Seq<u8>, pos: int, limit: int, fuel: nat) -> Result<
    Seq<IndexEntryView>,
    NtfsError,
>
    decreases fuel,
{
    if fuel == 0 || pos + ENTRY_MIN > limit {
        Ok(Seq::empty())
    } else {
        match entry_at(node, pos, limit) {
            Err(e) => Err(e),
            Ok(entry) => if is_last_entry(node, pos) {
                Ok(seq![entry])
            } else {
                walk::chain(
                    seq![entry],
                    entries_from(
                        node,
                        pos + bytes::u16_at(node, pos + 0x08),
                        limit,
                        (fuel - 1) as nat,
                    ),
                )
            },
        }
    }
}

/// The entries in the byte range `[start, end)` of a node.
pub open spec fn parsed_entries(node: Seq<u8>, start: int, end: int) -> Result<
    Seq<IndexEntryView>,
    NtfsError,
> {
    if end > node.len() || start > end {
        Err(NtfsError::BadIndex("entry region out of bounds"))
    } else {
        entries_from(node, start, end, MAX_ENTRIES as nat)
    }
}

/// The entries that the index header at `base` points to.
pub open spec fn header_entries(node: Seq<u8>, base: int) -> Result<
    Seq<IndexEntryView>,
    NtfsError,
> {
    let start = base + bytes::u32_at(node, base);
    let end = base + bytes::u32_at(node, base + 0x04);
    if base + INDEX_HEADER_LEN > node.len() {
        Err(NtfsError::BadIndex("index header past buffer"))
    } else if start > usize::MAX {
        Err(NtfsError::BadIndex("first-entry offset overflow"))
    } else if end > usize::MAX {
        Err(NtfsError::BadIndex("total-size overflow"))
    } else if start < base + INDEX_HEADER_LEN || end > node.len() || start > end {
        Err(NtfsError::BadIndex("index entry region out of bounds"))
    } else {
        parsed_entries(node, start, end)
    }
}

/// Whether the index header at `base` declares an `$INDEX_ALLOCATION`.
pub open spec fn header_is_large(node: Seq<u8>, base: int) -> bool {
    bytes::u32_at(node, base + 0x0C) & IH_FLAG_LARGE != 0
}

/// The outcome of parsing an `$INDEX_ROOT` value.
pub open spec fn parsed_root(content: Seq<u8>) -> Result<IndexRootView, NtfsError> {
    if content.len() < ROOT_HEADER_LEN + INDEX_HEADER_LEN {
        Err(
            NtfsError::TooShort {
                what: "$INDEX_ROOT",
                need: (ROOT_HEADER_LEN + INDEX_HEADER_LEN) as usize,
                got: content.len() as usize,
            },
        )
    } else {
        match header_entries(content, ROOT_HEADER_LEN as int) {
            Err(e) => Err(e),
            Ok(entries) => Ok(
                IndexRootView {
                    indexed_type: bytes::u32_at(content, 0),
                    is_large: header_is_large(content, ROOT_HEADER_LEN as int),
                    entries,
                },
            ),
        }
    }
}

/// The outcome of parsing the `INDX` buffer in the first `size` bytes: the entries of
/// the fixed-up node.
pub open spec fn parsed_buffer(buffer: Seq<u8>, size: int, sector_size: int) -> Result<
    Seq<IndexEntryView>,
    NtfsError,
> {
    let head = buffer.subrange(0, size);
    if buffer.len() < size || size < INDX_HEADER_LEN + INDEX_HEADER_LEN {
        Err(
            NtfsError::TooShort {
                what: "INDX buffer",
                need: if size > INDX_HEADER_LEN + INDEX_HEADER_LEN {
                    size as usize
                } else {
                    (INDX_HEADER_LEN + INDEX_HEADER_LEN) as usize
                },
                got: buffer.len() as usize,
            },
        )
    } else if !bytes::has_at(buffer, 0, layout::SIGNATURE_INDX@) {
        Err(NtfsError::BadIndex("INDX signature missing"))
    } else {
        match record::fixed_up(head, sector_size) {
            Err(e) => Err(e),
            Ok(node) => header_entries(node, INDX_HEADER_LEN as int),
        }
    }
}

/// The buffer after [`parse_index_buffer`]: its first `size` bytes fixed up, as far as
/// the buffer is an `INDX` buffer of that size.
pub open spec fn buffer_after(buffer: Seq<u8>, size: int, sector_size: int) -> Seq<u8> {
    if buffer.len() < size || size < INDX_HEADER_LEN + INDEX_HEADER_LEN || !bytes::has_at(
        buffer,
        0,
        layout::SIGNATURE_INDX@,
    ) {
        buffer
    } else {
        record::fixup(buffer.subrange(0, size), sector_size).0 + buffer.subrange(
            size,
            buffer.len() as int,
        )
    }
}

impl IndexRoot {
    /// Parses an `$INDEX_ROOT` attribute value.
    ///
    /// # Errors
    ///
    /// [`NtfsError::TooShort`] / [`NtfsError::BadIndex`] on malformed input.
    pub fn parse(content: &[u8]) -> (r: Result<IndexRoot, NtfsError>)
        ensures
            walk::model(r) == parsed_root(content@),
    {
        if content.len() < ROOT_HEADER_LEN + INDEX_HEADER_LEN {
            return Err(
                NtfsError::TooShort {
                    what: "$INDEX_ROOT",
                    need: ROOT_HEADER_LEN + INDEX_HEADER_LEN,
                    got: content.len(),
                },
            );
        }
        let indexed_type: u32 = bytes::le_u32(content, 0);
        match parse_index_header(content, ROOT_HEADER_LEN) {
            Ok((entries, is_large)) => Ok(IndexRoot { indexed_type, is_large, entries }),
            Err(e) => Err(e),
        }
    }
}

/// Parses the index header at `base` and the entries it points to. Returns the
/// entries and the "large index" flag.
fn parse_index_header(node: &[u8], base: usize) -> (r: Result<(Vec<IndexEntry>, bool), NtfsError>)
    requires
        base <= 0x18,
    ensures
        match r {
            Ok((entries, is_large)) => {
                &&& header_entries(node@, base as int) == Ok::<Seq<IndexEntryView>, NtfsError>(
                    walk::models(entries@),
                )
                &&& is_large == header_is_large(node@, base as int)
            },
            Err(e) => header_entries(node@, base as int) == Err::<
                Seq<IndexEntryView>,
                NtfsError,
            >(e),
        },
{
    let header_end: usize = base + INDEX_HEADER_LEN;
    if header_end > node.len() {
        return Err(NtfsError::BadIndex("index header past buffer"));
    }
    let first_entry: usize = bytes::le_u32(node, base) as usize;
    let total_size: usize = bytes::le_u32(node, base + 0x04) as usize;
    let is_large = bytes::le_u32(node, base + 0x0C) & IH_FLAG_LARGE != 0;
    let start: usize = match base.checked_add(first_entry) {
        Some(s) => s,
        None => {
            return Err(NtfsError::BadIndex("first-entry offset overflow"));
        },
    };
    let end: usize = match base.checked_add(total_size) {
        Some(e) => e,
        None => {
            return Err(NtfsError::BadIndex("total-size overflow"));
        },
    };
    if start < header_end || end > node.len() || start > end {
        return Err(NtfsError::BadIndex("index entry region out of bounds"));
    }
    match parse_entries(node, start, end) {
        Ok(entries) => Ok((entries, is_large)),
        Err(e) => Err(e),
    }
}

/// Reads the name embedded in the entry that spans `[pos, end)`.
fn read_entry_name(node: &[u8], pos: usize, end: usize) -> (r: Result<Option<FileName>, NtfsError>)
    requires
        pos + ENTRY_MIN <= end <= node.len(),
    ensures
        match r {
            Ok(Some(name)) => entry_name_at(node@, pos as int, end as int) == Ok::<
                Option<FileNameView>,
                NtfsError,
            >(Some(name@)),
            Ok(None) => entry_name_at(node@, pos as int, end as int) == Ok::<
                Option<FileNameView>,
                NtfsError,
            >(None),
            Err(e) => entry_name_at(node@, pos as int, end as int) == Err::<
                Option<FileNameView>,
                NtfsError,
            >(e),
        },
{
    if node[pos + 0x0C] & IE_FLAG_LAST != 0 {
        return Ok(None);
    }
    let stream_length: usize = bytes::le_u16(node, pos + 0x0A) as usize;
    if !bytes::fits(pos, 0x10, stream_length, end) {
        return Err(NtfsError::BadIndex("stream extends past entry"));
    }
    let start: usize = pos + 0x10;
    match FileName::parse(vstd::slice::slice_subrange(node, start, start + stream_length)) {
        Ok(name) => Ok(Some(name)),
        Err(e) => Err(e),
    }
}

/// Parses the entries in the byte range `[start, end)` of `node`.
///
/// # Errors
///
/// [`NtfsError::BadIndex`] for an undersized / non-advancing entry, or a stream or
/// sub-node VCN that would read outside the entry.
pub fn parse_entries(node: &[u8], start: usize, end: usize) -> (r: Result<
    Vec<IndexEntry>,
    NtfsError,
>)
    ensures
        walk::model_list(r) == parsed_entries(node@, start as int, end as int),
{
    if end > node.len() || start > end {
        return Err(NtfsError::BadIndex("entry region out of bounds"));
    }
    let mut entries: Vec<IndexEntry> = Vec::new();
    let mut pos: usize = start;
    let mut left: usize = MAX_ENTRIES;
    let ghost whole = parsed_entries(node@, start as int, end as int);
    proof {
        assert(walk::models(entries@) =~= Seq::empty());
        walk::lemma_chain_empty(whole);
    }
    while left > 0 && end - pos >= ENTRY_MIN
        invariant_except_break
            left <= MAX_ENTRIES,
            pos <= end,
            whole == walk::chain(
                walk::models(entries@),
                entries_from(node@, pos as int, end as int, left as nat),
            ),
        invariant
            end <= node.len(),
            whole == parsed_entries(node@, start as int, end as int),
        ensures
            whole == Ok::<Seq<IndexEntryView>, NtfsError>(walk::models(entries@)),
        decreases left,
    {
        let entry_length: usize = bytes::le_u16(node, pos + 0x08) as usize;
        if entry_length < ENTRY_MIN {
            return Err(NtfsError::BadIndex("entry length below minimum"));
        }
        if end - pos < entry_length {
            return Err(NtfsError::BadIndex("entry extends past node"));
        }
        let entry_end: usize = pos + entry_length;
        let flags: u8 = node[pos + 0x0C];
        let is_last = flags & IE_FLAG_LAST != 0;
        let file_reference = FileReference::from_u64(bytes::le_u64(node, pos));
        let child_vcn: Option<u64> = if flags & IE_FLAG_SUBNODE != 0 {
            if entry_length < ENTRY_MIN + 8 {
                return Err(NtfsError::BadIndex("sub-node VCN does not fit in entry"));
            }
            Some(bytes::le_u64(node, entry_end - 8))
        } else {
            None
        };
        let file_name = match read_entry_name(node, pos, entry_end) {
            Ok(n) => n,
            Err(e) => {
                return Err(e);
            },
        };
        let entry = IndexEntry { file_reference, file_name, child_vcn };
        proof {
            assert(entry_at(node@, pos as int, end as int) == Ok::<IndexEntryView, NtfsError>(
                entry@,
            ));
            walk::lemma_models_push(entries@, entry);
            if is_last {
                assert(walk::models(entries@) + seq![entry@] =~= walk::models(entries@).push(
                    entry@,
                ));
            } else {
                walk::lemma_chain_push(
                    walk::models(entries@),
                    entry@,
                    entries_from(node@, entry_end as int, end as int, (left - 1) as nat),
                );
            }
        }
        entries.push(entry);
        if is_last {
            break;
        }
        pos = entry_end;
        left -= 1;
        proof {
            walk::lemma_chain_done(walk::models(entries@));
        }
    }
    proof {
        walk::lemma_chain_done(walk::models(entries@));
    }
    Ok(entries)
}

/// Parses one `INDX` index buffer: validates the signature, applies the
/// update-sequence fixup in place, and returns its entries.
///
/// # Errors
///
/// [`NtfsError::TooShort`], [`NtfsError::BadIndex`] (bad signature), or a fixup /
/// entry error.
pub fn parse_index_buffer(
    buffer: &mut [u8],
    index_record_size: usize,
    sector_size: usize,
) -> (r: Result<Vec<IndexEntry>, NtfsError>)
    ensures
        walk::model_list(r) == parsed_buffer(
            old(buffer)@,
            index_record_size as int,
            sector_size as int,
        ),
        final(buffer)@ == buffer_after(old(buffer)@, index_record_size as int, sector_size as int),
{
    let least: usize = INDX_HEADER_LEN + INDEX_HEADER_LEN;
    if buffer.len() < index_record_size || index_record_size < least {
        return Err(
            NtfsError::TooShort {
                what: "INDX buffer",
                need: if index_record_size > least {
                    index_record_size
                } else {
                    least
                },
                got: buffer.len(),
            },
        );
    }
    if !bytes::quad_is(buffer, 0, layout::SIGNATURE_INDX) {
        return Err(NtfsError::BadIndex("INDX signature missing"));
    }
    let (head, _) = buffer.split_at_mut(index_record_size);
    match record::apply_fixup(head, sector_size) {
        Err(e) => Err(e),
        Ok(_) => match parse_index_header(head, INDX_HEADER_LEN) {
            Ok((entries, _)) => Ok(entries),
            Err(e) => Err(e),
        },
    }
}

/// Every entry but a terminal one carries a name, and nothing follows a terminal one.
pub open spec fn names_then_terminal(list: Seq<IndexEntryView>) -> bool {
    forall|i: int| 0 <= i < list.len() - 1 ==> (#[trigger] list[i]).file_name is Some
}

proof fn lemma_entries_end_at_terminal(node: Seq<u8>, pos: int, limit: int, fuel: nat)
    ensures
        entries_from(node, pos, limit, fuel) matches Ok(list) ==> names_then_terminal(list),
    decreases fuel,
{
    if fuel == 0 || pos + ENTRY_MIN > limit {
    } else if let Ok(entry) = entry_at(node, pos, limit) {
        if !is_last_entry(node, pos) {
            let next = pos + bytes::u16_at(node, pos + 0x08);
            lemma_entries_end_at_terminal(node, next, limit, (fuel - 1) as nat);
            if let Ok(rest) = entries_from(node, next, limit, (fuel - 1) as nat) {
                let list = seq![entry] + rest;
                assert forall|i: int| 0 <= i < list.len() - 1 implies (#[trigger] list[i]).file_name is Some by {
                    if i > 0 {
                        assert(list[i] == rest[i - 1]);
                    }
                }
            }
        }
    }
}

/// In a parsed node only the last entry can be without a name.
pub proof fn law_only_the_last_entry_is_nameless(node: Seq<u8>, start: int, end: int)
    ensures
        parsed_entries(node, start, end) matches Ok(list) ==> names_then_terminal(list),
{
    lemma_entries_end_at_terminal(node, start, end, MAX_ENTRIES as nat);
}

/// How an entry is laid out: its length, the length of the name stream in it, its flags,
/// and the units of the name.
pub struct EntryShape {
    pub length: u16,
    pub stream: u16,
    pub flags: u8,
    pub units: Seq<u16>,
}

/// Whether the entry `e` is written in `node` at `pos`: its fields at their places, the
/// child in its last eight bytes, and the name behind the fixed part.
pub open spec fn holds_entry(node: Seq<u8>, pos: int, e: IndexEntryView, shape: EntryShape) -> bool {
    let end = pos + shape.length;
    &&& 0 <= pos
    &&& 0x10 <= shape.length
    &&& end <= node.len()
    &&& e.file_reference.record_number < 0x1_0000_0000_0000
    &&& bytes::spells(
        node,
        pos,
        8,
        (e.file_reference.record_number + 0x1_0000_0000_0000 * e.file_reference.sequence) as nat,
    )
    &&& bytes::spells(node, pos + 0x08, 2, shape.length as nat)
    &&& bytes::spells(node, pos + 0x0A, 2, shape.stream as nat)
    &&& node[pos + 0x0C] == shape.flags
    &&& e.child_vcn is Some <==> shape.flags % 2 == 1
    &&& e.child_vcn matches Some(vcn) ==> shape.length >= 0x18 && bytes::spells(
        node,
        end - 8,
        8,
        vcn as nat,
    )
    &&& e.file_name is Some <==> shape.flags / 2 % 2 == 0
    &&& e.file_name matches Some(name) ==> 0x10 + shape.stream <= shape.length
        && file_name::holds_name(
        node.subrange(pos + 0x10, pos + 0x10 + shape.stream),
        name,
        shape.units,
    )
}

proof fn lemma_written_entry(
    node: Seq<u8>,
    pos: int,
    limit: int,
    e: IndexEntryView,
    shape: EntryShape,
)
    requires
        holds_entry(node, pos, e, shape),
        pos + shape.length <= limit,
    ensures
        entry_at(node, pos, limit) == Ok::<IndexEntryView, NtfsError>(e),
        is_last_entry(node, pos) == (e.file_name is None),
        bytes::u16_at(node, pos + 0x08) == shape.length,
{
    let raw = e.file_reference.record_number + 0x1_0000_0000_0000 * e.file_reference.sequence;
    let flags = shape.flags;
    bytes::law_numbers_read_back(node, pos, raw as nat);
    bytes::law_numbers_read_back(node, pos + 0x08, shape.length as nat);
    bytes::law_numbers_read_back(node, pos + 0x0A, shape.stream as nat);
    assert(file_name::reference_of(raw as u64) == e.file_reference);
    assert(flags & 1u8 != 0 <==> flags % 2 == 1) by (bit_vector);
    assert(flags & 2u8 != 0 <==> flags / 2 % 2 == 1) by (bit_vector);
    if let Some(vcn) = e.child_vcn {
        bytes::law_numbers_read_back(node, pos + shape.length - 8, vcn as nat);
    }
    if let Some(name) = e.file_name {
        file_name::law_written_names_parse_back(
            node.subrange(pos + 0x10, pos + 0x10 + shape.stream),
            name,
            shape.units,
        );
    }
}

/// Whether `list` is written in `node` from `pos` to `end`, back to back, with nothing
/// behind an entry marked last.
pub open spec fn holds_entries(
    node: Seq<u8>,
    pos: int,
    list: Seq<IndexEntryView>,
    shapes: Seq<EntryShape>,
    end: int,
) -> bool
    decreases list.len(),
{
    if list.len() == 0 {
        pos == end
    } else {
        &&& shapes.len() == list.len()
        &&& holds_entry(node, pos, list[0], shapes[0])
        &&& pos + shapes[0].length <= end
        &&& list[0].file_name is None ==> list.len() == 1
        &&& holds_entries(node, pos + shapes[0].length, list.skip(1), shapes.skip(1), end)
    }
}

proof fn lemma_written_entries(
    node: Seq<u8>,
    pos: int,
    limit: int,
    list: Seq<IndexEntryView>,
    shapes: Seq<EntryShape>,
    end: int,
    fuel: nat,
)
    requires
        list.len() <= fuel,
        end <= limit,
        holds_entries(node, pos, list, shapes, end),
    ensures
        list.len() > 0 && list.last().file_name is None ==> entries_from(node, pos, limit, fuel)
            == Ok::<Seq<IndexEntryView>, NtfsError>(list),
        list.len() == 0 || list.last().file_name is Some ==> entries_from(node, pos, limit, fuel)
            == walk::chain(list, entries_from(node, end, limit, (fuel - list.len()) as nat)),
    decreases list.len(),
{
    if list.len() == 0 {
        assert(list =~= Seq::empty());
        walk::lemma_chain_empty(entries_from(node, end, limit, fuel));
    } else {
        let e = list[0];
        let next = pos + shapes[0].length;
        let others = list.skip(1);
        lemma_written_entry(node, pos, limit, e, shapes[0]);
        lemma_written_entries(
            node,
            next,
            limit,
            others,
            shapes.skip(1),
            end,
            (fuel - 1) as nat,
        );
        assert(fuel - 1 - others.len() == fuel - list.len());
        if others.len() > 0 {
            assert(others.last() == list.last());
        } else {
            assert(list =~= seq![e]);
            assert(list.last() == e);
        }
        assert(seq![e] + others =~= list);
        if let Ok(rest) = entries_from(node, end, limit, (fuel - list.len()) as nat) {
            assert(seq![e] + (others + rest) =~= list + rest);
        }
    }
}

/// Entries that were written one after the other parse back to what was written, all of
/// them and in order, up to the one marked last, whatever follows it.
pub proof fn law_written_entries_parse_back(
    node: Seq<u8>,
    start: int,
    limit: int,
    list: Seq<IndexEntryView>,
    shapes: Seq<EntryShape>,
    end: int,
)
    requires
        list.len() <= 0x10_0000,
        0 <= start <= limit <= node.len(),
        end <= limit,
        holds_entries(node, start, list, shapes, end),
        list.len() > 0 && list.last().file_name is None || limit < end + 0x10,
    ensures
        parsed_entries(node, start, limit) == Ok::<Seq<IndexEntryView>, NtfsError>(list),
{
    lemma_written_entries(node, start, limit, list, shapes, end, 0x10_0000);
    walk::lemma_chain_done(list);
}

/// An entry that is shorter than its fixed part, reaches past its node, or has no room for
/// its name or its child has the whole node refused.
pub proof fn law_a_malformed_entry_is_refused(
    node: Seq<u8>,
    start: int,
    limit: int,
    list: Seq<IndexEntryView>,
    shapes: Seq<EntryShape>,
    end: int,
    length: u16,
    stream: u16,
)
    requires
        list.len() < 0x10_0000,
        0 <= start <= limit <= node.len(),
        0 <= end,
        end + 0x10 <= limit,
        holds_entries(node, start, list, shapes, end),
        list.len() > 0 ==> list.last().file_name is Some,
        bytes::spells(node, end + 8, 2, length as nat),
        bytes::spells(node, end + 0x0A, 2, stream as nat),
        length < 0x10 || end + length > limit || (node[end + 0x0C] % 2 == 1 && length < 0x18) || (
        node[end + 0x0C] / 2 % 2 == 0 && 0x10 + stream > length),
    ensures
        parsed_entries(node, start, limit) matches Err(NtfsError::BadIndex(_)),
{
    let flags = node[end + 0x0C];
    lemma_written_entries(node, start, limit, list, shapes, end, 0x10_0000);
    bytes::law_numbers_read_back(node, end + 8, length as nat);
    bytes::law_numbers_read_back(node, end + 0x0A, stream as nat);
    assert(flags & 1u8 != 0 <==> flags % 2 == 1) by (bit_vector);
    assert(flags & 2u8 != 0 <==> flags / 2 % 2 == 1) by (bit_vector);
}

/// Whether the index header at `base` is written: it points to `list`, which ends within
/// the bytes that the header counts.
pub open spec fn holds_node(
    node: Seq<u8>,
    base: int,
    first: u32,
    total: u32,
    list: Seq<IndexEntryView>,
    shapes: Seq<EntryShape>,
    end: int,
) -> bool {
    &&& list.len() <= 0x10_0000
    &&& 0x10 <= first <= total
    &&& base + total <= node.len()
    &&& bytes::spells(node, base, 4, first as nat)
    &&& bytes::spells(node, base + 4, 4, total as nat)
    &&& holds_entries(node, base + first, list, shapes, end)
    &&& end <= base + total
    &&& list.len() > 0 && list.last().file_name is None || base + total < end + 0x10
}

proof fn lemma_written_node(
    node: Seq<u8>,
    base: int,
    first: u32,
    total: u32,
    list: Seq<IndexEntryView>,
    shapes: Seq<EntryShape>,
    end: int,
)
    requires
        0 <= base,
        node.len() <= usize::MAX,
        holds_node(node, base, first, total, list, shapes, end),
    ensures
        header_entries(node, base) == Ok::<Seq<IndexEntryView>, NtfsError>(list),
{
    bytes::law_numbers_read_back(node, base, first as nat);
    bytes::law_numbers_read_back(node, base + 4, total as nat);
    law_written_entries_parse_back(node, base + first, base + total, list, shapes, end);
}

/// An index root that was written parses back: what it indexes, whether buffers follow, and
/// its entries, which it counts from the header behind its own sixteen bytes.
pub proof fn law_written_roots_parse_back(
    content: Seq<u8>,
    root: IndexRootView,
    first: u32,
    total: u32,
    flags: u32,
    shapes: Seq<EntryShape>,
    end: int,
)
    requires
        content.len() <= usize::MAX,
        bytes::spells(content, 0, 4, root.indexed_type as nat),
        holds_node(content, 0x10, first, total, root.entries, shapes, end),
        bytes::spells(content, 0x1C, 4, flags as nat),
        root.is_large <==> flags % 2 == 1,
    ensures
        parsed_root(content) == Ok::<IndexRootView, NtfsError>(root),
{
    bytes::law_numbers_read_back(content, 0, root.indexed_type as nat);
    bytes::law_numbers_read_back(content, 0x1C, flags as nat);
    lemma_written_node(content, 0x10, first, total, root.entries, shapes, end);
    assert(flags & 1u32 != 0 <==> flags % 2 == 1) by (bit_vector);
}

/// An index buffer that was written, under the protection of its sectors, parses back to
/// its entries, and the buffer holds the plain node afterwards. Bytes past its size stay.
pub proof fn law_written_buffers_parse_back(
    buffer: Seq<u8>,
    plain: Seq<u8>,
    size: int,
    sector_size: int,
    usa: int,
    usn: u16,
    n: int,
    first: u32,
    total: u32,
    list: Seq<IndexEntryView>,
    shapes: Seq<EntryShape>,
    end: int,
)
    requires
        0x28 <= size <= buffer.len() <= usize::MAX,
        buffer.take(4) == seq![0x49u8, 0x4E, 0x44, 0x58],
        record::protects(buffer.take(size), plain, sector_size, usa, usn, n),
        record::has_room(size, sector_size, usa, n),
        holds_node(plain, 0x18, first, total, list, shapes, end),
    ensures
        parsed_buffer(buffer, size, sector_size) == Ok::<Seq<IndexEntryView>, NtfsError>(list),
        buffer_after(buffer, size, sector_size) == plain + buffer.skip(size),
{
    assert(buffer.take(size) =~= buffer.subrange(0, size));
    assert(buffer.take(4) =~= buffer.subrange(0, 4));
    assert(buffer.skip(size) =~= buffer.subrange(size, buffer.len() as int));
    assert(layout::SIGNATURE_INDX@ =~= seq![0x49u8, 0x4E, 0x44, 0x58]);
    record::law_fixup_undoes_protection(buffer.take(size), plain, sector_size, usa, usn, n);
    lemma_written_node(plain, 0x18, first, total, list, shapes, end);
}

/// A buffer without the `INDX` signature is refused and left as it is.
pub proof fn law_unsigned_buffers_are_refused(buffer: Seq<u8>, size: int, sector_size: int)
    requires
        0x28 <= size <= buffer.len(),
        buffer.take(4) != seq![0x49u8, 0x4E, 0x44, 0x58],
    ensures
        parsed_buffer(buffer, size, sector_size) matches Err(NtfsError::BadIndex(_)),
        buffer_after(buffer, size, sector_size) == buffer,
{
    assert(buffer.take(4) =~= buffer.subrange(0, 4));
    assert(layout::SIGNATURE_INDX@ =~= seq![0x49u8, 0x4E, 0x44, 0x58]);
}

/// A root that is cut off, or whose entries begin inside its header or end outside its
/// bytes, is refused.
pub proof fn law_malformed_roots_are_refused(content: Seq<u8>, first: u32, total: u32)
    requires
        content.len() >= 0x20 ==> bytes::spells(content, 0x10, 4, first as nat) && bytes::spells(
            content,
            0x14,
            4,
            total as nat,
        ),
        content.len() < 0x20 || first < 0x10 || first > total || 0x10 + total > content.len(),
    ensures
        parsed_root(content) is Err,
{
    bytes::law_numbers_read_back(content, 0x10, first as nat);
    bytes::law_numbers_read_back(content, 0x14, total as nat);
}

/// A buffer that is shorter than it should be, or too short for its headers, is refused and
/// left as it is.
pub proof fn law_short_buffers_are_refused(buffer: Seq<u8>, size: int, sector_size: int)
    requires
        buffer.len() < size || size < 0x28,
    ensures
        parsed_buffer(buffer, size, sector_size) is Err,
        buffer_after(buffer, size, sector_size) == buffer,
{
}

} // verus!
