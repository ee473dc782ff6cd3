//! `$ATTRIBUTE_LIST` (type `0x20`): present when a file's attributes don't fit in one
//! MFT record. Each entry points at the extension record (a file reference) holding
//! one of the file's attributes, with its type, starting VCN, id, and name. Following
//! these references is how a heavily-fragmented file's attributes are gathered.

use vstd::prelude::*;
use crate::attribute;
use crate::bytes;
use crate::error::NtfsError;
use crate::file_name;
use crate::file_name::FileReference;
use crate::names;
use crate::text;
use crate::walk;

verus! {

/// Fixed size of an entry header (through the attribute id; the name follows).
pub const ENTRY_MIN: usize = 0x1A;

/// Cap on the entries taken from a list.
pub const MAX_ENTRIES: usize = 0x10_0000;

/// One `$ATTRIBUTE_LIST` entry.
#[derive(Debug, Clone, PartialEq, Eq)]
pub struct AttributeListEntry {
    /// Attribute type code.
    pub type_code: u32,
    /// Starting VCN of this attribute's portion.
    pub start_vcn: u64,
    /// Reference to the MFT record that holds the attribute.
    pub base_reference: FileReference,
    /// Attribute id.
    pub attribute_id: u16,
    /// Attribute name, or `None` if unnamed.
    pub name: Option<String>,
}

/// The mathematical content of an [`AttributeListEntry`].
#[verifier::ext_equal]
pub struct ListEntryView {
    pub type_code: u32,
    pub start_vcn: u64,
    pub base_reference: FileReference,
    pub attribute_id: u16,
    pub name: Option<Seq<char>>,
}

impl View for AttributeListEntry {
    type V = ListEntryView;

    open spec fn view(&self) -> ListEntryView {
        ListEntryView {
            type_code: self.type_code,
            start_vcn: self.start_vcn,
            base_reference: self.base_reference,
            attribute_id: self.attribute_id,
            name: attribute::name_view(self.name),
        }
    }
}

impl AttributeListEntry {
    /// Canonical `$NAME` of this entry's attribute type, if known.
    #[must_use]
    pub fn type_label(&self) -> (r: Option<&'static str>)
        ensures
            r == names::attribute_name(self.type_code),
    {
        forensicnomicon::ntfs::attribute_type_name(self.type_code)
    }
}

/// The entry that begins at `pos`.
pub open spec fn entry_at(content: Seq<u8>, pos: int) -> Result<ListEntryView, NtfsError> {
    let length = bytes::u16_at(content, pos + 0x04);
    let end = pos + length;
    let name_start = pos + content[pos + 0x07];
    let name_stop = name_start + 2 * content[pos + 0x06];
    if length < ENTRY_MIN {
        Err(NtfsError::BadAttributeList("entry length below minimum"))
    } else if end > content.len() {
        Err(NtfsError::BadAttributeList("entry extends past content"))
    } else if content[pos + 0x06] != 0 && name_stop > end {
        Err(NtfsError::BadAttributeList("name extends past entry"))
    } else {
        Ok(
            ListEntryView {
                type_code: bytes::u32_at(content, pos),
                start_vcn: bytes::u64_at(content, pos + 0x08),
                base_reference: file_name::reference_of(bytes::u64_at(content, pos + 0x10)),
                attribute_id: bytes::u16_at(content, pos + 0x18),
                name: if content[pos + 0x06] == 0 {
                    None
                } else {
                    Some(text::utf16le_text(content.subrange(name_start, name_stop)))
                },
            },
        )
    }
}

/// The entries from `pos` on, at most `fuel` of them. The list ends where no entry
/// header fits any more.
pub open spec fn entries_from(content: Seq<u8>, pos: int, fuel: nat) -> Result<
    Seq<ListEntryView>,
    NtfsError,
>
    decreases fuel,
{
    if fuel == 0 || pos + ENTRY_MIN > content.len() {
        Ok(Seq::empty())
    } else {
        match entry_at(content, pos) {
            Err(e) => Err(e),
            Ok(entry) => walk::chain(
                seq![entry],
                entries_from(content, pos + bytes::u16_at(content, pos + 0x04), (fuel - 1) as nat),
            ),
        }
    }
}

/// The entries of an `$ATTRIBUTE_LIST` value.
pub open spec fn parsed_list(content: Seq<u8>) -> Result<Seq<ListEntryView>, NtfsError> {
    entries_from(content, 0, MAX_ENTRIES as nat)
}

/// Parses an `$ATTRIBUTE_LIST` value into its entries.
///
/// # Errors
///
/// [`NtfsError::BadAttributeList`] for an undersized entry, an entry past the content,
/// or a name out of bounds.
pub fn parse(content: &[u8]) -> (r: Result<Vec<AttributeListEntry>, NtfsError>)
    ensures
        walk::model_list(r) == parsed_list(content@),
{
    let mut entries: Vec<AttributeListEntry> = Vec::new();
    let mut pos: usize = 0;
    let mut left: usize = MAX_ENTRIES;
    proof {
        assert(walk::models(entries@) =~= Seq::empty());
        walk::lemma_chain_empty(parsed_list(content@));
    }
    while left > 0 && content.len() - pos >= ENTRY_MIN
        invariant
            pos <= content.len(),
            left <= MAX_ENTRIES,
            parsed_list(content@) == walk::chain(
                walk::models(entries@),
                entries_from(content@, pos as int, left as nat),
            ),
        decreases left,
    {
        let entry_length: usize = bytes::le_u16(content, pos + 0x04) as usize;
        if entry_length < ENTRY_MIN {
            return Err(NtfsError::BadAttributeList("entry length below minimum"));
        }
        if content.len() - pos < entry_length {
            return Err(NtfsError::BadAttributeList("entry extends past content"));
        }
        let end: usize = pos + entry_length;
        let units: usize = content[pos + 0x06] as usize;
        let name_offset: usize = content[pos + 0x07] as usize;
        let name = if units == 0 {
            None
        } else {
            if !bytes::fits(pos, name_offset, 2 * units, end) {
                return Err(NtfsError::BadAttributeList("name extends past entry"));
            }
            let start: usize = pos + name_offset;
            Some(text::decode_utf16le(vstd::slice::slice_subrange(content, start, start + 2 * units)))
        };
        let entry = AttributeListEntry {
            type_code: bytes::le_u32(content, pos),
            start_vcn: bytes::le_u64(content, pos + 0x08),
            base_reference: FileReference::from_u64(bytes::le_u64(content, pos + 0x10)),
            attribute_id: bytes::le_u16(content, pos + 0x18),
            name,
        };
        proof {
            assert(entry_at(content@, pos as int) == Ok::<ListEntryView, NtfsError>(entry@));
            walk::lemma_models_push(entries@, entry);
            walk::lemma_chain_push(
                walk::models(entries@),
                entry@,
                entries_from(content@, end as int, (left - 1) as nat),
            );
        }
        entries.push(entry);
        pos = end;
        left -= 1;
    }
    proof {
        walk::lemma_chain_done(walk::models(entries@));
    }
    Ok(entries)
}

proof fn lemma_entry_count(content: Seq<u8>, pos: int, fuel: nat)
    requires
        0 <= pos,
    ensures
        entries_from(content, pos, fuel) matches Ok(list) ==> list.len() == 0 || pos + ENTRY_MIN
            * list.len() <= content.len(),
    decreases fuel,
{
    if fuel == 0 || pos + ENTRY_MIN > content.len() {
    } else if let Ok(entry) = entry_at(content, pos) {
        let next = pos + bytes::u16_at(content, pos + 0x04);
        lemma_entry_count(content, next, (fuel - 1) as nat);
    }
}

/// A list has no more entries than its bytes can hold.
pub proof fn law_entries_fit_in_the_content(content: Seq<u8>)
    ensures
        parsed_list(content) matches Ok(list) ==> ENTRY_MIN * list.len() <= content.len(),
{
    lemma_entry_count(content, 0, MAX_ENTRIES as nat);
}

/// Whether an entry is written at `pos`, `length` bytes long: its fields at their places,
/// and `units` as its name.
pub open spec fn holds_entry(
    content: Seq<u8>,
    pos: int,
    e: ListEntryView,
    length: u16,
    name_at: u8,
    units: Seq<u16>,
) -> bool {
    &&& 0 <= pos
    &&& 0x1A <= length
    &&& pos + length <= content.len()
    &&& e.base_reference.record_number < 0x1_0000_0000_0000
    &&& bytes::spells(content, pos, 4, e.type_code as nat)
    &&& bytes::spells(content, pos + 0x04, 2, length as nat)
    &&& bytes::spells(content, pos + 0x06, 1, units.len())
    &&& bytes::spells(content, pos + 0x07, 1, name_at as nat)
    &&& bytes::spells(content, pos + 0x08, 8, e.start_vcn as nat)
    &&& bytes::spells(
        content,
        pos + 0x10,
        8,
        (e.base_reference.record_number + 0x1_0000_0000_0000 * e.base_reference.sequence) as nat,
    )
    &&& bytes::spells(content, pos + 0x18, 2, e.attribute_id as nat)
    &&& e.name == if units.len() == 0 {
        None
    } else {
        Some(text::utf16_lossy(units))
    }
    &&& units.len() > 0 ==> text::stand_at(content, pos + name_at, units) && name_at + 2
        * units.len() <= length
}

proof fn lemma_written_entry(
    content: Seq<u8>,
    pos: int,
    e: ListEntryView,
    length: u16,
    name_at: u8,
    units: Seq<u16>,
)
    requires
        holds_entry(content, pos, e, length, name_at, units),
    ensures
        entry_at(content, pos) == Ok::<ListEntryView, NtfsError>(e),
        bytes::u16_at(content, pos + 0x04) == length,
{
    reveal_with_fuel(bytes::spells, 2);
    let raw = e.base_reference.record_number + 0x1_0000_0000_0000 * e.base_reference.sequence;
    bytes::law_numbers_read_back(content, pos, e.type_code as nat);
    bytes::law_numbers_read_back(content, pos + 0x04, length as nat);
    bytes::law_numbers_read_back(content, pos + 0x08, e.start_vcn as nat);
    bytes::law_numbers_read_back(content, pos + 0x10, raw as nat);
    bytes::law_numbers_read_back(content, pos + 0x18, e.attribute_id as nat);
    assert(file_name::reference_of(raw as u64) == e.base_reference);
    if units.len() > 0 {
        text::law_written_units_read_back(content, pos + name_at, units);
    }
}

/// Where an entry's bytes and its name's units are: its length, the place of its name, and
/// the units.
pub struct EntryShape {
    pub length: u16,
    pub name_at: u8,
    pub units: Seq<u16>,
}

/// Whether `list` is written in `content` from `pos` to `end`, back to back.
pub open spec fn holds_entries(
    content: Seq<u8>,
    pos: int,
    list: Seq<ListEntryView>,
    shapes: Seq<EntryShape>,
    end: int,
) -> bool
    decreases list.len(),
{
    if list.len() == 0 {
        0 <= pos == end
    } else {
        &&& shapes.len() == list.len()
        &&& holds_entry(
            content,
            pos,
            list[0],
            shapes[0].length,
            shapes[0].name_at,
            shapes[0].units,
        )
        &&& holds_entries(content, pos + shapes[0].length, list.skip(1), shapes.skip(1), end)
    }
}

proof fn lemma_written_entries(
    content: Seq<u8>,
    pos: int,
    list: Seq<ListEntryView>,
    shapes: Seq<EntryShape>,
    end: int,
    fuel: nat,
)
    requires
        list.len() <= fuel,
        holds_entries(content, pos, list, shapes, end),
    ensures
        entries_from(content, pos, fuel) == walk::chain(
            list,
            entries_from(content, end, (fuel - list.len()) as nat),
        ),
    decreases list.len(),
{
    if list.len() == 0 {
        assert(list =~= Seq::empty());
        walk::lemma_chain_empty(entries_from(content, end, fuel));
    } else {
        let e = list[0];
        let shape = shapes[0];
        lemma_written_entry(content, pos, e, shape.length, shape.name_at, shape.units);
        lemma_written_entries(
            content,
            pos + shape.length,
            list.skip(1),
            shapes.skip(1),
            end,
            (fuel - 1) as nat,
        );
        assert(fuel - 1 - list.skip(1).len() == fuel - list.len());
        if let Ok(rest) = entries_from(content, end, (fuel - list.len()) as nat) {
            assert(seq![e] + (list.skip(1) + rest) =~= list + rest);
        }
    }
}

/// Entries that were written one after the other parse back to what was written, all of
/// them and in order, each field from its own place.
pub proof fn law_written_lists_parse_back(
    content: Seq<u8>,
    list: Seq<ListEntryView>,
    shapes: Seq<EntryShape>,
    end: int,
)
    requires
        list.len() <= 0x10_0000,
        holds_entries(content, 0, list, shapes, end),
        content.len() < end + 0x1A,
    ensures
        parsed_list(content) == Ok::<Seq<ListEntryView>, NtfsError>(list),
{
    lemma_written_entries(content, 0, list, shapes, end, 0x10_0000);
    walk::lemma_chain_done(list);
}

/// An entry that is shorter than its fixed part, reaches past the content or has a name
/// that reaches past it has the whole list refused.
pub proof fn law_a_malformed_entry_is_refused(
    content: Seq<u8>,
    list: Seq<ListEntryView>,
    shapes: Seq<EntryShape>,
    end: int,
    length: u16,
)
    requires
        list.len() < 0x10_0000,
        holds_entries(content, 0, list, shapes, end),
        end + 0x1A <= content.len(),
        bytes::spells(content, end + 4, 2, length as nat),
        length < 0x1A || end + length > content.len() || (content[end + 6] != 0 && content[end + 7]
            + 2 * content[end + 6] > length),
    ensures
        parsed_list(content) matches Err(NtfsError::BadAttributeList(_)),
{
    lemma_written_entries(content, 0, list, shapes, end, 0x10_0000);
    bytes::law_numbers_read_back(content, end + 4, length as nat);
}

} // verus!
