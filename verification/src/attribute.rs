//! MFT attribute walking: the common attribute header plus the resident and
//! non-resident bodies.
//!
//! After the record header, attributes are laid out back-to-back, each starting with
//! a common header (type, length, resident flag, optional name, flags), terminated by
//! an end marker (`0xFFFF_FFFF`). Resident attributes store their value inline;
//! non-resident attributes store a *runlist* mapping the file's virtual clusters to
//! on-disk clusters.
//!
//! Every field is bounds-checked against the record and the attribute's own declared
//! length: a crafted record can never drive an out-of-bounds read or an unbounded
//! loop.

use vstd::prelude::*;
use crate::bytes;
use crate::error::NtfsError;
use crate::layout;
use crate::names;
use crate::text;
use crate::walk;

verus! {

/// Minimum bytes of a common attribute header (through attribute id).
pub const HEADER_MIN: usize = 0x10;

/// Minimum bytes of a resident attribute header (through content offset + pad).
pub const RESIDENT_MIN: usize = 0x18;

/// Minimum bytes of a non-resident attribute header (through initialized size).
pub const NONRESIDENT_MIN: usize = 0x40;

/// Hard cap on attributes per record.
pub const MAX_ATTRIBUTES: usize = 4096;

/// The resident/non-resident discriminant of an attribute.
#[derive(Debug, Clone, Copy, PartialEq, Eq, Structural)]
pub enum AttributeBody {
    /// The value is stored inline within the record.
    Resident { content_offset: u16, content_length: u32 },
    /// The value is stored in clusters described by a runlist.
    NonResident {
        start_vcn: u64,
        last_vcn: u64,
        runs_offset: u16,
        compression_unit: u16,
        allocated_size: u64,
        real_size: u64,
        initialized_size: u64,
    },
}

/// A parsed MFT attribute (common header + body discriminant).
#[derive(Debug, Clone, PartialEq, Eq)]
pub struct Attribute {
    /// Attribute type code (e.g. `0x80` for `$DATA`).
    pub type_code: u32,
    /// Total on-disk length of this attribute, including its header.
    pub length: u32,
    /// `true` when the value is stored out-of-line via a runlist.
    pub non_resident: bool,
    /// Decoded attribute name (e.g. an ADS stream name), or `None` when unnamed.
    pub name: Option<String>,
    /// Attribute flags (compressed / encrypted / sparse).
    pub flags: u16,
    /// Attribute id, unique within the record.
    pub attribute_id: u16,
    /// Byte offset of this attribute within the record.
    pub offset: usize,
    /// Resident or non-resident body.
    pub body: AttributeBody,
}

/// The mathematical content of an [`Attribute`].
#[verifier::ext_equal]
pub struct AttributeView {
    pub type_code: u32,
    pub length: u32,
    pub non_resident: bool,
    pub name: Option<Seq<char>>,
    pub flags: u16,
    pub attribute_id: u16,
    pub offset: usize,
    pub body: AttributeBody,
}

/// The characters of an optional string.
pub open spec fn name_view(name: Option<String>) -> Option<Seq<char>> {
    match name {
        Some(s) => Some(s@),
        None => None,
    }
}

impl View for Attribute {
    type V = AttributeView;

    open spec fn view(&self) -> AttributeView {
        AttributeView {
            type_code: self.type_code,
            length: self.length,
            non_resident: self.non_resident,
            name: name_view(self.name),
            flags: self.flags,
            attribute_id: self.attribute_id,
            offset: self.offset,
            body: self.body,
        }
    }
}

impl AttributeView {
    /// The inline value within `record`, when the attribute is resident and the value
    /// lies inside the record.
    pub open spec fn content_in(self, record: Seq<u8>) -> Option<Seq<u8>> {
        match self.body {
            AttributeBody::Resident { content_offset, content_length } => {
                let start = self.offset + content_offset;
                if start + content_length <= record.len() {
                    Some(record.subrange(start, start + content_length))
                } else {
                    None
                }
            },
            AttributeBody::NonResident { .. } => None,
        }
    }

    /// Whether the compressed flag is set.
    pub open spec fn compressed(self) -> bool {
        self.flags & layout::ATTR_COMPRESSED != 0
    }

    /// The compression unit of a non-resident body, 0 for a resident one.
    pub open spec fn unit_shift(self) -> u16 {
        match self.body {
            AttributeBody::NonResident { compression_unit, .. } => compression_unit,
            AttributeBody::Resident { .. } => 0,
        }
    }
}

impl Attribute {
    /// `true` if the attribute is compressed.
    #[must_use]
    pub fn is_compressed(&self) -> (r: bool)
        ensures
            r == self@.compressed(),
    {
        self.flags & layout::ATTR_COMPRESSED != 0
    }

    /// The compression-unit size as a power of two clusters (NTFS `2^n`; `0` means no
    /// compression unit / resident).
    #[must_use]
    pub fn compression_unit(&self) -> (r: u16)
        ensures
            r == self@.unit_shift(),
    {
        match self.body {
            AttributeBody::NonResident { compression_unit, .. } => compression_unit,
            AttributeBody::Resident { .. } => 0,
        }
    }

    /// `true` if the attribute is encrypted (EFS).
    #[must_use]
    pub fn is_encrypted(&self) -> (r: bool)
        ensures
            r == (self.flags & layout::ATTR_ENCRYPTED != 0),
            r == (self.flags / 0x4000 % 2 == 1),
    {
        proof {
            let flags = self.flags;
            assert(flags & 0x4000u16 != 0 <==> flags / 0x4000 % 2 == 1) by (bit_vector);
        }
        self.flags & layout::ATTR_ENCRYPTED != 0
    }

    /// `true` if the attribute is sparse.
    #[must_use]
    pub fn is_sparse(&self) -> (r: bool)
        ensures
            r == (self.flags & layout::ATTR_SPARSE != 0),
            r == (self.flags / 0x8000 % 2 == 1),
    {
        proof {
            let flags = self.flags;
            assert(flags & 0x8000u16 != 0 <==> flags / 0x8000 % 2 == 1) by (bit_vector);
        }
        self.flags & layout::ATTR_SPARSE != 0
    }

    /// Canonical `$NAME` of this attribute type, if known.
    #[must_use]
    pub fn type_label(&self) -> (r: Option<&'static str>)
        ensures
            r == names::attribute_name(self.type_code),
    {
        forensicnomicon::ntfs::attribute_type_name(self.type_code)
    }

    /// For a resident attribute, its value bytes within `record`. Returns `None` for
    /// non-resident attributes or if the slice is out of bounds.
    #[must_use]
    pub fn resident_content<'a>(&self, record: &'a [u8]) -> (r: Option<&'a [u8]>)
        ensures
            r is Some <==> self@.content_in(record@) is Some,
            r matches Some(content) ==> self@.content_in(record@) == Some(content@),
    {
        match self.body {
            AttributeBody::Resident { content_offset, content_length } => {
                let start_rel: usize = content_offset as usize;
                let length: usize = content_length as usize;
                if bytes::fits(self.offset, start_rel, length, record.len()) {
                    let start: usize = self.offset + start_rel;
                    Some(vstd::slice::slice_subrange(record, start, start + length))
                } else {
                    None
                }
            },
            AttributeBody::NonResident { .. } => None,
        }
    }
}

/// The complaint about the attribute at `pos`.
pub open spec fn bad_attribute(pos: int, detail: &'static str) -> NtfsError {
    NtfsError::BadAttribute { offset: pos as usize, detail }
}

/// The name of the attribute that spans `[pos, end)`: none when its length is zero.
pub open spec fn attribute_name_at(record: Seq<u8>, pos: int, end: int) -> Result<
    Option<Seq<char>>,
    NtfsError,
> {
    let start = pos + bytes::u16_at(record, pos + 0x0A);
    let stop = start + 2 * record[pos + 0x09];
    if record[pos + 0x09] == 0 {
        Ok(None)
    } else if stop > end {
        Err(bad_attribute(pos, "name out of bounds"))
    } else {
        Ok(Some(text::utf16le_text(record.subrange(start, stop))))
    }
}

/// The body of the attribute that spans `[pos, end)`.
pub open spec fn attribute_body_at(record: Seq<u8>, pos: int, end: int) -> Result<
    AttributeBody,
    NtfsError,
> {
    if record[pos + 0x08] != 0 {
        if pos + NONRESIDENT_MIN > end {
            Err(bad_attribute(pos, "non-resident header runs past attribute"))
        } else {
            Ok(
                AttributeBody::NonResident {
                    start_vcn: bytes::u64_at(record, pos + 0x10),
                    last_vcn: bytes::u64_at(record, pos + 0x18),
                    runs_offset: bytes::u16_at(record, pos + 0x20),
                    compression_unit: bytes::u16_at(record, pos + 0x22),
                    allocated_size: bytes::u64_at(record, pos + 0x28),
                    real_size: bytes::u64_at(record, pos + 0x30),
                    initialized_size: bytes::u64_at(record, pos + 0x38),
                },
            )
        }
    } else {
        let content_length = bytes::u32_at(record, pos + 0x10);
        let content_offset = bytes::u16_at(record, pos + 0x14);
        let stop = pos + content_offset + content_length;
        if pos + RESIDENT_MIN > end {
            Err(bad_attribute(pos, "resident header runs past attribute"))
        } else if stop > usize::MAX {
            Err(bad_attribute(pos, "content overflow"))
        } else if stop > end {
            Err(bad_attribute(pos, "resident content out of bounds"))
        } else {
            Ok(AttributeBody::Resident { content_offset, content_length })
        }
    }
}

/// The attribute that begins at `pos`.
pub open spec fn attribute_at(record: Seq<u8>, pos: int) -> Result<AttributeView, NtfsError> {
    let length = bytes::u32_at(record, pos + 0x04);
    let end = pos + length;
    if pos + HEADER_MIN > record.len() {
        Err(bad_attribute(pos, "header runs past record"))
    } else if length < HEADER_MIN {
        Err(bad_attribute(pos, "length below header minimum"))
    } else if end > usize::MAX {
        Err(bad_attribute(pos, "length overflow"))
    } else if end > record.len() {
        Err(bad_attribute(pos, "attribute extends past record"))
    } else {
        match attribute_name_at(record, pos, end) {
            Err(e) => Err(e),
            Ok(name) => match attribute_body_at(record, pos, end) {
                Err(e) => Err(e),
                Ok(body) => Ok(
                    AttributeView {
                        type_code: bytes::u32_at(record, pos),
                        length,
                        non_resident: record[pos + 0x08] != 0,
                        name,
                        flags: bytes::u16_at(record, pos + 0x0C),
                        attribute_id: bytes::u16_at(record, pos + 0x0E),
                        offset: pos as usize,
                        body,
                    },
                ),
            },
        }
    }
}

/// The attributes from `pos` on, at most `fuel` of them. The chain ends at the end
/// marker, or where no type code fits any more.
pub open spec fn attributes_from(record: Seq<u8>, pos: int, fuel: nat) -> Result<
    Seq<AttributeView>,
    NtfsError,
>
    decreases fuel,
{
    if fuel == 0 || pos + 4 > record.len() || bytes::u32_at(record, pos)
        == layout::ATTRIBUTES_END {
        Ok(Seq::empty())
    } else {
        match attribute_at(record, pos) {
            Err(e) => Err(e),
            Ok(attribute) => walk::chain(
                seq![attribute],
                attributes_from(record, pos + attribute.length, (fuel - 1) as nat),
            ),
        }
    }
}

/// The attributes of a record whose first attribute is at `first`.
pub open spec fn parsed_attributes(record: Seq<u8>, first: int) -> Result<
    Seq<AttributeView>,
    NtfsError,
> {
    attributes_from(record, first, MAX_ATTRIBUTES as nat)
}

/// Reads the name of the attribute that spans `[pos, end)`.
fn read_name(record: &[u8], pos: usize, end: usize) -> (r: Result<Option<String>, NtfsError>)
    requires
        pos + HEADER_MIN <= end <= record.len(),
    ensures
        match r {
            Ok(name) => attribute_name_at(record@, pos as int, end as int) == Ok::<
                Option<Seq<char>>,
                NtfsError,
            >(name_view(name)),
            Err(e) => attribute_name_at(record@, pos as int, end as int) == Err::<
                Option<Seq<char>>,
                NtfsError,
            >(e),
        },
{
    let units: usize = record[pos + 0x09] as usize;
    if units == 0 {
        return Ok(None);
    }
    let name_offset: usize = bytes::le_u16(record, pos + 0x0A) as usize;
    if !bytes::fits(pos, name_offset, 2 * units, end) {
        return Err(NtfsError::BadAttribute { offset: pos, detail: "name out of bounds" });
    }
    let start: usize = pos + name_offset;
    Ok(Some(text::decode_utf16le(vstd::slice::slice_subrange(record, start, start + 2 * units))))
}

/// Reads the body of the attribute that spans `[pos, end)`.
fn read_body(record: &[u8], pos: usize, end: usize) -> (r: Result<AttributeBody, NtfsError>)
    requires
        pos + HEADER_MIN <= end <= record.len(),
    ensures
        r == attribute_body_at(record@, pos as int, end as int),
{
    if record[pos + 0x08] != 0 {
        if end - pos < NONRESIDENT_MIN {
            return Err(
                NtfsError::BadAttribute {
                    offset: pos,
                    detail: "non-resident header runs past attribute",
                },
            );
        }
        Ok(
            AttributeBody::NonResident {
                start_vcn: bytes::le_u64(record, pos + 0x10),
                last_vcn: bytes::le_u64(record, pos + 0x18),
                runs_offset: bytes::le_u16(record, pos + 0x20),
                compression_unit: bytes::le_u16(record, pos + 0x22),
                allocated_size: bytes::le_u64(record, pos + 0x28),
                real_size: bytes::le_u64(record, pos + 0x30),
                initialized_size: bytes::le_u64(record, pos + 0x38),
            },
        )
    } else {
        if end - pos < RESIDENT_MIN {
            return Err(
                NtfsError::BadAttribute {
                    offset: pos,
                    detail: "resident header runs past attribute",
                },
            );
        }
        let content_length: u32 = bytes::le_u32(record, pos + 0x10);
        let content_offset: u16 = bytes::le_u16(record, pos + 0x14);
        if !bytes::fits(pos, content_offset as usize, content_length as usize, usize::MAX) {
            return Err(NtfsError::BadAttribute { offset: pos, detail: "content overflow" });
        }
        if pos + content_offset as usize + content_length as usize > end {
            return Err(
                NtfsError::BadAttribute { offset: pos, detail: "resident content out of bounds" },
            );
        }
        Ok(AttributeBody::Resident { content_offset, content_length })
    }
}

/// Walks the attribute chain of a (fixed-up) record, starting at `first_attr_offset`,
/// until the end marker.
///
/// # Errors
///
/// [`NtfsError::BadAttribute`] for any attribute that is undersized, declares a length
/// that wouldn't advance the cursor, or whose name/body would read outside the record.
pub fn parse_attributes(record: &[u8], first_attr_offset: usize) -> (r: Result<
    Vec<Attribute>,
    NtfsError,
>)
    ensures
        walk::model_list(r) == parsed_attributes(record@, first_attr_offset as int),
{
    let mut attrs: Vec<Attribute> = Vec::new();
    let mut pos: usize = first_attr_offset;
    let mut left: usize = MAX_ATTRIBUTES;
    let ghost whole = parsed_attributes(record@, first_attr_offset as int);
    proof {
        assert(walk::models(attrs@) =~= Seq::empty());
        walk::lemma_chain_empty(whole);
    }
    while left > 0 && pos <= record.len() && record.len() - pos >= 4
        invariant_except_break
            left <= MAX_ATTRIBUTES,
            whole == walk::chain(
                walk::models(attrs@),
                attributes_from(record@, pos as int, left as nat),
            ),
        invariant
            whole == parsed_attributes(record@, first_attr_offset as int),
        ensures
            whole == Ok::<Seq<AttributeView>, NtfsError>(walk::models(attrs@)),
        decreases left,
    {
        proof {
            walk::lemma_chain_done(walk::models(attrs@));
        }
        let type_code: u32 = bytes::le_u32(record, pos);
        if type_code == layout::ATTRIBUTES_END {
            break;
        }
        if record.len() - pos < HEADER_MIN {
            return Err(NtfsError::BadAttribute { offset: pos, detail: "header runs past record" });
        }
        let length: u32 = bytes::le_u32(record, pos + 0x04);
        if (length as usize) < HEADER_MIN {
            return Err(
                NtfsError::BadAttribute { offset: pos, detail: "length below header minimum" },
            );
        }
        let end: usize = match pos.checked_add(length as usize) {
            Some(e) => e,
            None => {
                return Err(NtfsError::BadAttribute { offset: pos, detail: "length overflow" });
            },
        };
        if end > record.len() {
            return Err(
                NtfsError::BadAttribute { offset: pos, detail: "attribute extends past record" },
            );
        }
        let non_resident = record[pos + 0x08] != 0;
        let flags: u16 = bytes::le_u16(record, pos + 0x0C);
        let attribute_id: u16 = bytes::le_u16(record, pos + 0x0E);
        let name = match read_name(record, pos, end) {
            Ok(n) => n,
            Err(e) => {
                return Err(e);
            },
        };
        let body = match read_body(record, pos, end) {
            Ok(b) => b,
            Err(e) => {
                return Err(e);
            },
        };
        let attribute = Attribute {
            type_code,
            length,
            non_resident,
            name,
            flags,
            attribute_id,
            offset: pos,
            body,
        };
        proof {
            assert(attribute_at(record@, pos as int) == Ok::<AttributeView, NtfsError>(attribute@));
            walk::lemma_models_push(attrs@, attribute);
            walk::lemma_chain_push(
                walk::models(attrs@),
                attribute@,
                attributes_from(record@, end as int, (left - 1) as nat),
            );
        }
        attrs.push(attribute);
        pos = end;
        left -= 1;
        proof {
            walk::lemma_chain_done(walk::models(attrs@));
        }
    }
    Ok(attrs)
}

/// Whether `list` lies back to back in `record` from `pos` on, every attribute inside
/// the record, and every resident value inside its own attribute.
pub open spec fn tiles(record: Seq<u8>, pos: int, list: Seq<AttributeView>) -> bool {
    &&& list.len() > 0 ==> list[0].offset == pos
    &&& forall|i: int|
        0 <= i < list.len() - 1 ==> #[trigger] list[i].offset + list[i].length == list[i + 1].offset
    &&& forall|i: int|
        0 <= i < list.len() ==> {
            let a = #[trigger] list[i];
            &&& a.offset + a.length <= record.len()
            &&& a.length >= HEADER_MIN
            &&& a.non_resident == (a.body is NonResident)
            &&& a.body matches AttributeBody::Resident { content_offset, content_length }
                ==> content_offset + content_length <= a.length && a.content_in(record) is Some
        }
}

proof fn lemma_attributes_from_tile(record: Seq<u8>, pos: int, fuel: nat)
    requires
        0 <= pos,
        record.len() <= usize::MAX,
    ensures
        attributes_from(record, pos, fuel) matches Ok(list) ==> tiles(record, pos, list)
            && list.len() <= fuel,
    decreases fuel,
{
    if fuel == 0 || pos + 4 > record.len() || bytes::u32_at(record, pos)
        == layout::ATTRIBUTES_END {
    } else if let Ok(a) = attribute_at(record, pos) {
        lemma_attributes_from_tile(record, pos + a.length, (fuel - 1) as nat);
        if let Ok(rest) = attributes_from(record, pos + a.length, (fuel - 1) as nat) {
            let list = seq![a] + rest;
            assert(list[0] == a);
            assert forall|i: int| 0 <= i < list.len() - 1 implies #[trigger] list[i].offset
                + list[i].length == list[i + 1].offset by {
                if i > 0 {
                    assert(list[i] == rest[i - 1]);
                    assert(list[i + 1] == rest[i]);
                } else {
                    assert(list[1] == rest[0]);
                }
            }
            assert forall|i: int| 0 <= i < list.len() implies {
                let b = #[trigger] list[i];
                &&& b.offset + b.length <= record.len()
                &&& b.length >= HEADER_MIN
                &&& b.non_resident == (b.body is NonResident)
                &&& b.body matches AttributeBody::Resident { content_offset, content_length }
                    ==> content_offset + content_length <= b.length && b.content_in(record) is Some
            } by {
                if i > 0 {
                    assert(list[i] == rest[i - 1]);
                }
            }
        }
    }
}

/// Whatever the record, the attributes that are returned lie back to back inside it,
/// and every resident value lies inside its attribute: no later read of a returned
/// attribute can leave the record.
pub proof fn law_attributes_lie_inside_the_record(record: Seq<u8>, first: int)
    requires
        0 <= first,
        record.len() <= usize::MAX,
    ensures
        parsed_attributes(record, first) matches Ok(list) ==> tiles(record, first, list)
            && list.len() <= 4096,
{
    lemma_attributes_from_tile(record, first, MAX_ATTRIBUTES as nat);
}

/// Whether the attribute `a` is written in `record` where it says, with `units` as its
/// name: the header fields at their places, and the fields of its body behind them.
pub open spec fn holds_attribute(
    record: Seq<u8>,
    a: AttributeView,
    name_at: u16,
    units: Seq<u16>,
) -> bool {
    let p = a.offset as int;
    &&& p + 0x10 <= p + a.length <= record.len()
    &&& bytes::spells(record, p, 4, a.type_code as nat)
    &&& bytes::spells(record, p + 0x04, 4, a.length as nat)
    &&& a.non_resident <==> record[p + 0x08] != 0
    &&& bytes::spells(record, p + 0x09, 1, units.len())
    &&& bytes::spells(record, p + 0x0A, 2, name_at as nat)
    &&& bytes::spells(record, p + 0x0C, 2, a.flags as nat)
    &&& bytes::spells(record, p + 0x0E, 2, a.attribute_id as nat)
    &&& a.name == if units.len() == 0 {
        None
    } else {
        Some(text::utf16_lossy(units))
    }
    &&& units.len() > 0 ==> text::stand_at(record, p + name_at, units) && name_at + 2 * units.len()
        <= a.length
    &&& match a.body {
        AttributeBody::Resident { content_offset, content_length } => {
            &&& !a.non_resident
            &&& a.length >= 0x18
            &&& bytes::spells(record, p + 0x10, 4, content_length as nat)
            &&& bytes::spells(record, p + 0x14, 2, content_offset as nat)
            &&& content_offset + content_length <= a.length
        },
        AttributeBody::NonResident {
            start_vcn,
            last_vcn,
            runs_offset,
            compression_unit,
            allocated_size,
            real_size,
            initialized_size,
        } => {
            &&& a.non_resident
            &&& a.length >= 0x40
            &&& bytes::spells(record, p + 0x10, 8, start_vcn as nat)
            &&& bytes::spells(record, p + 0x18, 8, last_vcn as nat)
            &&& bytes::spells(record, p + 0x20, 2, runs_offset as nat)
            &&& bytes::spells(record, p + 0x22, 2, compression_unit as nat)
            &&& bytes::spells(record, p + 0x28, 8, allocated_size as nat)
            &&& bytes::spells(record, p + 0x30, 8, real_size as nat)
            &&& bytes::spells(record, p + 0x38, 8, initialized_size as nat)
        },
    }
}

proof fn lemma_written_body(record: Seq<u8>, a: AttributeView, name_at: u16, units: Seq<u16>)
    requires
        record.len() <= usize::MAX,
        holds_attribute(record, a, name_at, units),
    ensures
        attribute_body_at(record, a.offset as int, a.offset + a.length) == Ok::<
            AttributeBody,
            NtfsError,
        >(a.body),
{
    let p = a.offset as int;
    match a.body {
        AttributeBody::Resident { content_offset, content_length } => {
            bytes::law_numbers_read_back(record, p + 0x10, content_length as nat);
            bytes::law_numbers_read_back(record, p + 0x14, content_offset as nat);
        },
        AttributeBody::NonResident {
            start_vcn,
            last_vcn,
            runs_offset,
            compression_unit,
            allocated_size,
            real_size,
            initialized_size,
        } => {
            bytes::law_numbers_read_back(record, p + 0x10, start_vcn as nat);
            bytes::law_numbers_read_back(record, p + 0x18, last_vcn as nat);
            bytes::law_numbers_read_back(record, p + 0x20, runs_offset as nat);
            bytes::law_numbers_read_back(record, p + 0x22, compression_unit as nat);
            bytes::law_numbers_read_back(record, p + 0x28, allocated_size as nat);
            bytes::law_numbers_read_back(record, p + 0x30, real_size as nat);
            bytes::law_numbers_read_back(record, p + 0x38, initialized_size as nat);
        },
    }
}

proof fn lemma_written_attribute(
    record: Seq<u8>,
    a: AttributeView,
    name_at: u16,
    units: Seq<u16>,
)
    requires
        record.len() <= usize::MAX,
        holds_attribute(record, a, name_at, units),
    ensures
        attribute_at(record, a.offset as int) == Ok::<AttributeView, NtfsError>(a),
        bytes::u32_at(record, a.offset as int) == a.type_code,
{
    let p = a.offset as int;
    reveal_with_fuel(bytes::spells, 2);
    bytes::law_numbers_read_back(record, p, a.type_code as nat);
    bytes::law_numbers_read_back(record, p + 0x04, a.length as nat);
    bytes::law_numbers_read_back(record, p + 0x0A, name_at as nat);
    bytes::law_numbers_read_back(record, p + 0x0C, a.flags as nat);
    bytes::law_numbers_read_back(record, p + 0x0E, a.attribute_id as nat);
    assert(record[p + 0x09] == units.len());
    lemma_written_body(record, a, name_at, units);
    if units.len() > 0 {
        text::law_written_units_read_back(record, p + name_at, units);
    }
    assert(attribute_name_at(record, p, p + a.length) == Ok::<Option<Seq<char>>, NtfsError>(a.name));
}

/// Whether `list` is written in `record` from `pos` to `end`, back to back.
pub open spec fn holds_attributes(
    record: Seq<u8>,
    pos: int,
    list: Seq<AttributeView>,
    names: Seq<(u16, Seq<u16>)>,
    end: int,
) -> bool
    decreases list.len(),
{
    if list.len() == 0 {
        0 <= pos == end
    } else {
        &&& names.len() == list.len()
        &&& list[0].offset == pos
        &&& list[0].type_code != 0xFFFF_FFFF
        &&& holds_attribute(record, list[0], names[0].0, names[0].1)
        &&& holds_attributes(record, pos + list[0].length, list.skip(1), names.skip(1), end)
    }
}

proof fn lemma_written_attributes(
    record: Seq<u8>,
    pos: int,
    list: Seq<AttributeView>,
    names: Seq<(u16, Seq<u16>)>,
    end: int,
    fuel: nat,
)
    requires
        record.len() <= usize::MAX,
        list.len() <= fuel,
        holds_attributes(record, pos, list, names, end),
    ensures
        attributes_from(record, pos, fuel) == walk::chain(
            list,
            attributes_from(record, end, (fuel - list.len()) as nat),
        ),
    decreases list.len(),
{
    if list.len() == 0 {
        assert(list =~= Seq::empty());
        walk::lemma_chain_empty(attributes_from(record, end, fuel));
    } else {
        let a = list[0];
        lemma_written_attribute(record, a, names[0].0, names[0].1);
        lemma_written_attributes(
            record,
            pos + a.length,
            list.skip(1),
            names.skip(1),
            end,
            (fuel - 1) as nat,
        );
        assert(fuel - 1 - list.skip(1).len() == fuel - list.len());
        if let Ok(rest) = attributes_from(record, end, (fuel - list.len()) as nat) {
            assert(seq![a] + (list.skip(1) + rest) =~= list + rest);
        }
    }
}

/// Attributes that were written one after the other parse back to what was written, all of
/// them and in order, each field from its own place. They end at the marker, or where there
/// is no room for a type code.
pub proof fn law_written_attributes_parse_back(
    record: Seq<u8>,
    first: int,
    list: Seq<AttributeView>,
    names: Seq<(u16, Seq<u16>)>,
    end: int,
)
    requires
        record.len() <= usize::MAX,
        list.len() <= 4096,
        holds_attributes(record, first, list, names, end),
        bytes::spells(record, end, 4, 0xFFFF_FFFF) || record.len() < end + 4,
    ensures
        parsed_attributes(record, first) == Ok::<Seq<AttributeView>, NtfsError>(list),
{
    lemma_written_attributes(record, first, list, names, end, 4096);
    bytes::law_numbers_read_back(record, end, 0xFFFF_FFFF);
    walk::lemma_chain_done(list);
}

/// Whether what begins at `pos` cannot be an attribute of the length that it declares: it
/// is cut off, shorter than its header, or its name or value reaches past it.
pub open spec fn is_malformed(
    record: Seq<u8>,
    pos: int,
    length: u32,
    name_at: u16,
    value_at: u16,
    value_length: u32,
) -> bool {
    &&& 0 <= pos
    &&& pos + 4 <= record.len()
    &&& !bytes::spells(record, pos, 4, 0xFFFF_FFFF)
    &&& pos + 0x10 <= record.len() ==> bytes::spells(record, pos + 4, 4, length as nat)
        && bytes::spells(record, pos + 0x0A, 2, name_at as nat)
    &&& pos + 0x18 <= record.len() ==> bytes::spells(record, pos + 0x10, 4, value_length as nat)
        && bytes::spells(record, pos + 0x14, 2, value_at as nat)
    &&& {
        ||| pos + 0x10 > record.len()
        ||| length < 0x10
        ||| pos + length > record.len()
        ||| record[pos + 9] != 0 && name_at + 2 * record[pos + 9] > length
        ||| record[pos + 8] != 0 && length < 0x40
        ||| record[pos + 8] == 0 && length < 0x18
        ||| record[pos + 8] == 0 && value_at + value_length > length
    }
}

proof fn lemma_marker_is_spelled(s: Seq<u8>, off: int)
    requires
        0 <= off,
        off + 4 <= s.len(),
        bytes::u32_at(s, off) == 0xFFFF_FFFF,
    ensures
        bytes::spells(s, off, 4, 0xFFFF_FFFF),
{
    reveal_with_fuel(bytes::spells, 5);
}

/// One malformed attribute has the whole record refused, whatever stands before it, and the
/// complaint says where it is.
pub proof fn law_a_malformed_attribute_is_refused(
    record: Seq<u8>,
    first: int,
    list: Seq<AttributeView>,
    names: Seq<(u16, Seq<u16>)>,
    end: int,
    length: u32,
    name_at: u16,
    value_at: u16,
    value_length: u32,
)
    requires
        record.len() <= usize::MAX,
        list.len() < 4096,
        holds_attributes(record, first, list, names, end),
        is_malformed(record, end, length, name_at, value_at, value_length),
    ensures
        parsed_attributes(record, first) matches Err(NtfsError::BadAttribute { offset, .. })
            && offset == end,
{
    lemma_written_attributes(record, first, list, names, end, 4096);
    bytes::law_numbers_read_back(record, end + 4, length as nat);
    bytes::law_numbers_read_back(record, end + 0x0A, name_at as nat);
    bytes::law_numbers_read_back(record, end + 0x10, value_length as nat);
    bytes::law_numbers_read_back(record, end + 0x14, value_at as nat);
    if bytes::u32_at(record, end) == 0xFFFF_FFFF {
        lemma_marker_is_spelled(record, end);
    }
}

/// The value of a resident attribute is the `content_length` bytes that begin
/// `content_offset` bytes behind the attribute's start, and a non-resident one has none.
pub proof fn law_resident_values_stand_behind_their_header(record: Seq<u8>, a: AttributeView, i: int)
    requires
        a.body matches AttributeBody::Resident { content_offset, content_length } ==> a.offset
            + content_offset + content_length <= record.len() && 0 <= i < content_length,
    ensures
        a.body is NonResident ==> a.content_in(record) is None,
        a.body matches AttributeBody::Resident { content_offset, content_length } ==> {
            &&& a.content_in(record) is Some
            &&& a.content_in(record)->0.len() == content_length
            &&& a.content_in(record)->0[i] == record[a.offset + content_offset + i]
        },
{
}

/// The lowest flag bit says that an attribute is compressed.
pub proof fn law_the_lowest_flag_means_compressed(a: AttributeView)
    ensures
        a.compressed() <==> a.flags % 2 == 1,
{
    let flags = a.flags;
    assert(flags & 1u16 != 0 <==> flags % 2 == 1) by (bit_vector);
}

} // verus!
