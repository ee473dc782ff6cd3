//! Links and special files.
//!
//! A file that is not an ordinary one says so in one of two ways. Windows and WSL store
//! a `$REPARSE_POINT` attribute whose tag names the type. ntfs-3g's Interix mode stores
//! a resident unnamed `$DATA` whose content begins with a seven-byte magic.

use vstd::prelude::*;
use crate::attribute;
use crate::attribute::{Attribute, AttributeView};
use crate::bytes;
use crate::fs;
use crate::layout;
use crate::text;
use crate::walk;

verus! {

/// Windows reparse tag for a symbolic link.
pub const REPARSE_TAG_SYMLINK: u32 = 0xA000_000C;

/// Windows reparse tag for a mount point (junction).
pub const REPARSE_TAG_MOUNT_POINT: u32 = 0xA000_0003;

/// WSL reparse tag for a symbolic link. The payload is a version word plus a UTF-8
/// target, not a `SubstituteName`/`PrintName` pair.
pub const REPARSE_TAG_LX_SYMLINK: u32 = 0xA000_001D;

/// WSL reparse tag for a unix-domain socket. It carries no payload.
pub const REPARSE_TAG_AF_UNIX: u32 = 0x8000_0023;

/// WSL reparse tag for a FIFO / named pipe. It carries no payload.
pub const REPARSE_TAG_LX_FIFO: u32 = 0x8000_0024;

/// WSL reparse tag for a character device.
pub const REPARSE_TAG_LX_CHR: u32 = 0x8000_0025;

/// WSL reparse tag for a block device.
pub const REPARSE_TAG_LX_BLK: u32 = 0x8000_0026;

/// How an ntfs-3g symbolic link begins (`IntxLNK`); a version byte and a UTF-16LE target
/// follow.
pub const NTFS_3G_SYMLINK_MAGIC: [u8; 7] = [0x49, 0x6E, 0x74, 0x78, 0x4C, 0x4E, 0x4B];

/// How an ntfs-3g character device begins (`IntxCHR`).
pub const NTFS_3G_CHR_MAGIC: [u8; 7] = [0x49, 0x6E, 0x74, 0x78, 0x43, 0x48, 0x52];

/// How an ntfs-3g block device begins (`IntxBLK`).
pub const NTFS_3G_BLK_MAGIC: [u8; 7] = [0x49, 0x6E, 0x74, 0x78, 0x42, 0x4C, 0x4B];

/// What a filesystem node is.
#[derive(Debug, Clone, Copy, PartialEq, Eq, Structural)]
pub enum NodeKind {
    /// An ordinary file.
    File,
    /// A directory.
    Dir,
    /// A symbolic link or junction.
    Symlink,
    /// A character device.
    CharDevice,
    /// A block device.
    BlockDevice,
    /// A FIFO / named pipe.
    Fifo,
    /// A unix-domain socket.
    Socket,
}

/// Where the path buffer begins within the reparse data. A symlink carries a four-byte
/// flags field before it that a junction does not.
pub open spec fn path_base(tag: u32) -> int {
    if tag == REPARSE_TAG_SYMLINK {
        12
    } else {
        8
    }
}

/// The substitute name in a `$REPARSE_POINT` value. The data follows an eight-byte
/// header that declares its length; the name's offset counts from the path buffer, and
/// the name must lie inside the data.
pub open spec fn substitute_name(content: Seq<u8>) -> Option<Seq<char>> {
    let tag = bytes::u32_at(content, 0);
    let data_end = 8 + bytes::u16_at(content, 4);
    let start = 8 + path_base(tag) + bytes::u16_at(content, 8);
    let end = start + bytes::u16_at(content, 10);
    if content.len() < 8 {
        None
    } else if tag != REPARSE_TAG_SYMLINK && tag != REPARSE_TAG_MOUNT_POINT {
        None
    } else if data_end > content.len() || 8 + path_base(tag) > data_end || end > data_end {
        None
    } else {
        Some(text::utf16le_text(content.subrange(start, end)))
    }
}

/// Decodes a `$REPARSE_POINT` value for a symlink or mount point: the substitute name
/// (the on-disk truth, usually `\??\C:\...`), UTF-16LE. `None` for an unrecognized tag or
/// a malformed buffer.
pub fn decode_reparse_buffer(content: &[u8]) -> (r: Option<String>)
    ensures
        attribute::name_view(r) == substitute_name(content@),
{
    if content.len() < 8 {
        return None;
    }
    let tag: u32 = bytes::le_u32(content, 0);
    if tag != REPARSE_TAG_SYMLINK && tag != REPARSE_TAG_MOUNT_POINT {
        return None;
    }
    let data_end: usize = 8 + bytes::le_u16(content, 4) as usize;
    if data_end > content.len() {
        return None;
    }
    let base: usize = if tag == REPARSE_TAG_SYMLINK {
        12
    } else {
        8
    };
    if data_end < 8 + base {
        return None;
    }
    let start: usize = 8 + base + bytes::le_u16(content, 8) as usize;
    let end: usize = start + bytes::le_u16(content, 10) as usize;
    if end > data_end {
        return None;
    }
    Some(text::decode_utf16le(vstd::slice::slice_subrange(content, start, end)))
}

/// Whether `content` begins with `magic`.
fn begins_with(content: &[u8], magic: [u8; 7]) -> (r: bool)
    requires
        content@.len() >= 7,
    ensures
        r == bytes::has_at(content@, 0, magic@),
{
    let mut i: usize = 0;
    while i < 7
        invariant
            i <= 7,
            content@.len() >= 7,
            forall|j: int| 0 <= j < i ==> #[trigger] content@[j] == magic@[j],
        decreases 7 - i,
    {
        if content[i] != magic[i] {
            assert(content@.subrange(0, 7)[i as int] != magic@[i as int]);
            return false;
        }
        i += 1;
    }
    assert(content@.subrange(0, 7) =~= magic@);
    true
}

/// The target in an ntfs-3g symlink's `$DATA`: what follows the magic and the version
/// byte.
pub open spec fn interix_target(content: Seq<u8>) -> Option<Seq<char>> {
    if content.len() >= 8 && bytes::has_at(content, 0, NTFS_3G_SYMLINK_MAGIC@) {
        Some(text::utf16le_text(content.skip(8)))
    } else {
        None
    }
}

/// Decodes the ntfs-3g `IntxLNK` `$DATA` payload: the seven-byte magic, a version byte
/// that is not looked at, then the UTF-16LE target path.
pub fn decode_ntfs3g_symlink(content: &[u8]) -> (r: Option<String>)
    ensures
        attribute::name_view(r) == interix_target(content@),
{
    if content.len() >= 8 && begins_with(content, NTFS_3G_SYMLINK_MAGIC) {
        let target = vstd::slice::slice_subrange(content, 8, content.len());
        assert(target@ =~= content@.skip(8));
        Some(text::decode_utf16le(target))
    } else {
        None
    }
}

/// The value of the first unnamed `$DATA`, when it is resident.
pub open spec fn plain_content(rec: Seq<u8>, attrs: Seq<AttributeView>) -> Option<Seq<u8>> {
    match walk::first(attrs, fs::of_stream(None, None)) {
        Some(a) => a.content_in(rec),
        None => None,
    }
}

/// The value of the first unnamed `$DATA`, when it is resident.
fn find_plain_content<'a>(rec: &'a [u8], attrs: &Vec<Attribute>) -> (r: Option<&'a [u8]>)
    ensures
        match r {
            Some(content) => plain_content(rec@, walk::models(attrs@)) == Some(content@),
            None => plain_content(rec@, walk::models(attrs@)) is None,
        },
{
    let unnamed: Option<String> = None;
    match fs::find_stream(attrs, &unnamed, None) {
        Some(i) => attrs[i].resident_content(rec),
        None => None,
    }
}

/// The target of a link record: its `$REPARSE_POINT` decides where that is resident, and
/// else its unnamed `$DATA`.
pub open spec fn link_target(rec: Seq<u8>, attrs: Seq<AttributeView>) -> Option<Seq<char>> {
    match fs::first_content(rec, attrs, layout::REPARSE_POINT) {
        Some(content) => substitute_name(content),
        None => match plain_content(rec, attrs) {
            Some(content) => interix_target(content),
            None => None,
        },
    }
}

/// The symlink target of an MFT record, when it is one: the `$REPARSE_POINT` substitute
/// name (Windows) or the ntfs-3g `IntxLNK` `$DATA` payload (Linux). `None` for a regular
/// file or directory.
pub fn reparse_target(rec: &[u8], attrs: &Vec<Attribute>) -> (r: Option<String>)
    ensures
        attribute::name_view(r) == link_target(rec@, walk::models(attrs@)),
{
    match fs::find_content(rec, attrs, layout::REPARSE_POINT) {
        Some(content) => decode_reparse_buffer(content),
        None => match find_plain_content(rec, attrs) {
            Some(content) => decode_ntfs3g_symlink(content),
            None => None,
        },
    }
}

/// The node kind that a reparse tag stands for.
pub open spec fn tag_kind(tag: u32) -> Option<NodeKind> {
    if tag == REPARSE_TAG_SYMLINK || tag == REPARSE_TAG_MOUNT_POINT || tag
        == REPARSE_TAG_LX_SYMLINK {
        Some(NodeKind::Symlink)
    } else if tag == REPARSE_TAG_LX_CHR {
        Some(NodeKind::CharDevice)
    } else if tag == REPARSE_TAG_LX_BLK {
        Some(NodeKind::BlockDevice)
    } else if tag == REPARSE_TAG_LX_FIFO {
        Some(NodeKind::Fifo)
    } else if tag == REPARSE_TAG_AF_UNIX {
        Some(NodeKind::Socket)
    } else {
        None
    }
}

/// The node kind a `$REPARSE_POINT` tag denotes, for the tags that describe a POSIX node
/// type. `None` for a tag that is not a node type (a dedup pointer, a cloud placeholder,
/// an unknown vendor tag).
pub fn kind_of_reparse_tag(tag: u32) -> (r: Option<NodeKind>)
    ensures
        r == tag_kind(tag),
{
    match tag {
        REPARSE_TAG_SYMLINK | REPARSE_TAG_MOUNT_POINT | REPARSE_TAG_LX_SYMLINK => Some(
            NodeKind::Symlink,
        ),
        REPARSE_TAG_LX_CHR => Some(NodeKind::CharDevice),
        REPARSE_TAG_LX_BLK => Some(NodeKind::BlockDevice),
        REPARSE_TAG_LX_FIFO => Some(NodeKind::Fifo),
        REPARSE_TAG_AF_UNIX => Some(NodeKind::Socket),
        _ => None,
    }
}

/// The node kind that an Interix magic stands for.
pub open spec fn interix_kind(content: Seq<u8>) -> Option<NodeKind> {
    if content.len() < 8 {
        None
    } else if bytes::has_at(content, 0, NTFS_3G_SYMLINK_MAGIC@) {
        Some(NodeKind::Symlink)
    } else if bytes::has_at(content, 0, NTFS_3G_CHR_MAGIC@) {
        Some(NodeKind::CharDevice)
    } else if bytes::has_at(content, 0, NTFS_3G_BLK_MAGIC@) {
        Some(NodeKind::BlockDevice)
    } else {
        None
    }
}

/// The POSIX node type that a record states, if it states one.
pub open spec fn stated_kind(rec: Seq<u8>, attrs: Seq<AttributeView>) -> Option<NodeKind> {
    match fs::first_content(rec, attrs, layout::REPARSE_POINT) {
        Some(content) => if content.len() >= 4 {
            tag_kind(bytes::u32_at(content, 0))
        } else {
            None
        },
        None => match plain_content(rec, attrs) {
            Some(content) => interix_kind(content),
            None => None,
        },
    }
}

/// Classifies a non-directory MFT record that carries a POSIX node type, in either
/// encoding a Linux driver writes.
///
/// Interix mode stores a FIFO as a zero-length `$DATA` and a socket as a one-byte
/// `$DATA`, neither with a magic. Those cannot be told from ordinary files on disk, so
/// they are not classified here.
pub fn special_kind(rec: &[u8], attrs: &Vec<Attribute>) -> (r: Option<NodeKind>)
    ensures
        r == stated_kind(rec@, walk::models(attrs@)),
{
    match fs::find_content(rec, attrs, layout::REPARSE_POINT) {
        Some(content) => {
            if content.len() >= 4 {
                kind_of_reparse_tag(bytes::le_u32(content, 0))
            } else {
                None
            }
        },
        None => match find_plain_content(rec, attrs) {
            Some(content) => {
                if content.len() < 8 {
                    None
                } else if begins_with(content, NTFS_3G_SYMLINK_MAGIC) {
                    Some(NodeKind::Symlink)
                } else if begins_with(content, NTFS_3G_CHR_MAGIC) {
                    Some(NodeKind::CharDevice)
                } else if begins_with(content, NTFS_3G_BLK_MAGIC) {
                    Some(NodeKind::BlockDevice)
                } else {
                    None
                }
            },
            None => None,
        },
    }
}

/// Whatever has a link target is a symbolic link: no target is given for a file of
/// another kind.
pub proof fn law_only_symlinks_have_targets(rec: Seq<u8>, attrs: Seq<AttributeView>)
    requires
        link_target(rec, attrs) is Some,
    ensures
        stated_kind(rec, attrs) == Some(NodeKind::Symlink),
{
}

/// Each tag that stands for a kind of node stands for one, and every other for none.
pub proof fn law_tags_stand_for_their_kinds(tag: u32)
    ensures
        tag_kind(tag) == Some(NodeKind::Symlink) <==> tag == 0xA000_000C || tag == 0xA000_0003
            || tag == 0xA000_001D,
        tag_kind(tag) == Some(NodeKind::Socket) <==> tag == 0x8000_0023,
        tag_kind(tag) == Some(NodeKind::Fifo) <==> tag == 0x8000_0024,
        tag_kind(tag) == Some(NodeKind::CharDevice) <==> tag == 0x8000_0025,
        tag_kind(tag) == Some(NodeKind::BlockDevice) <==> tag == 0x8000_0026,
        tag_kind(tag) != Some(NodeKind::File),
        tag_kind(tag) != Some(NodeKind::Dir),
{
}

/// Whether a reparse value is written for a link: its tag, the length of its data, the
/// place and the length of the substitute name, and the name in the path buffer. That
/// buffer begins behind eight bytes of lengths, and four bytes of flags in a symbolic link.
pub open spec fn holds_link(
    content: Seq<u8>,
    symlink: bool,
    data_length: u16,
    name_at: u16,
    units: Seq<u16>,
) -> bool {
    let buffer = if symlink {
        20int
    } else {
        16int
    };
    &&& bytes::spells(
        content,
        0,
        4,
        if symlink {
            0xA000_000C
        } else {
            0xA000_0003
        },
    )
    &&& bytes::spells(content, 4, 2, data_length as nat)
    &&& bytes::spells(content, 8, 2, name_at as nat)
    &&& bytes::spells(content, 10, 2, 2 * units.len())
    &&& text::stand_at(content, buffer + name_at, units)
    &&& buffer + name_at + 2 * units.len() <= 8 + data_length <= content.len()
}

/// The name that was written in a symbolic link or a junction is the one that is read.
pub proof fn law_written_links_are_read_back(
    content: Seq<u8>,
    symlink: bool,
    data_length: u16,
    name_at: u16,
    units: Seq<u16>,
)
    requires
        holds_link(content, symlink, data_length, name_at, units),
    ensures
        substitute_name(content) == Some(text::utf16_lossy(units)),
{
    let buffer = if symlink {
        20int
    } else {
        16int
    };
    bytes::law_numbers_read_back(
        content,
        0,
        if symlink {
            0xA000_000C
        } else {
            0xA000_0003
        },
    );
    bytes::law_numbers_read_back(content, 4, data_length as nat);
    bytes::law_numbers_read_back(content, 8, name_at as nat);
    bytes::law_numbers_read_back(content, 10, 2 * units.len());
    text::law_written_units_read_back(content, buffer + name_at, units);
}

/// A reparse value of another tag, or one whose data is cut off or ends before the name
/// does, has no substitute name.
pub proof fn law_other_values_have_no_substitute_name(
    content: Seq<u8>,
    tag: u32,
    data_length: u16,
    name_at: u16,
    name_length: u16,
)
    requires
        bytes::spells(content, 0, 4, tag as nat),
        bytes::spells(content, 4, 2, data_length as nat),
        bytes::spells(content, 8, 2, name_at as nat),
        bytes::spells(content, 10, 2, name_length as nat),
    ensures
        substitute_name(content) is Some <==> {
            &&& tag == 0xA000_000C || tag == 0xA000_0003
            &&& 8 + data_length <= content.len()
            &&& (if tag == 0xA000_000C {
                12int
            } else {
                8int
            }) + name_at + name_length <= data_length
        },
{
    bytes::law_numbers_read_back(content, 0, tag as nat);
    bytes::law_numbers_read_back(content, 4, data_length as nat);
    bytes::law_numbers_read_back(content, 8, name_at as nat);
    bytes::law_numbers_read_back(content, 10, name_length as nat);
}

proof fn lemma_magic(content: Seq<u8>)
    requires
        content.len() >= 8,
    ensures
        bytes::has_at(content, 0, NTFS_3G_SYMLINK_MAGIC@) <==> content.take(7) == seq![
            0x49u8,
            0x6E,
            0x74,
            0x78,
            0x4C,
            0x4E,
            0x4B,
        ],
        bytes::has_at(content, 0, NTFS_3G_CHR_MAGIC@) <==> content.take(7) == seq![
            0x49u8,
            0x6E,
            0x74,
            0x78,
            0x43,
            0x48,
            0x52,
        ],
        bytes::has_at(content, 0, NTFS_3G_BLK_MAGIC@) <==> content.take(7) == seq![
            0x49u8,
            0x6E,
            0x74,
            0x78,
            0x42,
            0x4C,
            0x4B,
        ],
{
    assert(content.subrange(0, 7) =~= content.take(7));
    assert(NTFS_3G_SYMLINK_MAGIC@ =~= seq![0x49u8, 0x6E, 0x74, 0x78, 0x4C, 0x4E, 0x4B]);
    assert(NTFS_3G_CHR_MAGIC@ =~= seq![0x49u8, 0x6E, 0x74, 0x78, 0x43, 0x48, 0x52]);
    assert(NTFS_3G_BLK_MAGIC@ =~= seq![0x49u8, 0x6E, 0x74, 0x78, 0x42, 0x4C, 0x4B]);
}

/// What an Interix file is, its first seven bytes say: `IntxLNK` a link, `IntxCHR` a
/// character device, `IntxBLK` a block device. A link's target is what was written behind
/// the eighth byte.
pub proof fn law_interix_files_say_what_they_are(content: Seq<u8>, units: Seq<u16>)
    requires
        content.len() >= 8,
    ensures
        interix_kind(content) == Some(NodeKind::Symlink) <==> content.take(7) == seq![
            0x49u8,
            0x6E,
            0x74,
            0x78,
            0x4C,
            0x4E,
            0x4B,
        ],
        interix_kind(content) == Some(NodeKind::CharDevice) <==> content.take(7) == seq![
            0x49u8,
            0x6E,
            0x74,
            0x78,
            0x43,
            0x48,
            0x52,
        ],
        interix_kind(content) == Some(NodeKind::BlockDevice) <==> content.take(7) == seq![
            0x49u8,
            0x6E,
            0x74,
            0x78,
            0x42,
            0x4C,
            0x4B,
        ],
        interix_kind(content) matches Some(kind) ==> kind == NodeKind::Symlink || kind
            == NodeKind::CharDevice || kind == NodeKind::BlockDevice,
        interix_target(content) is Some <==> interix_kind(content) == Some(NodeKind::Symlink),
        interix_target(content) is Some && content.len() == 8 + 2 * units.len() && text::stand_at(
            content,
            8,
            units,
        ) ==> interix_target(content) == Some(text::utf16_lossy(units)),
{
    lemma_magic(content);
    let lnk = seq![0x49u8, 0x6E, 0x74, 0x78, 0x4C, 0x4E, 0x4B];
    let chr = seq![0x49u8, 0x6E, 0x74, 0x78, 0x43, 0x48, 0x52];
    let blk = seq![0x49u8, 0x6E, 0x74, 0x78, 0x42, 0x4C, 0x4B];
    assert(lnk[4] != chr[4] && lnk[4] != blk[4] && chr[4] != blk[4]);
    if content.len() == 8 + 2 * units.len() && text::stand_at(content, 8, units) {
        text::law_written_units_read_back(content, 8, units);
        assert(content.skip(8) =~= content.subrange(8, content.len() as int));
    }
}

/// The first reparse point of a record decides what it is and where it leads, whatever its
/// data holds.
pub proof fn law_a_reparse_point_decides(rec: Seq<u8>, attrs: Seq<AttributeView>, i: int, tag: u32)
    requires
        0 <= i < attrs.len(),
        attrs[i].type_code == 0xC0,
        forall|j: int| 0 <= j < i ==> (#[trigger] attrs[j]).type_code != 0xC0,
        attrs[i].content_in(rec) matches Some(content) && bytes::spells(content, 0, 4, tag as nat),
    ensures
        stated_kind(rec, attrs) == tag_kind(tag),
        link_target(rec, attrs) == substitute_name(attrs[i].content_in(rec)->0),
{
    walk::lemma_first_is(attrs, fs::of_type(0xC0), i);
    bytes::law_numbers_read_back(attrs[i].content_in(rec)->0, 0, tag as nat);
}

/// A record without a reparse point is what its first unnamed data says, and leads where
/// that says.
pub proof fn law_plain_data_decides_otherwise(rec: Seq<u8>, attrs: Seq<AttributeView>, i: int)
    requires
        forall|j: int| 0 <= j < attrs.len() ==> (#[trigger] attrs[j]).type_code != 0xC0,
        0 <= i < attrs.len(),
        attrs[i].type_code == 0x80 && attrs[i].name is None,
        forall|j: int|
            0 <= j < i ==> (#[trigger] attrs[j]).type_code != 0x80 || attrs[j].name is Some,
        attrs[i].content_in(rec) is Some,
    ensures
        stated_kind(rec, attrs) == interix_kind(attrs[i].content_in(rec)->0),
        link_target(rec, attrs) == interix_target(attrs[i].content_in(rec)->0),
{
    walk::lemma_first_is(attrs, fs::of_type(0xC0), attrs.len() as int);
    walk::lemma_first_is(attrs, fs::of_stream(None, None), i);
}

} // verus!
