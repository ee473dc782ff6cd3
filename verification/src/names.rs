//! Names of attribute types and file-name namespaces.

use vstd::prelude::*;

verus! {

/// The canonical `$NAME` of an attribute type code, where it has one.
pub open spec fn attribute_name(code: u32) -> Option<&'static str> {
    if code == 0x10 {
        Some("$STANDARD_INFORMATION")
    } else if code == 0x20 {
        Some("$ATTRIBUTE_LIST")
    } else if code == 0x30 {
        Some("$FILE_NAME")
    } else if code == 0x40 {
        Some("$OBJECT_ID")
    } else if code == 0x50 {
        Some("$SECURITY_DESCRIPTOR")
    } else if code == 0x60 {
        Some("$VOLUME_NAME")
    } else if code == 0x70 {
        Some("$VOLUME_INFORMATION")
    } else if code == 0x80 {
        Some("$DATA")
    } else if code == 0x90 {
        Some("$INDEX_ROOT")
    } else if code == 0xA0 {
        Some("$INDEX_ALLOCATION")
    } else if code == 0xB0 {
        Some("$BITMAP")
    } else if code == 0xC0 {
        Some("$REPARSE_POINT")
    } else if code == 0xD0 {
        Some("$EA_INFORMATION")
    } else if code == 0xE0 {
        Some("$EA")
    } else if code == 0xF0 {
        Some("$PROPERTY_SET")
    } else if code == 0x100 {
        Some("$LOGGED_UTILITY_STREAM")
    } else {
        None
    }
}

/// The name of a `$FILE_NAME` namespace code, where it has one.
pub open spec fn namespace_label(ns: u8) -> Option<&'static str> {
    if ns == 0 {
        Some("POSIX")
    } else if ns == 1 {
        Some("Win32")
    } else if ns == 2 {
        Some("DOS")
    } else if ns == 3 {
        Some("Win32+DOS")
    } else {
        None
    }
}

/// `forensicnomicon::ntfs::attribute_type_name` looks a code up in its table of
/// attribute types. Claimed: the result is the entry of `attribute_name`, which has
/// the same sixteen codes and `None` for every other.
pub assume_specification[ forensicnomicon::ntfs::attribute_type_name ](ty: u32) -> (r: Option<
    &'static str,
>)
    ensures
        r == attribute_name(ty),
;

/// `forensicnomicon::ntfs::filename_namespace::name` names the four namespaces.
/// Claimed: the result is the entry of `namespace_label`.
pub assume_specification[ forensicnomicon::ntfs::filename_namespace::name ](ns: u8) -> (r: Option<
    &'static str,
>)
    ensures
        r == namespace_label(ns),
;

} // verus!
