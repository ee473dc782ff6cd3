//! The USN change journal.
//!
//! `$UsnJrnl:$J` is an NTFS metadata stream that logs every change to a file as a record:
//! the file and its parent, the reason, the name, the attributes and the time.

pub mod reader;
pub mod record;

pub use reader::UsnJournalReader;
pub use record::{parse_usn_record_v2, parse_usn_record_v3, UsnRecord};
