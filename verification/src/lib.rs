//! A forensic NTFS reader whose parsing logic is stated and proved.
//!
//! The crate decodes the on-disk structures of an NTFS volume (boot sector, MFT
//! records, attributes, runlists, directory indexes, the `$LogFile`, the USN
//! journal) and grades what it finds for an examiner. Every function says in its
//! contract exactly what it returns for every input, and never panics on
//! malformed bytes.

pub mod attribute;
pub mod attribute_list;
pub mod audit;
pub mod bitmap;
pub mod boot;
pub mod bytes;
pub mod carve;
pub mod compress;
pub mod data;
pub mod error;
pub mod file_name;
pub mod fs;
pub mod index;
pub mod layout;
pub mod logfile;
pub mod mftmirr;
pub mod names;
pub mod node;
pub mod record;
pub mod reparse;
pub mod runlist;
pub mod source;
pub mod standard_information;
pub mod text;
pub mod time;
pub mod usn;
pub mod vfs;
pub mod walk;

pub use attribute::{parse_attributes, Attribute, AttributeBody};
pub use attribute_list::{parse as parse_attribute_list, AttributeListEntry};
pub use audit::{
    alternate_data_streams, audit_components, audit_logfile, audit_mft_mirror, audit_record,
    carve_file_records, detect_timestomp, is_deleted, record_slack, Anomaly, AnomalyKind,
    ArtifactAnomaly, Severity, TimestompIndicators,
};
pub use boot::BootSector;
pub use carve::{carve_mft_entries, CarvedMftEntry, MftCarvingStats};
pub use data::{attribute_runlist, read_attribute_value, read_runs};
pub use error::{IoFault, NtfsError};
pub use file_name::{FileName, FileReference};
pub use fs::NtfsFs;
pub use index::{parse_entries, parse_index_buffer, IndexEntry, IndexRoot};
pub use logfile::{
    classify as classify_log_operation, detect_journal_clearing, parse_logfile, read_record_pages,
    reconstruct_transactions, FileOperation, LogFileSummary, LogOp, LogRecord, RecordPage, RestartArea,
    Transaction, TransactionState,
};
pub use mftmirr::{compare_mft_mirror, MirrorComparison};
pub use record::{apply_fixup, MftRecordHeader};
pub use runlist::{decode as decode_runlist, Run};
pub use source::{ByteSource, MemorySource, OffsetReader, SeekFrom};
pub use standard_information::StandardInformation;
pub use time::Filetime;
pub use usn::{parse_usn_record_v2, UsnJournalReader, UsnRecord};
