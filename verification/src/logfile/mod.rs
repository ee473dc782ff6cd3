//! `$LogFile` parsing for gap detection and LSN correlation.
//!
//! The NTFS `$LogFile` records transaction log entries. By analyzing restart areas and
//! record pages, we can detect gaps that indicate journal clearing or corruption.

pub mod semantics;
pub mod transactions;

use vstd::prelude::*;
use crate::bytes;
use crate::error::NtfsError;
use crate::layout;
use crate::record;
use crate::walk;

pub use semantics::{classify, FileOperation};
pub use transactions::{reconstruct_transactions, Transaction, TransactionState};

verus! {

/// Default NTFS `$LogFile` page size.
pub const LOG_PAGE_SIZE: usize = 0x1000;

/// Bytes in one protected sector of a page.
pub const LOG_SECTOR_SIZE: usize = 512;

/// Parsed NTFS `$LogFile` restart area.
#[derive(Debug, Clone, Copy, PartialEq, Eq, Structural)]
pub struct RestartArea {
    /// Byte offset of the page within the `$LogFile`.
    pub offset: usize,
    /// The LSN that the area records.
    pub current_lsn: u64,
    /// Number of log clients.
    pub log_clients: u16,
    /// System page size in bytes.
    pub system_page_size: u32,
    /// Log page size in bytes.
    pub log_page_size: u32,
}

/// Summary of `$LogFile` analysis.
#[derive(Debug, Clone)]
pub struct LogFileSummary {
    /// The restart areas, in page order.
    pub restart_areas: Vec<RestartArea>,
    /// How many pages are record pages.
    pub record_page_count: usize,
    /// Whether a page that is neither zeroed nor a log page follows a record page.
    pub has_gaps: bool,
    /// The highest LSN seen.
    pub highest_lsn: u64,
}

/// An NTFS `$LogFile` (LFS) redo/undo operation code.
///
/// These are the NTFS log-file-service operations (Brian Carrier, *File System Forensic
/// Analysis*). A code outside the documented `0x00..=0x22` range is surfaced verbatim
/// via [`LogOp::Unknown`], never silently mapped.
#[derive(Debug, Clone, Copy, PartialEq, Eq, Structural)]
pub enum LogOp {
    Noop,
    CompensationLogRecord,
    InitializeFileRecordSegment,
    DeallocateFileRecordSegment,
    WriteEndOfFileRecordSegment,
    CreateAttribute,
    DeleteAttribute,
    UpdateResidentValue,
    UpdateNonResidentValue,
    UpdateMappingPairs,
    DeleteDirtyClusters,
    SetNewAttributeSizes,
    AddIndexEntryRoot,
    DeleteIndexEntryRoot,
    AddIndexEntryAllocation,
    DeleteIndexEntryAllocation,
    WriteEndOfIndexBuffer,
    SetIndexEntryVcnRoot,
    SetIndexEntryVcnAllocation,
    UpdateFileNameRoot,
    UpdateFileNameAllocation,
    SetBitsInNonResidentBitMap,
    ClearBitsInNonResidentBitMap,
    HotFix,
    EndTopLevelAction,
    PrepareTransaction,
    CommitTransaction,
    ForgetTransaction,
    OpenNonResidentAttribute,
    OpenAttributeTableDump,
    AttributeNamesDump,
    DirtyPageTableDump,
    TransactionTableDump,
    UpdateRecordDataRoot,
    UpdateRecordDataAllocation,
    /// A code outside the documented `0x00..=0x22` range, surfaced verbatim.
    Unknown(u16),
}

/// The operation that a raw code stands for.
pub open spec fn op_of(code: u16) -> LogOp {
    match code {
        0x00 => LogOp::Noop,
        0x01 => LogOp::CompensationLogRecord,
        0x02 => LogOp::InitializeFileRecordSegment,
        0x03 => LogOp::DeallocateFileRecordSegment,
        0x04 => LogOp::WriteEndOfFileRecordSegment,
        0x05 => LogOp::CreateAttribute,
        0x06 => LogOp::DeleteAttribute,
        0x07 => LogOp::UpdateResidentValue,
        0x08 => LogOp::UpdateNonResidentValue,
        0x09 => LogOp::UpdateMappingPairs,
        0x0A => LogOp::DeleteDirtyClusters,
        0x0B => LogOp::SetNewAttributeSizes,
        0x0C => LogOp::AddIndexEntryRoot,
        0x0D => LogOp::DeleteIndexEntryRoot,
        0x0E => LogOp::AddIndexEntryAllocation,
        0x0F => LogOp::DeleteIndexEntryAllocation,
        0x10 => LogOp::WriteEndOfIndexBuffer,
        0x11 => LogOp::SetIndexEntryVcnRoot,
        0x12 => LogOp::SetIndexEntryVcnAllocation,
        0x13 => LogOp::UpdateFileNameRoot,
        0x14 => LogOp::UpdateFileNameAllocation,
        0x15 => LogOp::SetBitsInNonResidentBitMap,
        0x16 => LogOp::ClearBitsInNonResidentBitMap,
        0x17 => LogOp::HotFix,
        0x18 => LogOp::EndTopLevelAction,
        0x19 => LogOp::PrepareTransaction,
        0x1A => LogOp::CommitTransaction,
        0x1B => LogOp::ForgetTransaction,
        0x1C => LogOp::OpenNonResidentAttribute,
        0x1D => LogOp::OpenAttributeTableDump,
        0x1E => LogOp::AttributeNamesDump,
        0x1F => LogOp::DirtyPageTableDump,
        0x20 => LogOp::TransactionTableDump,
        0x21 => LogOp::UpdateRecordDataRoot,
        0x22 => LogOp::UpdateRecordDataAllocation,
        other => LogOp::Unknown(other),
    }
}

impl LogOp {
    /// The raw code of an operation.
    pub open spec fn raw(self) -> u16 {
        match self {
            LogOp::Noop => 0x00,
            LogOp::CompensationLogRecord => 0x01,
            LogOp::InitializeFileRecordSegment => 0x02,
            LogOp::DeallocateFileRecordSegment => 0x03,
            LogOp::WriteEndOfFileRecordSegment => 0x04,
            LogOp::CreateAttribute => 0x05,
            LogOp::DeleteAttribute => 0x06,
            LogOp::UpdateResidentValue => 0x07,
            LogOp::UpdateNonResidentValue => 0x08,
            LogOp::UpdateMappingPairs => 0x09,
            LogOp::DeleteDirtyClusters => 0x0A,
            LogOp::SetNewAttributeSizes => 0x0B,
            LogOp::AddIndexEntryRoot => 0x0C,
            LogOp::DeleteIndexEntryRoot => 0x0D,
            LogOp::AddIndexEntryAllocation => 0x0E,
            LogOp::DeleteIndexEntryAllocation => 0x0F,
            LogOp::WriteEndOfIndexBuffer => 0x10,
            LogOp::SetIndexEntryVcnRoot => 0x11,
            LogOp::SetIndexEntryVcnAllocation => 0x12,
            LogOp::UpdateFileNameRoot => 0x13,
            LogOp::UpdateFileNameAllocation => 0x14,
            LogOp::SetBitsInNonResidentBitMap => 0x15,
            LogOp::ClearBitsInNonResidentBitMap => 0x16,
            LogOp::HotFix => 0x17,
            LogOp::EndTopLevelAction => 0x18,
            LogOp::PrepareTransaction => 0x19,
            LogOp::CommitTransaction => 0x1A,
            LogOp::ForgetTransaction => 0x1B,
            LogOp::OpenNonResidentAttribute => 0x1C,
            LogOp::OpenAttributeTableDump => 0x1D,
            LogOp::AttributeNamesDump => 0x1E,
            LogOp::DirtyPageTableDump => 0x1F,
            LogOp::TransactionTableDump => 0x20,
            LogOp::UpdateRecordDataRoot => 0x21,
            LogOp::UpdateRecordDataAllocation => 0x22,
            LogOp::Unknown(c) => c,
        }
    }

    /// Maps a raw 16-bit redo/undo operation code to its operation.
    #[must_use]
    pub fn from_u16(code: u16) -> (r: Self)
        ensures
            r == op_of(code),
    {
        match code {
            0x00 => LogOp::Noop,
            0x01 => LogOp::CompensationLogRecord,
            0x02 => LogOp::InitializeFileRecordSegment,
            0x03 => LogOp::DeallocateFileRecordSegment,
            0x04 => LogOp::WriteEndOfFileRecordSegment,
            0x05 => LogOp::CreateAttribute,
            0x06 => LogOp::DeleteAttribute,
            0x07 => LogOp::UpdateResidentValue,
            0x08 => LogOp::UpdateNonResidentValue,
            0x09 => LogOp::UpdateMappingPairs,
            0x0A => LogOp::DeleteDirtyClusters,
            0x0B => LogOp::SetNewAttributeSizes,
            0x0C => LogOp::AddIndexEntryRoot,
            0x0D => LogOp::DeleteIndexEntryRoot,
            0x0E => LogOp::AddIndexEntryAllocation,
            0x0F => LogOp::DeleteIndexEntryAllocation,
            0x10 => LogOp::WriteEndOfIndexBuffer,
            0x11 => LogOp::SetIndexEntryVcnRoot,
            0x12 => LogOp::SetIndexEntryVcnAllocation,
            0x13 => LogOp::UpdateFileNameRoot,
            0x14 => LogOp::UpdateFileNameAllocation,
            0x15 => LogOp::SetBitsInNonResidentBitMap,
            0x16 => LogOp::ClearBitsInNonResidentBitMap,
            0x17 => LogOp::HotFix,
            0x18 => LogOp::EndTopLevelAction,
            0x19 => LogOp::PrepareTransaction,
            0x1A => LogOp::CommitTransaction,
            0x1B => LogOp::ForgetTransaction,
            0x1C => LogOp::OpenNonResidentAttribute,
            0x1D => LogOp::OpenAttributeTableDump,
            0x1E => LogOp::AttributeNamesDump,
            0x1F => LogOp::DirtyPageTableDump,
            0x20 => LogOp::TransactionTableDump,
            0x21 => LogOp::UpdateRecordDataRoot,
            0x22 => LogOp::UpdateRecordDataAllocation,
            other => LogOp::Unknown(other),
        }
    }

    /// The raw 16-bit operation code (inverse of [`LogOp::from_u16`]).
    #[must_use]
    pub fn code(self) -> (r: u16)
        ensures
            r == self.raw(),
    {
        match self {
            LogOp::Noop => 0x00,
            LogOp::CompensationLogRecord => 0x01,
            LogOp::InitializeFileRecordSegment => 0x02,
            LogOp::DeallocateFileRecordSegment => 0x03,
            LogOp::WriteEndOfFileRecordSegment => 0x04,
            LogOp::CreateAttribute => 0x05,
            LogOp::DeleteAttribute => 0x06,
            LogOp::UpdateResidentValue => 0x07,
            LogOp::UpdateNonResidentValue => 0x08,
            LogOp::UpdateMappingPairs => 0x09,
            LogOp::DeleteDirtyClusters => 0x0A,
            LogOp::SetNewAttributeSizes => 0x0B,
            LogOp::AddIndexEntryRoot => 0x0C,
            LogOp::DeleteIndexEntryRoot => 0x0D,
            LogOp::AddIndexEntryAllocation => 0x0E,
            LogOp::DeleteIndexEntryAllocation => 0x0F,
            LogOp::WriteEndOfIndexBuffer => 0x10,
            LogOp::SetIndexEntryVcnRoot => 0x11,
            LogOp::SetIndexEntryVcnAllocation => 0x12,
            LogOp::UpdateFileNameRoot => 0x13,
            LogOp::UpdateFileNameAllocation => 0x14,
            LogOp::SetBitsInNonResidentBitMap => 0x15,
            LogOp::ClearBitsInNonResidentBitMap => 0x16,
            LogOp::HotFix => 0x17,
            LogOp::EndTopLevelAction => 0x18,
            LogOp::PrepareTransaction => 0x19,
            LogOp::CommitTransaction => 0x1A,
            LogOp::ForgetTransaction => 0x1B,
            LogOp::OpenNonResidentAttribute => 0x1C,
            LogOp::OpenAttributeTableDump => 0x1D,
            LogOp::AttributeNamesDump => 0x1E,
            LogOp::DirtyPageTableDump => 0x1F,
            LogOp::TransactionTableDump => 0x20,
            LogOp::UpdateRecordDataRoot => 0x21,
            LogOp::UpdateRecordDataAllocation => 0x22,
            LogOp::Unknown(c) => c,
        }
    }
}

/// Every raw code is the code of the operation that it stands for: no code is lost or
/// merged with another.
pub proof fn law_code_inverts_from_u16(code: u16)
    ensures
        op_of(code).raw() == code,
{
}

/// Every documented code names an operation: only codes
/// above 0x22 are unknown.
pub proof fn law_only_codes_past_the_table_are_unknown(code: u16)
    ensures
        op_of(code) is Unknown <==> code > 0x22,
{
}

/// Distinct codes stand for distinct operations.
pub proof fn law_codes_name_distinct_operations(a: u16, b: u16)
    requires
        op_of(a) == op_of(b),
    ensures
        a == b,
{
    law_code_inverts_from_u16(a);
    law_code_inverts_from_u16(b);
}

/// One decoded LFS client record.
#[derive(Debug, Clone, Copy, PartialEq, Eq, Structural)]
pub struct LogRecord {
    /// Byte offset of the record within its page.
    pub page_offset: usize,
    /// This record's LSN.
    pub this_lsn: u64,
    /// LSN of the previous record of the same client.
    pub client_previous_lsn: u64,
    /// LSN of the next record to undo.
    pub client_undo_next_lsn: u64,
    /// LFS record type.
    pub record_type: u32,
    /// The transaction that the record belongs to.
    pub transaction_id: u32,
    /// What is done when the record is replayed.
    pub redo_op: LogOp,
    /// What is done when the record is rolled back.
    pub undo_op: LogOp,
    /// Index of the target attribute.
    pub target_attribute: u16,
    /// Cluster index within the MFT record.
    pub mft_cluster_index: u16,
    /// Target VCN.
    pub target_vcn: u64,
}

/// One RCRD record page from `$LogFile` with its multi-sector USA fixup applied.
///
/// `data` holds the page exactly as it was in memory before NTFS wrote the update
/// sequence number (USN) into each 512-byte sector tail. Pages whose USA integrity check
/// fails are not represented here (see [`read_record_pages`]).
#[derive(Debug, Clone)]
pub struct RecordPage {
    /// Byte offset of this page within the `$LogFile` stream.
    pub offset: usize,
    /// `last_lsn` from the RCRD header (offset 0x08): the LSN of the last log record that
    /// ends on this page.
    pub last_lsn: u64,
    /// Page bytes with the USA fixup applied (sector tails restored).
    pub data: Vec<u8>,
}

/// The mathematical content of a [`RecordPage`].
#[verifier::ext_equal]
pub struct RecordPageView {
    pub offset: usize,
    pub last_lsn: u64,
    pub data: Seq<u8>,
}

impl View for RecordPage {
    type V = RecordPageView;

    open spec fn view(&self) -> RecordPageView {
        RecordPageView { offset: self.offset, last_lsn: self.last_lsn, data: self.data@ }
    }
}

/// How many whole pages there are.
pub open spec fn page_count(log: Seq<u8>) -> int {
    log.len() as int / (LOG_PAGE_SIZE as int)
}

/// Where page `i` begins.
pub open spec fn page_start(i: int) -> int {
    i * LOG_PAGE_SIZE
}

/// The bytes of page `i`.
pub open spec fn page_at(log: Seq<u8>, i: int) -> Seq<u8> {
    log.subrange(page_start(i), page_start(i) + LOG_PAGE_SIZE)
}

proof fn lemma_pages_lie_inside(log: Seq<u8>, i: int)
    requires
        0 <= i < page_count(log),
    ensures
        0 <= page_start(i),
        page_start(i) + LOG_PAGE_SIZE <= log.len(),
{
    assert((i + 1) * 0x1000 <= log.len());
}

/// Whether page `i` is a restart page.
pub open spec fn is_restart(log: Seq<u8>, i: int) -> bool {
    bytes::has_at(log, page_start(i), layout::SIGNATURE_RSTR@)
}

/// Whether page `i` is a record page.
pub open spec fn is_record(log: Seq<u8>, i: int) -> bool {
    bytes::has_at(log, page_start(i), layout::SIGNATURE_RCRD@)
}

/// The record page that page `i` is read as: none when it is not a record page, or its
/// sector tails do not pass the integrity check.
pub open spec fn record_page_at(log: Seq<u8>, i: int) -> Option<RecordPageView> {
    if !is_record(log, i) {
        None
    } else {
        match record::fixed_up(page_at(log, i), LOG_SECTOR_SIZE as int) {
            Err(_) => None,
            Ok(page) => Some(
                RecordPageView {
                    offset: page_start(i) as usize,
                    last_lsn: bytes::u64_at(page, 0x08),
                    data: page,
                },
            ),
        }
    }
}

/// The trusted record pages among the first `n` pages, in order.
pub open spec fn record_pages(log: Seq<u8>, n: int) -> Seq<RecordPageView>
    decreases n,
{
    if n <= 0 {
        Seq::empty()
    } else {
        match record_page_at(log, n - 1) {
            Some(page) => record_pages(log, n - 1).push(page),
            None => record_pages(log, n - 1),
        }
    }
}

/// Reads every RCRD record page from a `$LogFile`, applying the multi-sector USA fixup
/// to each page in turn.
///
/// Only pages beginning with the `RCRD` signature are returned; RSTR restart pages and
/// zeroed/garbage pages are skipped. A page whose USA integrity check fails (torn write,
/// corruption, or tampering) is also skipped, because its record bytes cannot be trusted.
pub fn read_record_pages(log: &[u8]) -> (r: Vec<RecordPage>)
    ensures
        walk::models(r@) == record_pages(log@, page_count(log@)),
{
    let mut pages: Vec<RecordPage> = Vec::new();
    let total: usize = log.len();
    let count: usize = total / LOG_PAGE_SIZE;
    let mut i: usize = 0;
    assert(walk::models(pages@) =~= Seq::empty());
    while i < count
        invariant
            i <= count,
            total == log@.len(),
            count == page_count(log@),
            walk::models(pages@) == record_pages(log@, i as int),
        decreases count - i,
    {
        proof {
            lemma_pages_lie_inside(log@, i as int);
        }
        let offset: usize = i * LOG_PAGE_SIZE;
        if bytes::quad_is(log, offset, layout::SIGNATURE_RCRD) {
            let mut page = vstd::slice::slice_to_vec(
                vstd::slice::slice_subrange(log, offset, offset + LOG_PAGE_SIZE),
            );
            match record::apply_fixup(page.as_mut_slice(), LOG_SECTOR_SIZE) {
                Ok(_) => {
                    let last_lsn: u64 = bytes::le_u64(page.as_slice(), 0x08);
                    let found = RecordPage { offset, last_lsn, data: page };
                    proof {
                        walk::lemma_models_push(pages@, found);
                    }
                    pages.push(found);
                },
                Err(_) => {},
            }
        }
        i += 1;
    }
    pages
}

/// The restart area on page `i`.
pub open spec fn restart_area_at(log: Seq<u8>, i: int) -> RestartArea {
    let start = page_start(i);
    RestartArea {
        offset: start as usize,
        current_lsn: bytes::u64_at(log, start + 0x08),
        log_clients: bytes::u16_at(log, start + 0x10),
        system_page_size: bytes::u32_at(log, start + 0x20),
        log_page_size: bytes::u32_at(log, start + 0x24),
    }
}

/// The restart areas among the first `n` pages, in order.
pub open spec fn restart_areas(log: Seq<u8>, n: int) -> Seq<RestartArea>
    decreases n,
{
    if n <= 0 {
        Seq::empty()
    } else if is_restart(log, n - 1) {
        restart_areas(log, n - 1).push(restart_area_at(log, n - 1))
    } else {
        restart_areas(log, n - 1)
    }
}

/// How many of the first `n` pages are record pages.
pub open spec fn record_page_total(log: Seq<u8>, n: int) -> nat
    decreases n,
{
    if n <= 0 {
        0
    } else {
        record_page_total(log, n - 1) + if is_record(log, n - 1) {
            1nat
        } else {
            0nat
        }
    }
}

/// The LSN that page `i` declares: 0 when it is no log page.
pub open spec fn page_lsn(log: Seq<u8>, i: int) -> u64 {
    if is_restart(log, i) {
        bytes::u64_at(log, page_start(i) + 0x08)
    } else if is_record(log, i) {
        bytes::u64_at(log, page_start(i) + 0x18)
    } else {
        0
    }
}

/// The highest LSN that the first `n` pages declare.
pub open spec fn highest_lsn(log: Seq<u8>, n: int) -> u64
    decreases n,
{
    if n <= 0 {
        0
    } else {
        let before = highest_lsn(log, n - 1);
        if page_lsn(log, n - 1) > before {
            page_lsn(log, n - 1)
        } else {
            before
        }
    }
}

/// Whether a gap opens at page `i`: a page past the third that follows a record page, is
/// no log page itself, and is not zeroed.
pub open spec fn gap_at(log: Seq<u8>, i: int) -> bool {
    &&& i > 2
    &&& is_record(log, i - 1)
    &&& !is_restart(log, i)
    &&& !is_record(log, i)
    &&& !bytes::has_at(log, page_start(i), seq![0u8, 0u8, 0u8, 0u8])
}

/// What [`parse_logfile`] finds in a log.
pub open spec fn summarized(log: Seq<u8>, summary: LogFileSummary) -> bool {
    let n = page_count(log);
    &&& summary.restart_areas@ == restart_areas(log, n)
    &&& summary.record_page_count == record_page_total(log, n)
    &&& summary.highest_lsn == highest_lsn(log, n)
    &&& summary.has_gaps <==> exists|i: int| 0 <= i < n && #[trigger] gap_at(log, i)
}

/// Parses NTFS `$LogFile` data.
///
/// Scans for restart areas (RSTR) and record pages (RCRD) to build a summary. Detects
/// gaps in the log sequence. Bytes after the last whole page are not looked at.
///
/// # Errors
///
/// None: a log without any log page has an empty summary.
pub fn parse_logfile(log: &[u8]) -> (r: Result<LogFileSummary, NtfsError>)
    ensures
        r matches Ok(summary) && summarized(log@, summary),
{
    let mut areas: Vec<RestartArea> = Vec::new();
    let mut record_page_count: usize = 0;
    let mut highest: u64 = 0;
    let mut has_gaps = false;
    let mut after_record = false;
    let total: usize = log.len();
    let count: usize = total / LOG_PAGE_SIZE;
    let mut i: usize = 0;
    while i < count
        invariant
            i <= count,
            total == log@.len(),
            count == page_count(log@),
            record_page_count <= i,
            areas@ == restart_areas(log@, i as int),
            record_page_count == record_page_total(log@, i as int),
            highest == highest_lsn(log@, i as int),
            after_record == (i > 0 && is_record(log@, i - 1)),
            has_gaps <==> exists|j: int| 0 <= j < i && #[trigger] gap_at(log@, j),
        decreases count - i,
    {
        proof {
            lemma_pages_lie_inside(log@, i as int);
        }
        let start: usize = i * LOG_PAGE_SIZE;
        let restart = bytes::quad_is(log, start, layout::SIGNATURE_RSTR);
        let records = bytes::quad_is(log, start, layout::SIGNATURE_RCRD);
        proof {
            lemma_signatures_differ(log@, start as int);
        }
        let mut gap = false;
        if restart {
            let area = RestartArea {
                offset: start,
                current_lsn: bytes::le_u64(log, start + 0x08),
                log_clients: bytes::le_u16(log, start + 0x10),
                system_page_size: bytes::le_u32(log, start + 0x20),
                log_page_size: bytes::le_u32(log, start + 0x24),
            };
            if area.current_lsn > highest {
                highest = area.current_lsn;
            }
            areas.push(area);
        } else if records {
            record_page_count += 1;
            let lsn: u64 = bytes::le_u64(log, start + 0x18);
            if lsn > highest {
                highest = lsn;
            }
        } else if after_record && i > 2 {
            let zeroes: [u8; 4] = [0, 0, 0, 0];
            assert(zeroes@ =~= seq![0u8, 0u8, 0u8, 0u8]);
            gap = !bytes::quad_is(log, start, zeroes);
        }
        assert(gap == gap_at(log@, i as int));
        if gap {
            has_gaps = true;
        }
        after_record = records;
        i += 1;
    }
    Ok(LogFileSummary { restart_areas: areas, record_page_count, has_gaps, highest_lsn: highest })
}

/// A page is not both a restart page and a record page.
proof fn lemma_signatures_differ(log: Seq<u8>, start: int)
    ensures
        !(bytes::has_at(log, start, layout::SIGNATURE_RSTR@) && bytes::has_at(
            log,
            start,
            layout::SIGNATURE_RCRD@,
        )),
{
    assert(layout::SIGNATURE_RSTR@[1] == 0x53);
    assert(layout::SIGNATURE_RCRD@[1] == 0x43);
}

/// Whether a summary shows signs of a cleared journal: a gap in the record pages, or no
/// restart area at all.
#[must_use]
pub fn detect_journal_clearing(logfile_summary: &LogFileSummary) -> (r: bool)
    ensures
        r == (logfile_summary.has_gaps || logfile_summary.restart_areas@.len() == 0),
{
    if logfile_summary.has_gaps {
        return true;
    }
    logfile_summary.restart_areas.len() == 0
}

proof fn lemma_highest_bounds(log: Seq<u8>, n: int, i: int)
    requires
        0 <= i < n,
    ensures
        page_lsn(log, i) <= highest_lsn(log, n),
    decreases n,
{
    if i < n - 1 {
        lemma_highest_bounds(log, n - 1, i);
    }
}

/// No page of the log declares an LSN above the highest.
pub proof fn law_no_page_exceeds_the_highest_lsn(log: Seq<u8>, i: int)
    requires
        0 <= i < page_count(log),
    ensures
        page_lsn(log, i) <= highest_lsn(log, page_count(log)),
{
    lemma_highest_bounds(log, page_count(log), i);
}

/// The highest LSN is one that a page declares, unless no page declares any but 0.
pub proof fn law_the_highest_lsn_is_declared(log: Seq<u8>, n: int)
    requires
        0 <= n,
    ensures
        highest_lsn(log, n) == 0 || exists|i: int|
            0 <= i < n && #[trigger] page_lsn(log, i) == highest_lsn(log, n),
    decreases n,
{
    if n > 0 {
        law_the_highest_lsn_is_declared(log, n - 1);
        let before = highest_lsn(log, n - 1);
        if page_lsn(log, n - 1) <= before && before != 0 {
            let i = choose|i: int| 0 <= i < n - 1 && #[trigger] page_lsn(log, i) == before;
            assert(page_lsn(log, i) == highest_lsn(log, n));
        }
    }
}

proof fn lemma_record_pages_are_sound(log: Seq<u8>, n: int)
    requires
        0 <= n <= page_count(log),
    ensures
        forall|k: int|
            0 <= k < record_pages(log, n).len() ==> {
                let page = #[trigger] record_pages(log, n)[k];
                &&& page.data.len() == LOG_PAGE_SIZE
                &&& page.data.subrange(0, 4) == layout::SIGNATURE_RCRD@
            },
        record_pages(log, n).len() <= n,
    decreases n,
{
    if n > 0 {
        lemma_record_pages_are_sound(log, n - 1);
        if let Some(page) = record_page_at(log, n - 1) {
            let raw = page_at(log, n - 1);
            record::law_fixup_touches_only_sector_tails(raw, LOG_SECTOR_SIZE as int);
            let sectors = bytes::u16_at(raw, 0x06) - 1;
            assert forall|j: int| 0 <= j < 4 implies page.data[j] == raw[j] by {
                if record::in_some_tail(LOG_SECTOR_SIZE as int, sectors, j) {
                    let s = choose|s: int|
                        0 <= s < sectors && (#[trigger] record::sector_tail(
                            LOG_SECTOR_SIZE as int,
                            s,
                        ) == j || record::sector_tail(LOG_SECTOR_SIZE as int, s) + 1 == j);
                    assert(record::sector_tail(LOG_SECTOR_SIZE as int, s) >= 510);
                }
            }
            let start = page_start(n - 1);
            assert(log.subrange(start, start + 4) =~= raw.subrange(0, 4));
            assert(page.data.subrange(0, 4) =~= raw.subrange(0, 4));
        }
    }
}

/// Every page that is returned is a whole record page, its signature intact.
pub proof fn law_returned_pages_are_whole_record_pages(log: Seq<u8>)
    ensures
        forall|k: int|
            0 <= k < record_pages(log, page_count(log)).len() ==> {
                let page = #[trigger] record_pages(log, page_count(log))[k];
                &&& page.data.len() == LOG_PAGE_SIZE
                &&& page.data.subrange(0, 4) == layout::SIGNATURE_RCRD@
            },
        record_pages(log, page_count(log)).len() <= page_count(log),
{
    lemma_record_pages_are_sound(log, page_count(log));
}

/// Each documented code stands for its operation and for no other.
pub proof fn law_codes_stand_for_their_operations(code: u16)
    ensures
        op_of(code) is Noop <==> code == 0x00,
        op_of(code) is CompensationLogRecord <==> code == 0x01,
        op_of(code) is InitializeFileRecordSegment <==> code == 0x02,
        op_of(code) is DeallocateFileRecordSegment <==> code == 0x03,
        op_of(code) is WriteEndOfFileRecordSegment <==> code == 0x04,
        op_of(code) is CreateAttribute <==> code == 0x05,
        op_of(code) is DeleteAttribute <==> code == 0x06,
        op_of(code) is UpdateResidentValue <==> code == 0x07,
        op_of(code) is UpdateNonResidentValue <==> code == 0x08,
        op_of(code) is UpdateMappingPairs <==> code == 0x09,
        op_of(code) is DeleteDirtyClusters <==> code == 0x0A,
        op_of(code) is SetNewAttributeSizes <==> code == 0x0B,
        op_of(code) is AddIndexEntryRoot <==> code == 0x0C,
        op_of(code) is DeleteIndexEntryRoot <==> code == 0x0D,
        op_of(code) is AddIndexEntryAllocation <==> code == 0x0E,
        op_of(code) is DeleteIndexEntryAllocation <==> code == 0x0F,
        op_of(code) is WriteEndOfIndexBuffer <==> code == 0x10,
        op_of(code) is SetIndexEntryVcnRoot <==> code == 0x11,
        op_of(code) is SetIndexEntryVcnAllocation <==> code == 0x12,
        op_of(code) is UpdateFileNameRoot <==> code == 0x13,
        op_of(code) is UpdateFileNameAllocation <==> code == 0x14,
        op_of(code) is SetBitsInNonResidentBitMap <==> code == 0x15,
        op_of(code) is ClearBitsInNonResidentBitMap <==> code == 0x16,
        op_of(code) is HotFix <==> code == 0x17,
        op_of(code) is EndTopLevelAction <==> code == 0x18,
        op_of(code) is PrepareTransaction <==> code == 0x19,
        op_of(code) is CommitTransaction <==> code == 0x1A,
        op_of(code) is ForgetTransaction <==> code == 0x1B,
        op_of(code) is OpenNonResidentAttribute <==> code == 0x1C,
        op_of(code) is OpenAttributeTableDump <==> code == 0x1D,
        op_of(code) is AttributeNamesDump <==> code == 0x1E,
        op_of(code) is DirtyPageTableDump <==> code == 0x1F,
        op_of(code) is TransactionTableDump <==> code == 0x20,
        op_of(code) is UpdateRecordDataRoot <==> code == 0x21,
        op_of(code) is UpdateRecordDataAllocation <==> code == 0x22,
{
}

/// Where page `i` of a log begins: pages are 4096 bytes.
pub open spec fn log_page(i: int) -> int {
    4096 * i
}

/// Whether page `i` begins with `signature`.
pub open spec fn is_signed(log: Seq<u8>, i: int, signature: Seq<u8>) -> bool {
    log.subrange(log_page(i), log_page(i) + 4) == signature
}

proof fn lemma_page_kinds(log: Seq<u8>, i: int)
    requires
        0 <= i,
        log_page(i) + 4096 <= log.len(),
    ensures
        is_restart(log, i) <==> is_signed(log, i, seq![0x52u8, 0x53, 0x54, 0x52]),
        is_record(log, i) <==> is_signed(log, i, seq![0x52u8, 0x43, 0x52, 0x44]),
        i < page_count(log),
        page_start(i) == log_page(i),
{
    assert(layout::SIGNATURE_RSTR@ =~= seq![0x52u8, 0x53, 0x54, 0x52]);
    assert(layout::SIGNATURE_RCRD@ =~= seq![0x52u8, 0x43, 0x52, 0x44]);
}

proof fn lemma_areas_are_kept(log: Seq<u8>, i: int, n: int)
    requires
        0 <= i < n,
        is_restart(log, i),
    ensures
        restart_areas(log, n).contains(restart_area_at(log, i)),
    decreases n,
{
    let all = restart_areas(log, n);
    if i == n - 1 {
        assert(all[all.len() - 1] == restart_area_at(log, i));
    } else {
        lemma_areas_are_kept(log, i, n - 1);
        let shorter = restart_areas(log, n - 1);
        let k = choose|k: int|
            0 <= k < shorter.len() && shorter[k] == restart_area_at(log, i);
        assert(all[k] == restart_area_at(log, i));
    }
}

/// A restart page leaves an area in the summary.
pub proof fn lemma_restart_page_is_kept(log: Seq<u8>, i: int)
    requires
        0 <= i < page_count(log),
        is_signed(log, i, seq![0x52u8, 0x53, 0x54, 0x52]),
    ensures
        restart_areas(log, page_count(log)).len() > 0,
{
    lemma_pages_lie_inside(log, i);
    lemma_page_kinds(log, i);
    lemma_areas_are_kept(log, i, page_count(log));
}

/// Every restart page of the log has its area in the summary, with the fields that were
/// written on the page, each from its own place.
pub proof fn law_every_restart_page_counts(log: Seq<u8>, i: int, area: RestartArea)
    requires
        0 <= i,
        log_page(i) + 4096 <= log.len() <= usize::MAX,
        is_signed(log, i, seq![0x52u8, 0x53, 0x54, 0x52]),
        area.offset == log_page(i),
        bytes::spells(log, log_page(i) + 0x08, 8, area.current_lsn as nat),
        bytes::spells(log, log_page(i) + 0x10, 2, area.log_clients as nat),
        bytes::spells(log, log_page(i) + 0x20, 4, area.system_page_size as nat),
        bytes::spells(log, log_page(i) + 0x24, 4, area.log_page_size as nat),
    ensures
        restart_areas(log, page_count(log)).contains(area),
{
    lemma_page_kinds(log, i);
    lemma_areas_are_kept(log, i, page_count(log));
    bytes::law_numbers_read_back(log, log_page(i) + 0x08, area.current_lsn as nat);
    bytes::law_numbers_read_back(log, log_page(i) + 0x10, area.log_clients as nat);
    bytes::law_numbers_read_back(log, log_page(i) + 0x20, area.system_page_size as nat);
    bytes::law_numbers_read_back(log, log_page(i) + 0x24, area.log_page_size as nat);
}

/// The areas of a summary stand on restart pages, in page order, and no page gives two.
pub proof fn law_areas_are_those_of_restart_pages(log: Seq<u8>, n: int)
    requires
        0 <= n,
        log_page(n) <= log.len() <= usize::MAX,
    ensures
        forall|k: int|
            0 <= k < restart_areas(log, n).len() ==> {
                let at = (#[trigger] restart_areas(log, n)[k]).offset as int;
                at % 4096 == 0 && at < log_page(n) && is_signed(
                    log,
                    at / 4096,
                    seq![0x52u8, 0x53, 0x54, 0x52],
                )
            },
        forall|j: int, k: int|
            0 <= j < k < restart_areas(log, n).len() ==> (#[trigger] restart_areas(log, n)[j]).offset
                < (#[trigger] restart_areas(log, n)[k]).offset,
    decreases n,
{
    if n > 0 {
        law_areas_are_those_of_restart_pages(log, n - 1);
        lemma_page_kinds(log, n - 1);
        let shorter = restart_areas(log, n - 1);
        let all = restart_areas(log, n);
        assert forall|k: int| 0 <= k < all.len() implies {
            let at = (#[trigger] all[k]).offset as int;
            at % 4096 == 0 && at < log_page(n) && is_signed(
                log,
                at / 4096,
                seq![0x52u8, 0x53, 0x54, 0x52],
            )
        } by {
            if k < shorter.len() {
                assert(all[k] == shorter[k]);
            } else {
                assert(all[k].offset == log_page(n - 1));
            }
        }
        assert forall|j: int, k: int| 0 <= j < k < all.len() implies (#[trigger] all[j]).offset < (
        #[trigger] all[k]).offset by {
            assert(all[j] == shorter[j]);
            if k < shorter.len() {
                assert(all[k] == shorter[k]);
            } else {
                assert(shorter[j].offset < log_page(n - 1));
            }
        }
    }
}

/// The pages among the first `n` that begin with `signature`.
pub open spec fn signed_pages(log: Seq<u8>, n: int, signature: Seq<u8>) -> Set<int> {
    Set::new(|i: int| 0 <= i < n && is_signed(log, i, signature))
}

/// The record pages of a log are counted, each once and none left out.
pub proof fn law_record_pages_are_counted(log: Seq<u8>, n: int)
    requires
        0 <= n,
        log_page(n) <= log.len(),
    ensures
        signed_pages(log, n, seq![0x52u8, 0x43, 0x52, 0x44]).finite(),
        record_page_total(log, n) == signed_pages(log, n, seq![0x52u8, 0x43, 0x52, 0x44]).len(),
    decreases n,
{
    let signature = seq![0x52u8, 0x43, 0x52, 0x44];
    let pages = signed_pages(log, n, signature);
    if n == 0 {
        assert(pages =~= Set::empty());
    } else {
        law_record_pages_are_counted(log, n - 1);
        lemma_page_kinds(log, n - 1);
        let shorter = signed_pages(log, n - 1, signature);
        if is_signed(log, n - 1, signature) {
            assert(pages =~= shorter.insert(n - 1));
        } else {
            assert(pages =~= shorter);
        }
    }
}

/// A restart page declares its LSN in its ninth byte and on, a record page sixteen bytes
/// further, and another page none. A log has as many pages as fit in it whole.
pub proof fn law_pages_declare_their_lsn(log: Seq<u8>, i: int, lsn: u64)
    requires
        0 <= i,
        log_page(i) + 4096 <= log.len(),
    ensures
        is_signed(log, i, seq![0x52u8, 0x53, 0x54, 0x52]) && bytes::spells(
            log,
            log_page(i) + 0x08,
            8,
            lsn as nat,
        ) ==> page_lsn(log, i) == lsn,
        is_signed(log, i, seq![0x52u8, 0x43, 0x52, 0x44]) && bytes::spells(
            log,
            log_page(i) + 0x18,
            8,
            lsn as nat,
        ) ==> page_lsn(log, i) == lsn,
        !is_signed(log, i, seq![0x52u8, 0x53, 0x54, 0x52]) && !is_signed(
            log,
            i,
            seq![0x52u8, 0x43, 0x52, 0x44],
        ) ==> page_lsn(log, i) == 0,
        log_page(page_count(log)) <= log.len() < log_page(page_count(log)) + 4096,
{
    lemma_page_kinds(log, i);
    lemma_signatures_differ(log, page_start(i));
    bytes::law_numbers_read_back(log, log_page(i) + 0x08, lsn as nat);
    bytes::law_numbers_read_back(log, log_page(i) + 0x18, lsn as nat);
}

/// A gap is a page past the third behind a record page that is signed as neither kind, and
/// is not zeroed either.
pub proof fn law_a_gap_follows_a_record_page(log: Seq<u8>, i: int)
    requires
        0 <= i,
        log_page(i) + 4096 <= log.len(),
    ensures
        gap_at(log, i) <==> {
            &&& i >= 3
            &&& is_signed(log, i - 1, seq![0x52u8, 0x43, 0x52, 0x44])
            &&& !is_signed(log, i, seq![0x52u8, 0x53, 0x54, 0x52])
            &&& !is_signed(log, i, seq![0x52u8, 0x43, 0x52, 0x44])
            &&& !is_signed(log, i, seq![0u8, 0, 0, 0])
        },
{
    lemma_page_kinds(log, i);
    if i >= 1 {
        lemma_page_kinds(log, i - 1);
    }
}

proof fn lemma_pages_are_kept(log: Seq<u8>, i: int, n: int)
    requires
        0 <= i < n,
        record_page_at(log, i) is Some,
    ensures
        record_pages(log, n).contains(record_page_at(log, i)->0),
    decreases n,
{
    let page = record_page_at(log, i)->0;
    let all = record_pages(log, n);
    if i == n - 1 {
        assert(all[all.len() - 1] == page);
    } else {
        lemma_pages_are_kept(log, i, n - 1);
        let shorter = record_pages(log, n - 1);
        let k = choose|k: int| 0 <= k < shorter.len() && shorter[k] == page;
        assert(all[k] == page);
    }
}

/// A record page that was written under the protection of its sectors is among the pages
/// that are read, as it was before, with the LSN that it declares and where it stands.
pub proof fn law_written_record_pages_are_read_back(
    log: Seq<u8>,
    i: int,
    plain: Seq<u8>,
    usa: int,
    usn: u16,
    n: int,
    lsn: u64,
)
    requires
        0 <= i,
        log_page(i) + 4096 <= log.len() <= usize::MAX,
        is_signed(log, i, seq![0x52u8, 0x43, 0x52, 0x44]),
        record::protects(
            log.subrange(log_page(i), log_page(i) + 4096),
            plain,
            512,
            usa,
            usn,
            n,
        ),
        record::has_room(4096, 512, usa, n),
        bytes::spells(plain, 0x08, 8, lsn as nat),
    ensures
        record_pages(log, page_count(log)).contains(
            (RecordPageView { offset: log_page(i) as usize, last_lsn: lsn, data: plain }),
        ),
{
    lemma_page_kinds(log, i);
    let raw = log.subrange(log_page(i), log_page(i) + 4096);
    record::law_fixup_undoes_protection(raw, plain, 512, usa, usn, n);
    bytes::law_numbers_read_back(plain, 0x08, lsn as nat);
    lemma_pages_are_kept(log, i, page_count(log));
}

/// A page that is read stands where it says on a record page, and is what the fixup makes
/// of that page: one with a torn sector is left out. Pages come in order.
pub proof fn law_read_pages_are_those_of_the_log(log: Seq<u8>, n: int)
    requires
        0 <= n,
        log_page(n) <= log.len() <= usize::MAX,
    ensures
        forall|k: int|
            0 <= k < record_pages(log, n).len() ==> {
                let page = #[trigger] record_pages(log, n)[k];
                let at = page.offset as int;
                &&& at % 4096 == 0
                &&& at < log_page(n)
                &&& is_signed(log, at / 4096, seq![0x52u8, 0x43, 0x52, 0x44])
                &&& record::fixup(log.subrange(at, at + 4096), 512) == (
                    page.data,
                    Ok::<(), NtfsError>(()),
                )
            },
        forall|j: int, k: int|
            0 <= j < k < record_pages(log, n).len() ==> (#[trigger] record_pages(log, n)[j]).offset
                < (#[trigger] record_pages(log, n)[k]).offset,
    decreases n,
{
    if n > 0 {
        law_read_pages_are_those_of_the_log(log, n - 1);
        lemma_page_kinds(log, n - 1);
        if is_record(log, n - 1) {
            let outcome = record::fixup(page_at(log, n - 1), 512).1;
            if outcome is Ok {
                assert(outcome->Ok_0 == ());
            }
        }
    }
}

/// A summary tells of the whole log: it counts all record pages, no page declares a higher
/// LSN, and it tells of a gap exactly when there is one.
pub proof fn law_summaries_tell_of_the_whole_log(log: Seq<u8>, summary: LogFileSummary)
    requires
        summarized(log, summary),
        log.len() <= usize::MAX,
    ensures
        summary.record_page_count == signed_pages(
            log,
            log.len() as int / 4096,
            seq![0x52u8, 0x43, 0x52, 0x44],
        ).len(),
        forall|i: int|
            0 <= i < log.len() as int / 4096 ==> #[trigger] page_lsn(log, i) <= summary.highest_lsn,
        summary.highest_lsn == 0 || exists|i: int|
            0 <= i < log.len() as int / 4096 && #[trigger] page_lsn(log, i) == summary.highest_lsn,
        summary.has_gaps <==> exists|i: int|
            0 <= i < log.len() as int / 4096 && #[trigger] gap_at(log, i),
        forall|i: int|
            0 <= i < log.len() as int / 4096 && is_signed(
                log,
                i,
                seq![0x52u8, 0x53, 0x54, 0x52],
            ) ==> summary.restart_areas@.contains(#[trigger] restart_area_at(log, i)),
{
    let n = page_count(log);
    law_record_pages_are_counted(log, n);
    law_the_highest_lsn_is_declared(log, n);
    assert forall|i: int| 0 <= i < n implies #[trigger] page_lsn(log, i)
        <= summary.highest_lsn by {
        law_no_page_exceeds_the_highest_lsn(log, i);
    }
    assert forall|i: int|
        0 <= i < n && is_signed(log, i, seq![0x52u8, 0x53, 0x54, 0x52]) implies summary.restart_areas@.contains(
    #[trigger] restart_area_at(log, i)) by {
        lemma_pages_lie_inside(log, i);
        lemma_page_kinds(log, i);
        lemma_areas_are_kept(log, i, n);
    }
}

} // verus!
