//! Semantic interpretation of `$LogFile` LFS records as file operations.
//!
//! This layer maps each record's `(redo, undo)` operation pair to the higher-level
//! **file operation** it effects: file creation, deletion, rename, data write, attribute
//! change, index change, or transaction control.
//!
//! In the NTFS Log File Service every redo opcode names a *structural* mutation of an
//! on-disk object (an FRS, an attribute, an index entry, a bitmap), and the undo opcode
//! names its inverse. The operation class is therefore intrinsic to the opcode pair.
//!
//! A record whose pair is not a recognised file operation surfaces the raw
//! `(redo_code, undo_code)` verbatim via [`FileOperation::Unknown`].

use vstd::prelude::*;
use crate::logfile;
use crate::logfile::{LogOp, LogRecord};

verus! {

/// A higher-level file operation reconstructed from a `$LogFile` LFS record's
/// `(redo, undo)` operation pair.
#[derive(Debug, Clone, Copy, PartialEq, Eq, Structural)]
pub enum FileOperation {
    /// A file record segment was initialized: file/dir **creation**.
    Create,
    /// A file record segment was freed: file/dir **deletion**.
    Delete,
    /// A `$FILE_NAME` in a directory index was updated in place: a **rename / move**.
    Rename,
    /// A name was **inserted** into a directory index.
    IndexInsert,
    /// A name was **removed** from a directory index.
    IndexDelete,
    /// A new attribute was added to a file record.
    AttributeCreate,
    /// An attribute was removed from a file record.
    AttributeDelete,
    /// An attribute's sizes changed: a file **resize**.
    Resize,
    /// Attribute **data** was written: a content update, run-list / VCN mapping change,
    /// or index-buffer write.
    DataWrite,
    /// A cluster/MFT-allocation **bitmap** bit was set or cleared, or clusters marked
    /// dirty.
    BitmapAllocation,
    /// Transaction-boundary control, not an on-disk file mutation.
    TransactionControl,
    /// A table **dump** or hot-fix: log housekeeping that records no file change.
    TableDump,
    /// A no-op log record.
    Noop,
    /// The `(redo, undo)` opcode pair is not a recognised file operation. The raw codes
    /// are surfaced verbatim.
    Unknown(u16, u16),
}

/// Whether `op` writes attribute data.
pub open spec fn writes_data(op: LogOp) -> bool {
    ||| op is UpdateResidentValue
    ||| op is UpdateNonResidentValue
    ||| op is UpdateMappingPairs
    ||| op is WriteEndOfFileRecordSegment
    ||| op is WriteEndOfIndexBuffer
    ||| op is SetIndexEntryVcnRoot
    ||| op is SetIndexEntryVcnAllocation
    ||| op is UpdateRecordDataRoot
    ||| op is UpdateRecordDataAllocation
}

/// Whether `op` changes what is allocated.
pub open spec fn changes_allocation(op: LogOp) -> bool {
    ||| op is SetBitsInNonResidentBitMap
    ||| op is ClearBitsInNonResidentBitMap
    ||| op is DeleteDirtyClusters
}

/// Whether `op` bounds a transaction.
pub open spec fn controls_transaction(op: LogOp) -> bool {
    ||| op is EndTopLevelAction
    ||| op is PrepareTransaction
    ||| op is CommitTransaction
    ||| op is ForgetTransaction
    ||| op is CompensationLogRecord
}

/// Whether `op` is log housekeeping.
pub open spec fn dumps_table(op: LogOp) -> bool {
    ||| op is HotFix
    ||| op is OpenNonResidentAttribute
    ||| op is OpenAttributeTableDump
    ||| op is AttributeNamesDump
    ||| op is DirtyPageTableDump
    ||| op is TransactionTableDump
}

/// The file operation that a redo opcode names by itself, if it names one.
pub open spec fn redo_operation(redo: LogOp) -> Option<FileOperation> {
    if redo is InitializeFileRecordSegment {
        Some(FileOperation::Create)
    } else if redo is DeallocateFileRecordSegment {
        Some(FileOperation::Delete)
    } else if redo is UpdateFileNameRoot || redo is UpdateFileNameAllocation {
        Some(FileOperation::Rename)
    } else if redo is AddIndexEntryRoot || redo is AddIndexEntryAllocation {
        Some(FileOperation::IndexInsert)
    } else if redo is DeleteIndexEntryRoot || redo is DeleteIndexEntryAllocation {
        Some(FileOperation::IndexDelete)
    } else if redo is CreateAttribute {
        Some(FileOperation::AttributeCreate)
    } else if redo is DeleteAttribute {
        Some(FileOperation::AttributeDelete)
    } else if redo is SetNewAttributeSizes {
        Some(FileOperation::Resize)
    } else if writes_data(redo) {
        Some(FileOperation::DataWrite)
    } else if changes_allocation(redo) {
        Some(FileOperation::BitmapAllocation)
    } else if controls_transaction(redo) {
        Some(FileOperation::TransactionControl)
    } else if dumps_table(redo) {
        Some(FileOperation::TableDump)
    } else {
        None
    }
}

/// The file operation of a `(redo, undo)` pair. The redo opcode names it; a bare no-op
/// redo is classified by an undo that deletes something, which is how a pure
/// deallocation is logged; every other pair keeps its raw codes.
pub open spec fn operation(redo: LogOp, undo: LogOp) -> FileOperation {
    match redo_operation(redo) {
        Some(op) => op,
        None => if redo is Noop && undo is Noop {
            FileOperation::Noop
        } else if redo is Noop && undo is DeallocateFileRecordSegment {
            FileOperation::Delete
        } else if redo is Noop && (undo is DeleteIndexEntryRoot
            || undo is DeleteIndexEntryAllocation) {
            FileOperation::IndexDelete
        } else if redo is Noop && undo is DeleteAttribute {
            FileOperation::AttributeDelete
        } else {
            FileOperation::Unknown(redo.raw(), undo.raw())
        },
    }
}

impl FileOperation {
    /// Classifies a single decoded LFS [`LogRecord`] into its file operation.
    #[must_use]
    pub fn classify(record: &LogRecord) -> (r: Self)
        ensures
            r == operation(record.redo_op, record.undo_op),
    {
        classify(record.redo_op, record.undo_op)
    }
}

/// Maps a `(redo, undo)` pair to its [`FileOperation`].
#[must_use]
pub fn classify(redo: LogOp, undo: LogOp) -> (r: FileOperation)
    ensures
        r == operation(redo, undo),
{
    match redo {
        LogOp::InitializeFileRecordSegment => FileOperation::Create,
        LogOp::DeallocateFileRecordSegment => FileOperation::Delete,
        LogOp::UpdateFileNameRoot | LogOp::UpdateFileNameAllocation => FileOperation::Rename,
        LogOp::AddIndexEntryRoot | LogOp::AddIndexEntryAllocation => FileOperation::IndexInsert,
        LogOp::DeleteIndexEntryRoot
        | LogOp::DeleteIndexEntryAllocation => FileOperation::IndexDelete,
        LogOp::CreateAttribute => FileOperation::AttributeCreate,
        LogOp::DeleteAttribute => FileOperation::AttributeDelete,
        LogOp::SetNewAttributeSizes => FileOperation::Resize,
        LogOp::UpdateResidentValue
        | LogOp::UpdateNonResidentValue
        | LogOp::UpdateMappingPairs
        | LogOp::WriteEndOfFileRecordSegment
        | LogOp::WriteEndOfIndexBuffer
        | LogOp::SetIndexEntryVcnRoot
        | LogOp::SetIndexEntryVcnAllocation
        | LogOp::UpdateRecordDataRoot
        | LogOp::UpdateRecordDataAllocation => FileOperation::DataWrite,
        LogOp::SetBitsInNonResidentBitMap
        | LogOp::ClearBitsInNonResidentBitMap
        | LogOp::DeleteDirtyClusters => FileOperation::BitmapAllocation,
        LogOp::EndTopLevelAction
        | LogOp::PrepareTransaction
        | LogOp::CommitTransaction
        | LogOp::ForgetTransaction
        | LogOp::CompensationLogRecord => FileOperation::TransactionControl,
        LogOp::HotFix
        | LogOp::OpenNonResidentAttribute
        | LogOp::OpenAttributeTableDump
        | LogOp::AttributeNamesDump
        | LogOp::DirtyPageTableDump
        | LogOp::TransactionTableDump => FileOperation::TableDump,
        LogOp::Noop => match undo {
            LogOp::Noop => FileOperation::Noop,
            LogOp::DeallocateFileRecordSegment => FileOperation::Delete,
            LogOp::DeleteIndexEntryRoot
            | LogOp::DeleteIndexEntryAllocation => FileOperation::IndexDelete,
            LogOp::DeleteAttribute => FileOperation::AttributeDelete,
            other => FileOperation::Unknown(0x00, other.code()),
        },
        LogOp::Unknown(r) => FileOperation::Unknown(r, undo.code()),
    }
}

/// A pair that is not recognised keeps both raw codes: nothing is dropped.
pub proof fn law_unrecognised_pairs_keep_their_codes(redo: LogOp, undo: LogOp)
    ensures
        operation(redo, undo) matches FileOperation::Unknown(r, u) ==> r == redo.raw() && u
            == undo.raw(),
        redo is Unknown ==> operation(redo, undo) is Unknown,
{
}

/// A documented redo opcode other than the no-op is classified whatever the undo is.
pub proof fn law_redo_decides(redo: LogOp, a: LogOp, b: LogOp)
    requires
        !(redo is Noop),
        !(redo is Unknown),
    ensures
        operation(redo, a) == operation(redo, b),
        !(operation(redo, a) is Unknown),
{
}

/// What a pair of codes does to a file, by the codes themselves: the redo code says, and
/// under a redo of zero an undo that deletes.
pub proof fn law_codes_decide_the_operation(redo: u16, undo: u16)
    ensures
        ({
            let op = operation(logfile::op_of(redo), logfile::op_of(undo));
            &&& op is Create <==> redo == 0x02
            &&& op is Delete <==> redo == 0x03 || (redo == 0 && undo == 0x03)
            &&& op is Rename <==> redo == 0x13 || redo == 0x14
            &&& op is IndexInsert <==> redo == 0x0C || redo == 0x0E
            &&& op is IndexDelete <==> redo == 0x0D || redo == 0x0F || (redo == 0 && (undo == 0x0D
                || undo == 0x0F))
            &&& op is AttributeCreate <==> redo == 0x05
            &&& op is AttributeDelete <==> redo == 0x06 || (redo == 0 && undo == 0x06)
            &&& op is Resize <==> redo == 0x0B
            &&& op is DataWrite <==> redo == 0x04 || (0x07 <= redo <= 0x09) || (0x10 <= redo
                <= 0x12) || redo == 0x21 || redo == 0x22
            &&& op is BitmapAllocation <==> redo == 0x0A || redo == 0x15 || redo == 0x16
            &&& op is TransactionControl <==> redo == 0x01 || (0x18 <= redo <= 0x1B)
            &&& op is TableDump <==> redo == 0x17 || (0x1C <= redo <= 0x20)
            &&& op is Noop <==> redo == 0 && undo == 0
            &&& op is Unknown <==> redo > 0x22 || (redo == 0 && undo != 0 && undo != 0x03 && undo
                != 0x06 && undo != 0x0D && undo != 0x0F)
        }),
{
}

} // verus!
