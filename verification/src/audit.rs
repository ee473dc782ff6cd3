//! The artifacts a "clean" reader hides: timestomping indicators, alternate data
//! streams, MFT-record slack, deleted records, and tampered volume metadata.
//!
//! The primitives answer "what does this record show?"; the auditors grade those
//! observations into severity-ranked anomalies. Each anomaly is an *observation*
//! ("consistent with ..."); the examiner draws the conclusions. All of it is computed
//! from bytes and already-parsed structures alone.

use vstd::prelude::*;
use crate::attribute;
use crate::attribute::{Attribute, AttributeView};
use crate::bytes;
use crate::error::NtfsError;
use crate::file_name;
use crate::file_name::{FileName, FileNameView};
use crate::fs;
use crate::layout;
use crate::logfile;
use crate::mftmirr;
use crate::record;
use crate::record::MftRecordHeader;
use crate::standard_information;
use crate::standard_information::StandardInformation;
use crate::text;
use crate::time;
use crate::time::Filetime;
use crate::walk;

verus! {

/// Indicators that a file's `$STANDARD_INFORMATION` timestamps were forged.
///
/// `$FN` timestamps are harder to forge than `$SI`, so divergence between the two, or
/// `$SI` times landing on a whole second, is suspicious.
#[derive(Debug, Clone, Copy, PartialEq, Eq, Structural)]
pub struct TimestompIndicators {
    /// `$SI` creation time predates `$FN` creation time.
    pub si_created_before_fn: bool,
    /// `$SI` creation time differs from `$FN` creation time.
    pub created_mismatch: bool,
    /// One or more `$SI` timestamps fall exactly on a whole second (no sub-second
    /// precision, a common timestomp artifact).
    pub si_whole_second: bool,
}

impl Default for TimestompIndicators {
    /// No indicator.
    fn default() -> (r: Self)
        ensures
            r == (TimestompIndicators {
                si_created_before_fn: false,
                created_mismatch: false,
                si_whole_second: false,
            }),
    {
        TimestompIndicators {
            si_created_before_fn: false,
            created_mismatch: false,
            si_whole_second: false,
        }
    }
}

impl TimestompIndicators {
    /// `true` if any strong indicator fired.
    #[must_use]
    pub fn is_suspicious(&self) -> (r: bool)
        ensures
            r == (self.si_created_before_fn || self.si_whole_second),
    {
        self.si_created_before_fn || self.si_whole_second
    }
}

/// Whether a timestamp is set and has no sub-second part.
pub open spec fn on_whole_second(ft: Filetime) -> bool {
    ft.0 != 0 && ft.0 as int % (time::TICKS_PER_SECOND as int) == 0
}

/// The indicators that a file's two sets of timestamps show.
pub open spec fn indicators(si: StandardInformation, name: FileNameView) -> TimestompIndicators {
    TimestompIndicators {
        si_created_before_fn: si.created.0 < name.created.0,
        created_mismatch: si.created.0 != name.created.0,
        si_whole_second: on_whole_second(si.created) || on_whole_second(si.modified)
            || on_whole_second(si.mft_modified) || on_whole_second(si.accessed),
    }
}

/// Compares a file's `$STANDARD_INFORMATION` against one of its `$FILE_NAME` attributes
/// for timestomping indicators.
#[must_use]
pub fn detect_timestomp(si: &StandardInformation, file_name: &FileName) -> (r: TimestompIndicators)
    ensures
        r == indicators(*si, file_name@),
{
    TimestompIndicators {
        si_created_before_fn: si.created.0 < file_name.created.0,
        created_mismatch: si.created.0 != file_name.created.0,
        si_whole_second: whole_second(si.created) || whole_second(si.modified) || whole_second(
            si.mft_modified,
        ) || whole_second(si.accessed),
    }
}

/// `true` when a timestamp is non-zero yet lands exactly on a whole second.
pub fn whole_second(ft: Filetime) -> (r: bool)
    ensures
        r == on_whole_second(ft),
{
    ft.0 != 0 && ft.0 % time::TICKS_PER_SECOND == 0
}

/// Selects the alternate data streams.
pub open spec fn is_alternate_stream() -> spec_fn(AttributeView) -> bool {
    |a: AttributeView| a.type_code == layout::DATA && a.name is Some
}

/// The named `$DATA` attributes of a file: its alternate data streams.
#[must_use]
pub fn alternate_data_streams(attributes: &[Attribute]) -> (r: Vec<&Attribute>)
    ensures
        walk::models(r@) == walk::models(attributes@).filter(is_alternate_stream()),
{
    let mut found: Vec<&Attribute> = Vec::new();
    let ghost list = walk::models(attributes@);
    let mut i: usize = 0;
    proof {
        assert(walk::models(found@) =~= Seq::empty());
        assert(list.take(0) =~= Seq::empty());
        reveal(Seq::filter);
    }
    while i < attributes.len()
        invariant
            i <= attributes.len(),
            list == walk::models(attributes@),
            walk::models(found@) == list.take(i as int).filter(is_alternate_stream()),
        decreases attributes.len() - i,
    {
        let a = &attributes[i];
        proof {
            walk::lemma_filter_step(list, is_alternate_stream(), i as int);
            assert(list[i as int] == a@);
        }
        if a.type_code == layout::DATA && a.name.is_some() {
            proof {
                walk::lemma_models_push(found@, a);
            }
            found.push(a);
        }
        i += 1;
    }
    assert(list.take(i as int) =~= list);
    found
}

/// What is left of a record past its used size.
pub open spec fn slack_of(record: Seq<u8>, header: MftRecordHeader) -> Seq<u8> {
    if header.used_size <= record.len() {
        record.skip(header.used_size as int)
    } else {
        Seq::empty()
    }
}

/// The slack of an MFT record: the bytes from the record's used size to its end, which
/// may hold residue from a previously-resident attribute.
#[must_use]
pub fn record_slack<'a>(record: &'a [u8], header: &MftRecordHeader) -> (r: &'a [u8])
    ensures
        r@ == slack_of(record@, *header),
{
    let used: usize = header.used_size as usize;
    let start: usize = if used <= record.len() {
        used
    } else {
        record.len()
    };
    let slack = vstd::slice::slice_subrange(record, start, record.len());
    assert(slack@ =~= slack_of(record@, *header));
    slack
}

/// `true` if the record is not currently allocated (a deleted file).
#[must_use]
pub fn is_deleted(header: &MftRecordHeader) -> (r: bool)
    ensures
        r == !header.in_use(),
{
    !header.is_in_use()
}

/// Whether a record signature, intact or marked corrupt, stands at `pos`.
pub open spec fn signature_at(mft: Seq<u8>, pos: int) -> bool {
    bytes::has_at(mft, pos, layout::SIGNATURE_FILE@) || bytes::has_at(
        mft,
        pos,
        layout::SIGNATURE_BAAD@,
    )
}

/// The offsets of the record signatures from `pos` on, one record size apart.
pub open spec fn record_offsets(mft: Seq<u8>, size: int, pos: int) -> Seq<usize>
    decreases mft.len() + size - pos,
{
    if size <= 0 || pos + 4 > mft.len() {
        Seq::empty()
    } else if signature_at(mft, pos) {
        seq![pos as usize] + record_offsets(mft, size, pos + size)
    } else {
        record_offsets(mft, size, pos + size)
    }
}

/// Scans a raw MFT byte region for `FILE`/`BAAD` records at record-size boundaries,
/// returning the offset of each. A zero record size yields none.
#[must_use]
pub fn carve_file_records(mft: &[u8], record_size: usize) -> (r: Vec<usize>)
    ensures
        r@ == record_offsets(mft@, record_size as int, 0),
{
    let mut offsets: Vec<usize> = Vec::new();
    if record_size == 0 {
        return offsets;
    }
    let total: usize = mft.len();
    let mut pos: usize = 0;
    let ghost all = record_offsets(mft@, record_size as int, 0);
    assert(offsets@ + all =~= all);
    while total >= 4 && pos <= total - 4
        invariant_except_break
            all == offsets@ + record_offsets(mft@, record_size as int, pos as int),
        invariant
            record_size > 0,
            total == mft@.len(),
            all == record_offsets(mft@, record_size as int, 0),
        ensures
            offsets@ == all,
        decreases total - pos,
    {
        let ghost rest = record_offsets(mft@, record_size as int, pos + record_size);
        if bytes::quad_is(mft, pos, layout::SIGNATURE_FILE) || bytes::quad_is(
            mft,
            pos,
            layout::SIGNATURE_BAAD,
        ) {
            proof {
                assert(offsets@ + (seq![pos] + rest) =~= offsets@.push(pos) + rest);
            }
            offsets.push(pos);
        }
        if record_size > total - pos {
            proof {
                assert(rest =~= Seq::empty());
                assert(offsets@ + rest =~= offsets@);
            }
            break ;
        }
        pos += record_size;
    }
    offsets
}

proof fn lemma_offsets_are_aligned(mft: Seq<u8>, size: int, pos: int, k: int)
    requires
        0 < size,
        0 <= k,
        pos == k * size,
        mft.len() <= usize::MAX,
    ensures
        forall|i: int|
            0 <= i < record_offsets(mft, size, pos).len() ==> {
                let at = #[trigger] record_offsets(mft, size, pos)[i] as int;
                &&& pos <= at
                &&& at + 4 <= mft.len()
                &&& at % size == 0
                &&& signature_at(mft, at)
            },
    decreases mft.len() + size - pos,
{
    assert(0 <= pos) by (nonlinear_arith)
        requires
            pos == k * size,
            0 <= k,
            0 < size,
    ;
    if pos + 4 <= mft.len() {
        assert(pos + size == (k + 1) * size) by (nonlinear_arith)
            requires
                pos == k * size,
        ;
        assert(pos % size == 0) by (nonlinear_arith)
            requires
                pos == k * size,
                0 < size,
        ;
        lemma_offsets_are_aligned(mft, size, pos + size, k + 1);
        let list = record_offsets(mft, size, pos);
        let rest = record_offsets(mft, size, pos + size);
        assert forall|i: int| 0 <= i < list.len() implies {
            let at = #[trigger] list[i] as int;
            &&& pos <= at
            &&& at + 4 <= mft.len()
            &&& at % size == 0
            &&& signature_at(mft, at)
        } by {
            if !signature_at(mft, pos) {
                assert(list[i] == rest[i]);
            } else if i > 0 {
                assert(list[i] == rest[i - 1]);
            }
        }
    }
}

/// Every offset is a record boundary inside the region where a signature stands.
pub proof fn law_carved_offsets_are_record_boundaries(mft: Seq<u8>, size: int)
    requires
        0 < size,
        mft.len() <= usize::MAX,
    ensures
        forall|i: int|
            0 <= i < record_offsets(mft, size, 0).len() ==> {
                let at = #[trigger] record_offsets(mft, size, 0)[i] as int;
                &&& at + 4 <= mft.len()
                &&& at % size == 0
                &&& signature_at(mft, at)
            },
{
    lemma_offsets_are_aligned(mft, size, 0, 0);
}

/// Every record boundary where a signature stands is found: none is missed.
pub proof fn law_every_signed_boundary_is_carved(mft: Seq<u8>, size: int, pos: int, k: int)
    requires
        0 < size,
        0 <= k,
        0 <= pos,
        pos + k * size + 4 <= mft.len(),
        mft.len() <= usize::MAX,
        signature_at(mft, pos + k * size),
    ensures
        record_offsets(mft, size, pos).contains((pos + k * size) as usize),
    decreases k,
{
    let list = record_offsets(mft, size, pos);
    let target = (pos + k * size) as usize;
    if k == 0 {
        assert(k * size == 0) by (nonlinear_arith)
            requires
                k == 0,
        ;
        assert(list[0] == target);
    } else {
        assert(pos + size + (k - 1) * size == pos + k * size) by (nonlinear_arith);
        assert(0 <= k * size) by (nonlinear_arith)
            requires
                0 <= k,
                0 < size,
        ;
        law_every_signed_boundary_is_carved(mft, size, pos + size, k - 1);
        let rest = record_offsets(mft, size, pos + size);
        let i = choose|i: int| 0 <= i < rest.len() && rest[i] == target;
        if signature_at(mft, pos) {
            assert(list[i + 1] == target);
        } else {
            assert(list[i] == target);
        }
    }
}

/// The five-level severity scale.
#[derive(Debug, Clone, Copy, PartialEq, Eq, PartialOrd, Ord, Hash, Structural)]
pub enum Severity {
    /// Contextual, no concern by itself.
    Info,
    /// Minor.
    Low,
    /// Notable.
    Medium,
    /// Serious.
    High,
    /// Urgent.
    Critical,
}

/// Classification of an NTFS forensic anomaly. Each variant carries the MFT record it
/// was observed in plus the evidence to reproduce it.
#[derive(Debug, Clone, PartialEq, Eq)]
pub enum AnomalyKind {
    /// `$STANDARD_INFORMATION` timestamps show forgery tells relative to the
    /// harder-to-forge `$FILE_NAME` times (or land on whole seconds).
    Timestomp {
        /// MFT record number.
        record: u64,
        /// The specific tell that fired.
        signal: &'static str,
    },
    /// A named `$DATA` attribute: an alternate data stream, a common place to carry
    /// hidden payloads (also used benignly, e.g. `Zone.Identifier`).
    AlternateDataStream {
        /// MFT record number.
        record: u64,
        /// The stream name.
        stream: String,
    },
    /// The MFT record is not in use: a recoverable deleted file.
    DeletedRecord {
        /// MFT record number.
        record: u64,
    },
    /// Non-zero residue in the record's slack (past `used_size`).
    RecordSlackResidue {
        /// MFT record number.
        record: u64,
        /// Count of non-zero bytes in the slack.
        residue_len: usize,
    },
}

/// The mathematical content of an [`AnomalyKind`].
pub enum KindView {
    Timestomp { record: u64, signal: &'static str },
    AlternateDataStream { record: u64, stream: Seq<char> },
    DeletedRecord { record: u64 },
    RecordSlackResidue { record: u64, residue_len: usize },
}

impl View for AnomalyKind {
    type V = KindView;

    open spec fn view(&self) -> KindView {
        match *self {
            AnomalyKind::Timestomp { record, signal } => KindView::Timestomp { record, signal },
            AnomalyKind::AlternateDataStream { record, stream } => KindView::AlternateDataStream {
                record,
                stream: stream@,
            },
            AnomalyKind::DeletedRecord { record } => KindView::DeletedRecord { record },
            AnomalyKind::RecordSlackResidue { record, residue_len } =>
                KindView::RecordSlackResidue { record, residue_len },
        }
    }
}

impl KindView {
    /// The MFT record of an anomaly.
    pub open spec fn mft_record(self) -> u64 {
        match self {
            KindView::Timestomp { record, .. } => record,
            KindView::AlternateDataStream { record, .. } => record,
            KindView::DeletedRecord { record } => record,
            KindView::RecordSlackResidue { record, .. } => record,
        }
    }

    /// How severe an anomaly is.
    pub open spec fn grade(self) -> Severity {
        match self {
            KindView::Timestomp { .. } => Severity::High,
            KindView::AlternateDataStream { .. } => Severity::Low,
            KindView::DeletedRecord { .. } => Severity::Info,
            KindView::RecordSlackResidue { .. } => Severity::Low,
        }
    }

    /// The stable code of an anomaly.
    pub open spec fn label(self) -> &'static str {
        match self {
            KindView::Timestomp { .. } => "NTFS-TIMESTOMP",
            KindView::AlternateDataStream { .. } => "NTFS-ADS",
            KindView::DeletedRecord { .. } => "NTFS-DELETED-RECORD",
            KindView::RecordSlackResidue { .. } => "NTFS-SLACK-RESIDUE",
        }
    }

    /// The note on an anomaly.
    pub open spec fn remark(self) -> Seq<char> {
        let head = "record "@ + text::decimal(self.mft_record() as nat);
        match self {
            KindView::Timestomp { signal, .. } => head
                + ": $STANDARD_INFORMATION timestamps consistent with tampering ("@ + signal@
                + ")"@,
            KindView::AlternateDataStream { stream, .. } => head + ": named $DATA stream `"@
                + stream
                + "` — consistent with data carried in an alternate data stream"@,
            KindView::DeletedRecord { .. } => head
                + ": MFT entry not in use — a recoverable deleted file"@,
            KindView::RecordSlackResidue { residue_len, .. } => head + ": "@ + text::decimal(
                residue_len as nat,
            )
                + " non-zero byte(s) in MFT-record slack — consistent with residue from an overwritten resident attribute"@,
        }
    }
}

impl AnomalyKind {
    /// The MFT record this anomaly was observed in.
    #[must_use]
    pub fn record(&self) -> (r: u64)
        ensures
            r == self@.mft_record(),
    {
        match self {
            AnomalyKind::Timestomp { record, .. } => *record,
            AnomalyKind::AlternateDataStream { record, .. } => *record,
            AnomalyKind::DeletedRecord { record } => *record,
            AnomalyKind::RecordSlackResidue { record, .. } => *record,
        }
    }

    /// Severity: the single source of truth for this kind.
    #[must_use]
    pub fn severity(&self) -> (r: Severity)
        ensures
            r == self@.grade(),
    {
        match self {
            AnomalyKind::Timestomp { .. } => Severity::High,
            AnomalyKind::AlternateDataStream { .. } => Severity::Low,
            AnomalyKind::DeletedRecord { .. } => Severity::Info,
            AnomalyKind::RecordSlackResidue { .. } => Severity::Low,
        }
    }

    /// Stable machine-readable code.
    #[must_use]
    pub fn code(&self) -> (r: &'static str)
        ensures
            r == self@.label(),
    {
        match self {
            AnomalyKind::Timestomp { .. } => "NTFS-TIMESTOMP",
            AnomalyKind::AlternateDataStream { .. } => "NTFS-ADS",
            AnomalyKind::DeletedRecord { .. } => "NTFS-DELETED-RECORD",
            AnomalyKind::RecordSlackResidue { .. } => "NTFS-SLACK-RESIDUE",
        }
    }

    /// Human-readable, "consistent with" note.
    #[must_use]
    pub fn note(&self) -> (r: String)
        ensures
            r@ == self@.remark(),
    {
        let mut note = "record ".to_string();
        let number = text::decimal_text(self.record());
        note.append(number.as_str());
        match self {
            AnomalyKind::Timestomp { signal, .. } => {
                note.append(": $STANDARD_INFORMATION timestamps consistent with tampering (");
                note.append(signal);
                note.append(")");
            },
            AnomalyKind::AlternateDataStream { stream, .. } => {
                note.append(": named $DATA stream `");
                note.append(stream.as_str());
                note.append("` — consistent with data carried in an alternate data stream");
            },
            AnomalyKind::DeletedRecord { .. } => {
                note.append(": MFT entry not in use — a recoverable deleted file");
            },
            AnomalyKind::RecordSlackResidue { residue_len, .. } => {
                note.append(": ");
                let count = text::decimal_text(*residue_len as u64);
                note.append(count.as_str());
                note.append(
                    " non-zero byte(s) in MFT-record slack — consistent with residue from an overwritten resident attribute",
                );
            },
        }
        note
    }
}

/// Where a piece of evidence was observed.
#[derive(Debug, Clone, PartialEq, Eq)]
pub enum Location {
    /// A record number.
    RecordId(u64),
    /// A named field or metadata file.
    Field(String),
}

/// One reproducible fact behind an anomaly.
#[derive(Debug, Clone, PartialEq, Eq)]
pub struct Evidence {
    /// What was observed.
    pub field: String,
    /// The observed value.
    pub value: String,
    /// Where it was observed.
    pub location: Option<Location>,
}

/// The mathematical content of a [`Location`].
pub enum LocationView {
    RecordId(u64),
    Field(Seq<char>),
}

/// The mathematical content of an [`Evidence`].
pub struct EvidenceView {
    pub field: Seq<char>,
    pub value: Seq<char>,
    pub location: Option<LocationView>,
}

impl View for Location {
    type V = LocationView;

    open spec fn view(&self) -> LocationView {
        match *self {
            Location::RecordId(n) => LocationView::RecordId(n),
            Location::Field(s) => LocationView::Field(s@),
        }
    }
}

impl View for Evidence {
    type V = EvidenceView;

    open spec fn view(&self) -> EvidenceView {
        EvidenceView {
            field: self.field@,
            value: self.value@,
            location: match self.location {
                Some(l) => Some(l@),
                None => None,
            },
        }
    }
}

/// An NTFS forensic anomaly: an observation graded by severity, with a stable code and
/// note derived from its [`AnomalyKind`] so they cannot drift.
#[derive(Debug, Clone, PartialEq, Eq)]
pub struct Anomaly {
    /// Severity, derived from `kind`.
    pub severity: Severity,
    /// Stable machine-readable code, derived from `kind`.
    pub code: &'static str,
    /// The classified anomaly with its evidence.
    pub kind: AnomalyKind,
    /// Human-readable note, derived from `kind`.
    pub note: String,
}

/// The mathematical content of an [`Anomaly`].
#[verifier::ext_equal]
pub struct AnomalyView {
    pub severity: Severity,
    pub code: &'static str,
    pub kind: KindView,
    pub note: Seq<char>,
}

impl View for Anomaly {
    type V = AnomalyView;

    open spec fn view(&self) -> AnomalyView {
        AnomalyView {
            severity: self.severity,
            code: self.code,
            kind: self.kind@,
            note: self.note@,
        }
    }
}

/// The anomaly of a kind.
pub open spec fn anomaly_of(kind: KindView) -> AnomalyView {
    AnomalyView { severity: kind.grade(), code: kind.label(), kind, note: kind.remark() }
}

impl Anomaly {
    /// Builds an [`Anomaly`], deriving severity, code and note from `kind`.
    #[must_use]
    pub fn new(kind: AnomalyKind) -> (r: Self)
        ensures
            r@ == anomaly_of(kind@),
            r.kind == kind,
    {
        let severity = kind.severity();
        let code = kind.code();
        let note = kind.note();
        Anomaly { severity, code, kind, note }
    }

    /// The fact behind the anomaly: the MFT record that it was observed in.
    #[must_use]
    pub fn evidence(&self) -> (r: Vec<Evidence>)
        ensures
            walk::models(r@) == seq![
                EvidenceView {
                    field: "mft record"@,
                    value: text::decimal(self.kind@.mft_record() as nat),
                    location: Some(LocationView::RecordId(self.kind@.mft_record())),
                },
            ],
    {
        let record: u64 = self.kind.record();
        let mut list: Vec<Evidence> = Vec::new();
        list.push(
            Evidence {
                field: "mft record".to_string(),
                value: text::decimal_text(record),
                location: Some(Location::RecordId(record)),
            },
        );
        assert(walk::models(list@) =~= seq![list@[0]@]);
        list
    }
}

/// Selects bytes that are not zero.
pub open spec fn non_zero() -> spec_fn(u8) -> bool {
    |b: u8| b != 0
}

/// Counts the bytes that are not zero.
fn count_residue(slack: &[u8]) -> (r: usize)
    ensures
        r == slack@.filter(non_zero()).len(),
{
    let mut count: usize = 0;
    let mut i: usize = 0;
    proof {
        assert(slack@.take(0) =~= Seq::empty());
        reveal(Seq::filter);
    }
    while i < slack.len()
        invariant
            i <= slack.len(),
            count <= i,
            count == slack@.take(i as int).filter(non_zero()).len(),
        decreases slack.len() - i,
    {
        proof {
            walk::lemma_filter_step(slack@, non_zero(), i as int);
        }
        if slack[i] != 0 {
            count += 1;
        }
        i += 1;
    }
    assert(slack@.take(i as int) =~= slack@);
    count
}

/// The deleted-record anomaly, if the record is not in use.
pub open spec fn deletion_part(number: u64, header: MftRecordHeader) -> Seq<KindView> {
    if header.in_use() {
        Seq::empty()
    } else {
        seq![KindView::DeletedRecord { record: number }]
    }
}

/// The slack-residue anomaly, if any byte of the slack is not zero.
pub open spec fn residue_part(number: u64, slack: Seq<u8>) -> Seq<KindView> {
    let residue = slack.filter(non_zero()).len();
    if residue > 0 {
        seq![KindView::RecordSlackResidue { record: number, residue_len: residue as usize }]
    } else {
        Seq::empty()
    }
}

/// The alternate-stream anomaly of an attribute.
pub open spec fn stream_kind(number: u64) -> spec_fn(AttributeView) -> KindView {
    |a: AttributeView|
        KindView::AlternateDataStream { record: number, stream: a.name.unwrap_or(Seq::empty()) }
}

/// One anomaly per alternate data stream.
pub open spec fn stream_part(number: u64, attributes: Seq<AttributeView>) -> Seq<KindView> {
    attributes.filter(is_alternate_stream()).map_values(stream_kind(number))
}

/// One anomaly per timestomping tell, when both timestamp sets are known.
pub open spec fn timestomp_part(
    number: u64,
    information: Option<StandardInformation>,
    name: Option<FileNameView>,
) -> Seq<KindView> {
    match (information, name) {
        (Some(si), Some(name)) => {
            let found = indicators(si, name);
            let early = if found.si_created_before_fn {
                seq![KindView::Timestomp { record: number, signal: "$SI created before $FN" }]
            } else {
                Seq::empty()
            };
            let whole = if found.si_whole_second {
                seq![
                    KindView::Timestomp {
                        record: number,
                        signal: "$SI timestamp on a whole second",
                    },
                ]
            } else {
                Seq::empty()
            };
            early + whole
        },
        _ => Seq::empty(),
    }
}

/// What a record's components show, in order: deletion, slack residue, alternate
/// streams, timestomping.
pub open spec fn shown(
    number: u64,
    header: MftRecordHeader,
    record: Seq<u8>,
    attributes: Seq<AttributeView>,
    information: Option<StandardInformation>,
    name: Option<FileNameView>,
) -> Seq<KindView> {
    deletion_part(number, header) + residue_part(number, slack_of(record, header)) + stream_part(
        number,
        attributes,
    ) + timestomp_part(number, information, name)
}

/// The anomalies of a list of kinds.
pub open spec fn anomalies_of(kinds: Seq<KindView>) -> Seq<AnomalyView> {
    kinds.map_values(|k: KindView| anomaly_of(k))
}

/// The content of an optional `$FILE_NAME`.
pub open spec fn optional_name(name: Option<&FileName>) -> Option<FileNameView> {
    match name {
        Some(n) => Some(n@),
        None => None,
    }
}

/// The content of an optional `$STANDARD_INFORMATION`.
pub open spec fn optional_information(information: Option<&StandardInformation>) -> Option<
    StandardInformation,
> {
    match information {
        Some(si) => Some(*si),
        None => None,
    }
}

/// Appends the anomaly of a kind.
fn report(out: &mut Vec<Anomaly>, kind: AnomalyKind, Ghost(kinds): Ghost<Seq<KindView>>)
    requires
        walk::models(old(out)@) == anomalies_of(kinds),
    ensures
        walk::models(final(out)@) == anomalies_of(kinds.push(kind@)),
{
    let anomaly = Anomaly::new(kind);
    proof {
        walk::lemma_models_push(out@, anomaly);
        assert(anomalies_of(kinds.push(kind@)) =~= anomalies_of(kinds).push(anomaly_of(kind@)));
    }
    out.push(anomaly);
}

/// The name of a stream, empty when it has none.
fn stream_name(a: &Attribute) -> (r: String)
    ensures
        r@ == a@.name.unwrap_or(Seq::empty()),
{
    match &a.name {
        Some(name) => name.clone(),
        None => String::new(),
    }
}

/// Audits a parsed MFT record's components for anomalies. The caller supplies the
/// already-parsed pieces; see [`audit_record`] for the convenience that parses raw bytes.
#[must_use]
pub fn audit_components(
    record_number: u64,
    header: &MftRecordHeader,
    record: &[u8],
    attributes: &[Attribute],
    standard_information: Option<&StandardInformation>,
    primary_file_name: Option<&FileName>,
) -> (r: Vec<Anomaly>)
    ensures
        walk::models(r@) == anomalies_of(
            shown(
                record_number,
                *header,
                record@,
                walk::models(attributes@),
                optional_information(standard_information),
                optional_name(primary_file_name),
            ),
        ),
{
    let mut out: Vec<Anomaly> = Vec::new();
    let ghost mut kinds: Seq<KindView> = Seq::empty();
    assert(walk::models(out@) =~= anomalies_of(kinds));

    if is_deleted(header) {
        report(&mut out, AnomalyKind::DeletedRecord { record: record_number }, Ghost(kinds));
        proof {
            kinds = kinds.push(KindView::DeletedRecord { record: record_number });
        }
    }
    let ghost deletion = deletion_part(record_number, *header);
    assert(kinds =~= deletion);

    let residue: usize = count_residue(record_slack(record, header));
    let ghost residue_kinds = residue_part(record_number, slack_of(record@, *header));
    if residue > 0 {
        report(
            &mut out,
            AnomalyKind::RecordSlackResidue { record: record_number, residue_len: residue },
            Ghost(kinds),
        );
        proof {
            kinds = kinds.push(
                KindView::RecordSlackResidue { record: record_number, residue_len: residue },
            );
        }
    }
    assert(kinds =~= deletion + residue_kinds);

    let streams = alternate_data_streams(attributes);
    let ghost base = kinds;
    let ghost named = walk::models(streams@);
    let ghost stream_kinds = named.map_values(stream_kind(record_number));
    let mut i: usize = 0;
    assert(base + stream_kinds.take(0) =~= base);
    while i < streams.len()
        invariant
            i <= streams.len(),
            named == walk::models(streams@),
            stream_kinds == named.map_values(stream_kind(record_number)),
            kinds == base + stream_kinds.take(i as int),
            walk::models(out@) == anomalies_of(kinds),
        decreases streams.len() - i,
    {
        let stream = stream_name(streams[i]);
        let ghost kind = KindView::AlternateDataStream { record: record_number, stream: stream@ };
        report(
            &mut out,
            AnomalyKind::AlternateDataStream { record: record_number, stream },
            Ghost(kinds),
        );
        proof {
            assert(named[i as int] == streams@[i as int]@);
            assert(stream_kinds[i as int] == kind);
            assert(kinds.push(kind) =~= base + stream_kinds.take(i + 1));
            kinds = kinds.push(kind);
        }
        i += 1;
    }
    assert(stream_kinds.take(i as int) =~= stream_part(record_number, walk::models(attributes@)));
    let ghost before = kinds;

    if let Some(si) = standard_information {
        if let Some(name) = primary_file_name {
            let found = detect_timestomp(si, name);
            if found.si_created_before_fn {
                report(
                    &mut out,
                    AnomalyKind::Timestomp {
                        record: record_number,
                        signal: "$SI created before $FN",
                    },
                    Ghost(kinds),
                );
                proof {
                    kinds = kinds.push(
                        KindView::Timestomp {
                            record: record_number,
                            signal: "$SI created before $FN",
                        },
                    );
                }
            }
            if found.si_whole_second {
                report(
                    &mut out,
                    AnomalyKind::Timestomp {
                        record: record_number,
                        signal: "$SI timestamp on a whole second",
                    },
                    Ghost(kinds),
                );
                proof {
                    kinds = kinds.push(
                        KindView::Timestomp {
                            record: record_number,
                            signal: "$SI timestamp on a whole second",
                        },
                    );
                }
            }
        }
    }
    proof {
        let stomps = timestomp_part(
            record_number,
            optional_information(standard_information),
            optional_name(primary_file_name),
        );
        assert(kinds =~= before + stomps);
    }
    out
}

/// The attributes that a record's bytes hold: none when they do not parse.
pub open spec fn record_parts(record: Seq<u8>, header: MftRecordHeader) -> Seq<AttributeView> {
    match attribute::parsed_attributes(record, header.first_attribute_offset as int) {
        Ok(list) => list,
        Err(_) => Seq::empty(),
    }
}

/// The record's own `$STANDARD_INFORMATION`.
pub open spec fn record_information(record: Seq<u8>, attributes: Seq<AttributeView>) -> Option<
    StandardInformation,
> {
    match fs::first_content(record, attributes, layout::STANDARD_INFORMATION) {
        Some(content) => match standard_information::parsed_information(content) {
            Ok(si) => Some(si),
            Err(_) => None,
        },
        None => None,
    }
}

/// The record's first `$FILE_NAME`.
pub open spec fn record_name(record: Seq<u8>, attributes: Seq<AttributeView>) -> Option<
    FileNameView,
> {
    match fs::first_content(record, attributes, layout::FILE_NAME) {
        Some(content) => match file_name::parsed_name(content) {
            Ok(name) => Some(name),
            Err(_) => None,
        },
        None => None,
    }
}

/// What a raw record shows: nothing when its header does not parse.
pub open spec fn record_shows(record: Seq<u8>) -> Seq<KindView> {
    match record::parsed_header(record) {
        Err(_) => Seq::empty(),
        Ok(header) => {
            let attributes = record_parts(record, header);
            shown(
                header.record_number as u64,
                header,
                record,
                attributes,
                record_information(record, attributes),
                record_name(record, attributes),
            )
        },
    }
}

/// Audits a single raw MFT record's bytes: parses the header and attributes, extracts
/// `$STANDARD_INFORMATION` and `$FILE_NAME`, and delegates to [`audit_components`]. A
/// record whose header does not parse yields no anomalies.
#[must_use]
pub fn audit_record(record: &[u8]) -> (r: Vec<Anomaly>)
    ensures
        walk::models(r@) == anomalies_of(record_shows(record@)),
{
    let header = match MftRecordHeader::parse(record) {
        Ok(header) => header,
        Err(_) => {
            let none: Vec<Anomaly> = Vec::new();
            assert(walk::models(none@) =~= anomalies_of(Seq::empty()));
            return none;
        },
    };
    let attributes = match attribute::parse_attributes(
        record,
        header.first_attribute_offset as usize,
    ) {
        Ok(list) => list,
        Err(_) => {
            let none: Vec<Attribute> = Vec::new();
            assert(walk::models(none@) =~= Seq::empty());
            none
        },
    };
    let information = match fs::find_content(record, &attributes, layout::STANDARD_INFORMATION) {
        Some(content) => match StandardInformation::parse(content) {
            Ok(si) => Some(si),
            Err(_) => None,
        },
        None => None,
    };
    let name = match fs::find_content(record, &attributes, layout::FILE_NAME) {
        Some(content) => match FileName::parse(content) {
            Ok(name) => Some(name),
            Err(_) => None,
        },
        None => None,
    };
    audit_components(
        header.record_number as u64,
        &header,
        record,
        attributes.as_slice(),
        information.as_ref(),
        name.as_ref(),
    )
}

/// Everything that a record shows is attributed to that record.
pub proof fn law_anomalies_name_their_record(
    number: u64,
    header: MftRecordHeader,
    record: Seq<u8>,
    attributes: Seq<AttributeView>,
    information: Option<StandardInformation>,
    name: Option<FileNameView>,
    i: int,
)
    requires
        0 <= i < shown(number, header, record, attributes, information, name).len(),
    ensures
        shown(number, header, record, attributes, information, name)[i].mft_record() == number,
{
}

/// A record that is in use, with clean slack, without alternate streams and without a
/// suspicious timestamp shows nothing.
pub proof fn law_clean_records_show_nothing(
    number: u64,
    header: MftRecordHeader,
    record: Seq<u8>,
    attributes: Seq<AttributeView>,
    information: Option<StandardInformation>,
    name: Option<FileNameView>,
)
    requires
        header.in_use(),
        slack_of(record, header).filter(non_zero()).len() == 0,
        attributes.filter(is_alternate_stream()).len() == 0,
        information matches Some(si) ==> name matches Some(n) ==> {
            &&& !indicators(si, n).si_created_before_fn
            &&& !indicators(si, n).si_whole_second
        },
    ensures
        shown(number, header, record, attributes, information, name).len() == 0,
{
}

/// Whether the timestomp anomaly with this signal is among what is shown.
pub open spec fn shows_stomp(kinds: Seq<KindView>, number: u64, signal: &'static str) -> bool {
    kinds.contains(KindView::Timestomp { record: number, signal })
}

/// Each single `$SI` time that is set and has no part below the second (10,000,000 ticks)
/// sets the whole-second indicator, whatever the other three are, and is reported; where
/// no time is such, the indicator is not set and nothing of the kind is reported.
pub proof fn law_each_time_alone_tells(
    number: u64,
    header: MftRecordHeader,
    record: Seq<u8>,
    attributes: Seq<AttributeView>,
    si: StandardInformation,
    name: FileNameView,
    time: Filetime,
)
    requires
        time == si.created || time == si.modified || time == si.mft_modified || time
            == si.accessed,
    ensures
        time.0 != 0 && time.0 % 10_000_000 == 0 ==> {
            &&& indicators(si, name).si_whole_second
            &&& shows_stomp(
                shown(number, header, record, attributes, Some(si), Some(name)),
                number,
                "$SI timestamp on a whole second",
            )
        },
        ({
            &&& si.created.0 == 0 || si.created.0 % 10_000_000 != 0
            &&& si.modified.0 == 0 || si.modified.0 % 10_000_000 != 0
            &&& si.mft_modified.0 == 0 || si.mft_modified.0 % 10_000_000 != 0
            &&& si.accessed.0 == 0 || si.accessed.0 % 10_000_000 != 0
        }) ==> !indicators(si, name).si_whole_second,
{
    let kinds = shown(number, header, record, attributes, Some(si), Some(name));
    let kind = KindView::Timestomp { record: number, signal: "$SI timestamp on a whole second" };
    if indicators(si, name).si_whole_second {
        let stomps = timestomp_part(number, Some(si), Some(name));
        assert(stomps[stomps.len() - 1] == kind);
        assert(kinds[kinds.len() - 1] == kind);
    }
}

/// A creation time in `$SI` that lies before that in `$FN`, by however little, is an
/// indicator and is reported; one that does not is not. Any difference is a mismatch.
pub proof fn law_earlier_creation_tells(
    number: u64,
    header: MftRecordHeader,
    record: Seq<u8>,
    attributes: Seq<AttributeView>,
    si: StandardInformation,
    name: FileNameView,
)
    ensures
        indicators(si, name).si_created_before_fn <==> si.created.0 < name.created.0,
        indicators(si, name).created_mismatch <==> si.created.0 != name.created.0,
        si.created.0 < name.created.0 ==> shows_stomp(
            shown(number, header, record, attributes, Some(si), Some(name)),
            number,
            "$SI created before $FN",
        ),
{
    if si.created.0 < name.created.0 {
        let kinds = shown(number, header, record, attributes, Some(si), Some(name));
        let kind = KindView::Timestomp { record: number, signal: "$SI created before $FN" };
        let stomps = timestomp_part(number, Some(si), Some(name));
        assert(stomps[0] == kind);
        assert(kinds[kinds.len() - stomps.len()] == kind);
    }
}

/// Whether `time` is one of the four times of a `$STANDARD_INFORMATION`.
pub open spec fn is_time_of(time: Filetime, si: StandardInformation) -> bool {
    time == si.created || time == si.modified || time == si.mft_modified || time == si.accessed
}

/// A timestomp anomaly is shown only where both timestamp sets are known, and the creation
/// times or one of the four times give reason.
pub proof fn law_stomps_need_both_sets(
    number: u64,
    header: MftRecordHeader,
    record: Seq<u8>,
    attributes: Seq<AttributeView>,
    information: Option<StandardInformation>,
    name: Option<FileNameView>,
    signal: &'static str,
)
    requires
        shows_stomp(
            shown(number, header, record, attributes, information, name),
            number,
            signal,
        ),
    ensures
        information is Some,
        name is Some,
        information->0.created.0 < name->0.created.0 || exists|time: Filetime|
            is_time_of(time, information->0) && time.0 != 0 && time.0 % 10_000_000 == 0,
{
    let kinds = shown(number, header, record, attributes, information, name);
    let kind = KindView::Timestomp { record: number, signal };
    let i = choose|i: int| 0 <= i < kinds.len() && kinds[i] == kind;
    let a = deletion_part(number, header);
    let b = residue_part(number, slack_of(record, header));
    let c = stream_part(number, attributes);
    let d = timestomp_part(number, information, name);
    assert(kinds == a + b + c + d);
    if i < a.len() {
        assert(kinds[i] == a[i]);
    } else if i < a.len() + b.len() {
        assert(kinds[i] == b[i - a.len()]);
    } else if i < a.len() + b.len() + c.len() {
        assert(kinds[i] == c[i - a.len() - b.len()]);
    } else {
        assert(kinds[i] == d[i - a.len() - b.len() - c.len()]);
        let si = information->0;
        assert(is_time_of(si.created, si) && is_time_of(si.modified, si));
        assert(is_time_of(si.mft_modified, si) && is_time_of(si.accessed, si));
    }
}

/// A record that is not in use is shown as deleted, and one in use is not.
pub proof fn law_deletion_is_shown(
    number: u64,
    header: MftRecordHeader,
    record: Seq<u8>,
    attributes: Seq<AttributeView>,
    information: Option<StandardInformation>,
    name: Option<FileNameView>,
)
    ensures
        shown(number, header, record, attributes, information, name).contains(
            KindView::DeletedRecord { record: number },
        ) <==> header.flags & 0x0001 == 0,
{
    let kinds = shown(number, header, record, attributes, information, name);
    let kind = KindView::DeletedRecord { record: number };
    let a = deletion_part(number, header);
    let b = residue_part(number, slack_of(record, header));
    let c = stream_part(number, attributes);
    let d = timestomp_part(number, information, name);
    assert(kinds == a + b + c + d);
    if header.flags & 0x0001 == 0 {
        assert(a[0] == kind);
        assert(kinds[0] == kind);
    } else if kinds.contains(kind) {
        let i = choose|i: int| 0 <= i < kinds.len() && kinds[i] == kind;
        if i < b.len() {
            assert(kinds[i] == b[i]);
        } else if i < b.len() + c.len() {
            assert(kinds[i] == c[i - b.len()]);
        } else {
            assert(kinds[i] == d[i - b.len() - c.len()]);
        }
    }
}

/// Every named `$DATA` attribute is shown under its name, and no other attribute is.
pub proof fn law_every_named_stream_is_shown(
    number: u64,
    header: MftRecordHeader,
    record: Seq<u8>,
    attributes: Seq<AttributeView>,
    information: Option<StandardInformation>,
    name: Option<FileNameView>,
    stream: Seq<char>,
)
    ensures
        shown(number, header, record, attributes, information, name).contains(
            KindView::AlternateDataStream { record: number, stream },
        ) <==> exists|k: int|
            0 <= k < attributes.len() && (#[trigger] attributes[k]).type_code == 0x80
                && attributes[k].name == Some(stream),
{
    let kinds = shown(number, header, record, attributes, information, name);
    let kind = KindView::AlternateDataStream { record: number, stream };
    let a = deletion_part(number, header);
    let b = residue_part(number, slack_of(record, header));
    let picked = attributes.filter(is_alternate_stream());
    let c = stream_part(number, attributes);
    let d = timestomp_part(number, information, name);
    assert(kinds == a + b + c + d);
    if kinds.contains(kind) {
        let i = choose|i: int| 0 <= i < kinds.len() && kinds[i] == kind;
        if i < a.len() {
            assert(kinds[i] == a[i]);
        } else if i < a.len() + b.len() {
            assert(kinds[i] == b[i - a.len()]);
        } else if i < a.len() + b.len() + c.len() {
            let m = i - a.len() - b.len();
            assert(kinds[i] == c[m]);
            walk::lemma_filter_picks(attributes, is_alternate_stream());
            assert(picked.contains(picked[m]));
        } else {
            assert(kinds[i] == d[i - a.len() - b.len() - c.len()]);
        }
    }
    if exists|k: int|
        0 <= k < attributes.len() && (#[trigger] attributes[k]).type_code == 0x80
            && attributes[k].name == Some(stream) {
        let k = choose|k: int|
            0 <= k < attributes.len() && (#[trigger] attributes[k]).type_code == 0x80
                && attributes[k].name == Some(stream);
        walk::lemma_filter_picks(attributes, is_alternate_stream());
        assert(attributes.contains(attributes[k]));
        assert(picked.contains(attributes[k]));
        let m = choose|m: int| 0 <= m < picked.len() && picked[m] == attributes[k];
        assert(c[m] == kind);
        assert(kinds[a.len() + b.len() + m] == kind);
    }
}

/// The slack counts from the used size to the end of the record: a record whose bytes
/// there are all zero shows no residue, and one with a byte there that is not does.
pub proof fn law_residue_is_what_lies_past_the_used_size(
    number: u64,
    header: MftRecordHeader,
    record: Seq<u8>,
)
    ensures
        residue_part(number, slack_of(record, header)).len() > 0 <==> exists|k: int|
            header.used_size <= k < record.len() && #[trigger] record[k] != 0,
        slack_of(record, header).len() == (if header.used_size <= record.len() {
            record.len() - header.used_size
        } else {
            0
        }),
{
    let slack = slack_of(record, header);
    let picked = slack.filter(non_zero());
    walk::lemma_filter_picks(slack, non_zero());
    if picked.len() > 0 {
        assert(picked.contains(picked[0]));
        let m = choose|m: int| 0 <= m < slack.len() && slack[m] == picked[0];
        assert(record[header.used_size + m] != 0);
    }
    if exists|k: int| header.used_size <= k < record.len() && #[trigger] record[k] != 0 {
        let k = choose|k: int|
            header.used_size <= k < record.len() && #[trigger] record[k] != 0;
        assert(slack[k - header.used_size] == record[k]);
        assert(slack.contains(record[k]));
        assert(picked.contains(record[k]));
    }
}

/// The name of mirrored record `i`.
pub open spec fn mirror_name(i: usize) -> Seq<char> {
    if i == 0 {
        "$MFT"@
    } else if i == 1 {
        "$MFTMirr"@
    } else if i == 2 {
        "$LogFile"@
    } else if i == 3 {
        "$Volume"@
    } else {
        "?"@
    }
}

/// The names of mirrored records, separated by commas.
pub open spec fn mirror_names(entries: Seq<usize>) -> Seq<char>
    decreases entries.len(),
{
    if entries.len() == 0 {
        Seq::empty()
    } else if entries.len() == 1 {
        mirror_name(entries[0])
    } else {
        mirror_names(entries.drop_last()) + ", "@ + mirror_name(entries.last())
    }
}

/// Renders mismatched mirror-entry indices as a human-readable system-file list.
pub fn mismatched_names(entries: &[usize]) -> (r: String)
    ensures
        r@ == mirror_names(entries@),
{
    let mut names = String::new();
    let mut i: usize = 0;
    assert(names@ =~= mirror_names(entries@.take(0)));
    while i < entries.len()
        invariant
            i <= entries.len(),
            names@ == mirror_names(entries@.take(i as int)),
        decreases entries.len() - i,
    {
        let ghost done = names@;
        let name = match entries[i] {
            0 => "$MFT",
            1 => "$MFTMirr",
            2 => "$LogFile",
            3 => "$Volume",
            _ => "?",
        };
        if i > 0 {
            names.append(", ");
        }
        names.append(name);
        proof {
            let next = entries@.take(i + 1);
            assert(next.drop_last() =~= entries@.take(i as int));
            assert(next.last() == entries@[i as int]);
            assert(names@ =~= mirror_names(next));
        }
        i += 1;
    }
    assert(entries@.take(i as int) =~= entries@);
    names
}

/// A volume-level NTFS metadata-artifact anomaly, scoped to a metadata file rather than
/// a single MFT record.
#[derive(Debug, Clone, PartialEq, Eq)]
pub enum ArtifactAnomaly {
    /// One or more of the first four system records in `$MFTMirr` differ from the live
    /// `$MFT`: consistent with MFT tampering or corruption.
    MftMirrorMismatch {
        /// Indices (`0..4`) of the mirrored system records that differ.
        mismatched_entries: Vec<usize>,
    },
    /// `$LogFile` shows page gaps or restart-area anomalies: consistent with the NTFS
    /// transaction journal having been cleared.
    LogFileCleared,
}

/// The mathematical content of an [`ArtifactAnomaly`].
pub enum ArtifactView {
    MftMirrorMismatch { mismatched_entries: Seq<usize> },
    LogFileCleared,
}

impl View for ArtifactAnomaly {
    type V = ArtifactView;

    open spec fn view(&self) -> ArtifactView {
        match *self {
            ArtifactAnomaly::MftMirrorMismatch { mismatched_entries } =>
                ArtifactView::MftMirrorMismatch { mismatched_entries: mismatched_entries@ },
            ArtifactAnomaly::LogFileCleared => ArtifactView::LogFileCleared,
        }
    }
}

impl ArtifactView {
    /// How severe an anomaly is.
    pub open spec fn grade(self) -> Severity {
        match self {
            ArtifactView::MftMirrorMismatch { .. } => Severity::High,
            ArtifactView::LogFileCleared => Severity::Medium,
        }
    }

    /// The stable code of an anomaly.
    pub open spec fn label(self) -> &'static str {
        match self {
            ArtifactView::MftMirrorMismatch { .. } => "NTFS-MFTMIRR-MISMATCH",
            ArtifactView::LogFileCleared => "NTFS-LOGFILE-CLEARED",
        }
    }

    /// The note on an anomaly.
    pub open spec fn remark(self) -> Seq<char> {
        match self {
            ArtifactView::MftMirrorMismatch { mismatched_entries } =>
                "$MFTMirr differs from $MFT for "@ + mirror_names(mismatched_entries)
                + " — consistent with MFT tampering or corruption"@,
            ArtifactView::LogFileCleared =>
                "$LogFile shows gaps/restart-area anomalies — consistent with the transaction journal having been cleared"@,
        }
    }

    /// The fact behind an anomaly.
    pub open spec fn fact(self) -> EvidenceView {
        match self {
            ArtifactView::MftMirrorMismatch { mismatched_entries } => EvidenceView {
                field: "mismatched system records"@,
                value: mirror_names(mismatched_entries),
                location: Some(LocationView::Field("$MFTMirr"@)),
            },
            ArtifactView::LogFileCleared => EvidenceView {
                field: "$LogFile"@,
                value: "gaps/restart-area anomalies consistent with journal clearing"@,
                location: Some(LocationView::Field("$LogFile"@)),
            },
        }
    }
}

impl ArtifactAnomaly {
    /// Severity: the single source of truth for this kind.
    #[must_use]
    pub fn severity(&self) -> (r: Severity)
        ensures
            r == self@.grade(),
    {
        match self {
            ArtifactAnomaly::MftMirrorMismatch { .. } => Severity::High,
            ArtifactAnomaly::LogFileCleared => Severity::Medium,
        }
    }

    /// Stable machine-readable code.
    #[must_use]
    pub fn code(&self) -> (r: &'static str)
        ensures
            r == self@.label(),
    {
        match self {
            ArtifactAnomaly::MftMirrorMismatch { .. } => "NTFS-MFTMIRR-MISMATCH",
            ArtifactAnomaly::LogFileCleared => "NTFS-LOGFILE-CLEARED",
        }
    }

    /// Human-readable, "consistent with" note.
    #[must_use]
    pub fn note(&self) -> (r: String)
        ensures
            r@ == self@.remark(),
    {
        match self {
            ArtifactAnomaly::MftMirrorMismatch { mismatched_entries } => {
                let mut note = "$MFTMirr differs from $MFT for ".to_string();
                let names = mismatched_names(mismatched_entries.as_slice());
                note.append(names.as_str());
                note.append(" — consistent with MFT tampering or corruption");
                note
            },
            ArtifactAnomaly::LogFileCleared =>
                "$LogFile shows gaps/restart-area anomalies — consistent with the transaction journal having been cleared".to_string(),
        }
    }

    /// The fact behind the anomaly.
    #[must_use]
    pub fn evidence(&self) -> (r: Vec<Evidence>)
        ensures
            walk::models(r@) == seq![self@.fact()],
    {
        let fact = match self {
            ArtifactAnomaly::MftMirrorMismatch { mismatched_entries } => Evidence {
                field: "mismatched system records".to_string(),
                value: mismatched_names(mismatched_entries.as_slice()),
                location: Some(Location::Field("$MFTMirr".to_string())),
            },
            ArtifactAnomaly::LogFileCleared => Evidence {
                field: "$LogFile".to_string(),
                value: "gaps/restart-area anomalies consistent with journal clearing".to_string(),
                location: Some(Location::Field("$LogFile".to_string())),
            },
        };
        let mut list: Vec<Evidence> = Vec::new();
        list.push(fact);
        assert(walk::models(list@) =~= seq![fact@]);
        list
    }
}

/// The indices of the mirrored records.
pub open spec fn mirror_indices() -> Seq<usize> {
    seq![0usize, 1usize, 2usize, 3usize]
}

/// Selects the mirrored records that differ from their copies.
pub open spec fn differing(mft: Seq<u8>, mirror: Seq<u8>) -> spec_fn(usize) -> bool {
    |i: usize| !mftmirr::record_matches(mft, mirror, i as int)
}

/// What the two tables show: one anomaly with the records that differ, if any does and
/// both tables are long enough.
pub open spec fn mirror_shows(mft: Seq<u8>, mirror: Seq<u8>) -> Seq<ArtifactView> {
    if mftmirr::mirror_defect(mft, mirror) is None && exists|i: int|
        0 <= i < mftmirr::MIRRORED_RECORDS && !#[trigger] mftmirr::record_matches(mft, mirror, i) {
        seq![
            ArtifactView::MftMirrorMismatch {
                mismatched_entries: mirror_indices().filter(differing(mft, mirror)),
            },
        ]
    } else {
        Seq::empty()
    }
}

/// Audits the `$MFTMirr` against the live `$MFT`, flagging any of the first four system
/// records that differ. Malformed input yields no findings.
#[must_use]
pub fn audit_mft_mirror(mft_data: &[u8], mftmirr_data: &[u8]) -> (r: Vec<ArtifactAnomaly>)
    ensures
        walk::models(r@) == mirror_shows(mft_data@, mftmirr_data@),
{
    let mut out: Vec<ArtifactAnomaly> = Vec::new();
    assert(walk::models(out@) =~= Seq::empty());
    let comparison = match mftmirr::compare_mft_mirror(mft_data, mftmirr_data) {
        Ok(comparison) => comparison,
        Err(_) => {
            return out;
        },
    };
    if comparison.is_consistent {
        return out;
    }
    let ghost wanted = differing(mft_data@, mftmirr_data@);
    let mut mismatched_entries: Vec<usize> = Vec::new();
    let mut i: usize = 0;
    proof {
        assert(mirror_indices().take(0) =~= Seq::empty());
        reveal(Seq::filter);
    }
    while i < 4
        invariant
            i <= 4,
            wanted == differing(mft_data@, mftmirr_data@),
            forall|k: int|
                0 <= k < 4 ==> #[trigger] comparison.matches[k] == mftmirr::record_matches(
                    mft_data@,
                    mftmirr_data@,
                    k,
                ),
            mismatched_entries@ == mirror_indices().take(i as int).filter(wanted),
        decreases 4 - i,
    {
        proof {
            walk::lemma_filter_step(mirror_indices(), wanted, i as int);
            assert(mirror_indices()[i as int] == i);
        }
        let same: bool = comparison.matches[i];
        if !same {
            mismatched_entries.push(i);
        }
        i += 1;
    }
    assert(mirror_indices().take(4) =~= mirror_indices());
    let found = ArtifactAnomaly::MftMirrorMismatch { mismatched_entries };
    proof {
        walk::lemma_models_push(out@, found);
        assert(Seq::<ArtifactView>::empty().push(found@) =~= seq![found@]);
    }
    out.push(found);
    out
}

/// A table shows nothing against a faithful copy of itself.
pub proof fn law_faithful_mirror_shows_nothing(mft: Seq<u8>)
    ensures
        mirror_shows(mft, mft).len() == 0,
{
}

/// Whether a log shows signs of clearing: a gap in its record pages, or no restart area.
pub open spec fn log_cleared(log: Seq<u8>) -> bool {
    let n = logfile::page_count(log);
    ||| exists|i: int| 0 <= i < n && #[trigger] logfile::gap_at(log, i)
    ||| logfile::restart_areas(log, n).len() == 0
}

/// Audits a raw `$LogFile` for journal-clearing indicators. Malformed input yields no
/// findings.
#[must_use]
pub fn audit_logfile(logfile_data: &[u8]) -> (r: Vec<ArtifactAnomaly>)
    ensures
        walk::models(r@) == (if log_cleared(logfile_data@) {
            seq![ArtifactView::LogFileCleared]
        } else {
            Seq::empty()
        }),
{
    let mut out: Vec<ArtifactAnomaly> = Vec::new();
    match logfile::parse_logfile(logfile_data) {
        Ok(summary) => {
            if logfile::detect_journal_clearing(&summary) {
                out.push(ArtifactAnomaly::LogFileCleared);
                assert(walk::models(out@) =~= seq![ArtifactView::LogFileCleared]);
                return out;
            }
        },
        Err(_) => {},
    }
    assert(walk::models(out@) =~= Seq::empty());
    out
}

/// Each kind of anomaly has its severity and its code, and an anomaly is of the kind that
/// it was made for.
pub proof fn law_kinds_decide_the_grade(kind: KindView)
    ensures
        anomaly_of(kind).kind == kind,
        anomaly_of(kind).severity == match kind {
            KindView::Timestomp { .. } => Severity::High,
            KindView::AlternateDataStream { .. } => Severity::Low,
            KindView::DeletedRecord { .. } => Severity::Info,
            KindView::RecordSlackResidue { .. } => Severity::Low,
        },
        kind is Timestomp ==> anomaly_of(kind).code == "NTFS-TIMESTOMP",
        kind is AlternateDataStream ==> anomaly_of(kind).code == "NTFS-ADS",
        kind is DeletedRecord ==> anomaly_of(kind).code == "NTFS-DELETED-RECORD",
        kind is RecordSlackResidue ==> anomaly_of(kind).code == "NTFS-SLACK-RESIDUE",
{
}

/// Where a kind of anomaly stands among what is shown: deletion first, then residue, then
/// streams, then timestamps.
pub open spec fn place_of(kind: KindView) -> int {
    match kind {
        KindView::DeletedRecord { .. } => 0,
        KindView::RecordSlackResidue { .. } => 1,
        KindView::AlternateDataStream { .. } => 2,
        KindView::Timestomp { .. } => 3,
    }
}

/// What is shown comes in the order of its kinds.
pub proof fn law_anomalies_come_in_order(
    number: u64,
    header: MftRecordHeader,
    record: Seq<u8>,
    attributes: Seq<AttributeView>,
    information: Option<StandardInformation>,
    name: Option<FileNameView>,
    i: int,
    j: int,
)
    requires
        0 <= i < j < shown(number, header, record, attributes, information, name).len(),
    ensures
        place_of(shown(number, header, record, attributes, information, name)[i]) <= place_of(
            shown(number, header, record, attributes, information, name)[j],
        ),
        anomalies_of(shown(number, header, record, attributes, information, name))[i] == anomaly_of(
            shown(number, header, record, attributes, information, name)[i],
        ),
{
    let kinds = shown(number, header, record, attributes, information, name);
    let a = deletion_part(number, header);
    let b = residue_part(number, slack_of(record, header));
    let c = stream_part(number, attributes);
    let d = timestomp_part(number, information, name);
    assert(kinds == a + b + c + d);
    assert forall|k: int| 0 <= k < kinds.len() implies place_of(#[trigger] kinds[k]) == if k
        < a.len() {
        0int
    } else if k < a.len() + b.len() {
        1int
    } else if k < a.len() + b.len() + c.len() {
        2int
    } else {
        3int
    } by {
        if k < a.len() {
            assert(kinds[k] == a[k]);
        } else if k < a.len() + b.len() {
            assert(kinds[k] == b[k - a.len()]);
        } else if k < a.len() + b.len() + c.len() {
            assert(kinds[k] == c[k - a.len() - b.len()]);
        } else {
            assert(kinds[k] == d[k - a.len() - b.len() - c.len()]);
        }
    }
    assert(place_of(kinds[i]) <= place_of(kinds[j]));
}

/// The places of the bytes of a text that are not zero.
pub open spec fn residue_places(slack: Seq<u8>) -> Set<int> {
    Set::new(|k: int| 0 <= k < slack.len() && slack[k] != 0)
}

proof fn lemma_residue_is_counted(slack: Seq<u8>)
    ensures
        residue_places(slack).finite(),
        slack.filter(non_zero()).len() == residue_places(slack).len(),
    decreases slack.len(),
{
    reveal(Seq::filter);
    let places = residue_places(slack);
    if slack.len() == 0 {
        assert(places =~= Set::empty());
    } else {
        let shorter = slack.drop_last();
        lemma_residue_is_counted(shorter);
        if slack.last() != 0 {
            assert(places =~= residue_places(shorter).insert(slack.len() - 1));
        } else {
            assert(places =~= residue_places(shorter));
        }
    }
}

/// The residue that is reported counts the bytes past the used size that are not zero.
pub proof fn law_residue_counts_the_bytes_that_are_not_zero(
    number: u64,
    header: MftRecordHeader,
    record: Seq<u8>,
)
    requires
        record.len() <= usize::MAX,
        header.used_size <= record.len(),
        residue_part(number, slack_of(record, header)).len() > 0,
    ensures
        residue_part(number, slack_of(record, header)).len() == 1,
        residue_part(number, slack_of(record, header))[0] matches KindView::RecordSlackResidue {
            record: told,
            residue_len,
        } && told == number && residue_len == residue_places(
            record.skip(header.used_size as int),
        ).len(),
{
    let slack = record.skip(header.used_size as int);
    lemma_residue_is_counted(slack);
    lemma_filter_is_shorter(slack, non_zero());
}

proof fn lemma_filter_is_shorter<T>(items: Seq<T>, wanted: spec_fn(T) -> bool)
    ensures
        items.filter(wanted).len() <= items.len(),
    decreases items.len(),
{
    reveal(Seq::filter);
    if items.len() > 0 {
        lemma_filter_is_shorter(items.drop_last(), wanted);
    }
}

/// A raw record is audited by its own header, and by the first information and the first
/// name that it holds, under the number that its header gives.
pub proof fn law_records_are_audited_by_what_they_hold(
    rec: Seq<u8>,
    h: MftRecordHeader,
    attrs: Seq<AttributeView>,
    i: int,
    si: StandardInformation,
    j: int,
    name: FileNameView,
    units: Seq<u16>,
)
    requires
        record::holds_header(rec, h),
        h.signature@ == seq![0x46u8, 0x49, 0x4C, 0x45],
        attribute::parsed_attributes(rec, h.first_attribute_offset as int) == Ok::<
            Seq<AttributeView>,
            NtfsError,
        >(attrs),
        0 <= i < attrs.len(),
        attrs[i].type_code == 0x10,
        forall|k: int| 0 <= k < i ==> (#[trigger] attrs[k]).type_code != 0x10,
        attrs[i].content_in(rec) matches Some(content) && standard_information::holds_information(
            content,
            si,
        ),
        0 <= j < attrs.len(),
        attrs[j].type_code == 0x30,
        forall|k: int| 0 <= k < j ==> (#[trigger] attrs[k]).type_code != 0x30,
        attrs[j].content_in(rec) matches Some(content) && file_name::holds_name(
            content,
            name,
            units,
        ),
    ensures
        record_shows(rec) == shown(h.record_number as u64, h, rec, attrs, Some(si), Some(name)),
{
    record::law_written_headers_parse_back(rec, h);
    walk::lemma_first_is(attrs, fs::of_type(0x10), i);
    walk::lemma_first_is(attrs, fs::of_type(0x30), j);
    standard_information::law_written_information_parses_back(attrs[i].content_in(rec)->0, si);
    file_name::law_written_names_parse_back(attrs[j].content_in(rec)->0, name, units);
}

/// A record whose attributes do not parse is still audited by its header and its slack.
pub proof fn law_broken_attributes_leave_the_header(rec: Seq<u8>, h: MftRecordHeader)
    requires
        record::holds_header(rec, h),
        h.signature@ == seq![0x46u8, 0x49, 0x4C, 0x45],
        attribute::parsed_attributes(rec, h.first_attribute_offset as int) is Err,
    ensures
        record_shows(rec) == shown(h.record_number as u64, h, rec, Seq::empty(), None, None),
{
    let none: Seq<AttributeView> = Seq::empty();
    record::law_written_headers_parse_back(rec, h);
    walk::lemma_first_is(none, fs::of_type(0x10), 0);
    walk::lemma_first_is(none, fs::of_type(0x30), 0);
}

/// A record signature is `FILE`, or `BAAD` for a record that was found corrupt.
pub proof fn law_signatures_are_file_or_baad(mft: Seq<u8>, pos: int)
    requires
        0 <= pos,
        pos + 4 <= mft.len(),
    ensures
        signature_at(mft, pos) <==> mft.subrange(pos, pos + 4) == seq![0x46u8, 0x49, 0x4C, 0x45]
            || mft.subrange(pos, pos + 4) == seq![0x42u8, 0x41, 0x41, 0x44],
{
    assert(layout::SIGNATURE_FILE@ =~= seq![0x46u8, 0x49, 0x4C, 0x45]);
    assert(layout::SIGNATURE_BAAD@ =~= seq![0x42u8, 0x41, 0x41, 0x44]);
}

/// Offsets are found in ascending order, so none twice.
pub proof fn law_carved_offsets_ascend(mft: Seq<u8>, size: int, pos: int)
    requires
        0 < size,
        0 <= pos,
        mft.len() <= usize::MAX,
    ensures
        forall|i: int|
            0 <= i < record_offsets(mft, size, pos).len() ==> pos <= #[trigger] record_offsets(
                mft,
                size,
                pos,
            )[i],
        forall|i: int, j: int|
            0 <= i < j < record_offsets(mft, size, pos).len() ==> #[trigger] record_offsets(
                mft,
                size,
                pos,
            )[i] < #[trigger] record_offsets(mft, size, pos)[j],
    decreases mft.len() + size - pos,
{
    if pos + 4 <= mft.len() {
        law_carved_offsets_ascend(mft, size, pos + size);
        let rest = record_offsets(mft, size, pos + size);
        let list = record_offsets(mft, size, pos);
        if signature_at(mft, pos) {
            assert(forall|i: int| 0 < i < list.len() ==> #[trigger] list[i] == rest[i - 1]);
        }
    }
}

/// A record of the mirror is reported exactly when a byte of it differs, and an anomaly is
/// shown exactly when some record is reported.
pub proof fn law_every_differing_record_is_reported(mft: Seq<u8>, mirror: Seq<u8>, i: usize)
    requires
        mft.len() >= 4096,
        mirror.len() >= 4096,
        i < 4,
    ensures
        (exists|j: int| 1024 * i <= j < 1024 * i + 1024 && #[trigger] mft[j] != mirror[j]) <==> (
        mirror_shows(mft, mirror).len() == 1 && (mirror_shows(
            mft,
            mirror,
        )[0] matches ArtifactView::MftMirrorMismatch { mismatched_entries }
            && mismatched_entries.contains(i))),
        mirror_shows(mft, mirror).len() <= 1,
        mirror_shows(mft, mirror).len() == 0 <==> forall|j: int|
            0 <= j < 4096 ==> #[trigger] mft[j] == mirror[j],
{
    let differs = differing(mft, mirror);
    mftmirr::law_every_byte_of_a_record_counts(mft, mirror, 0);
    mftmirr::law_every_byte_of_a_record_counts(mft, mirror, 1);
    mftmirr::law_every_byte_of_a_record_counts(mft, mirror, 2);
    mftmirr::law_every_byte_of_a_record_counts(mft, mirror, 3);
    walk::lemma_filter_picks(mirror_indices(), differs);
    assert(mirror_indices()[i as int] == i);
    assert(mirror_indices().contains(i));
    assert(mirror_indices().filter(differs).contains(i) <==> differs(i));
    if mirror_shows(mft, mirror).len() == 0 {
        assert forall|j: int| 0 <= j < 4096 implies #[trigger] mft[j] == mirror[j] by {
            let k = j / 1024;
            assert(mftmirr::record_matches(mft, mirror, k));
            assert(k == 0 || k == 1 || k == 2 || k == 3);
        }
    }
    if forall|j: int| 0 <= j < 4096 ==> #[trigger] mft[j] == mirror[j] {
        assert forall|k: int| 0 <= k < 4 implies #[trigger] mftmirr::record_matches(
            mft,
            mirror,
            k,
        ) by {
            assert(k == 0 || k == 1 || k == 2 || k == 3);
        }
    }
}

/// Whether page `i` of a log begins with `RSTR`.
pub open spec fn begins_with_rstr(log: Seq<u8>, i: int) -> bool {
    logfile::is_signed(log, i, seq![0x52u8, 0x53, 0x54, 0x52])
}

/// A log without any restart page shows signs of clearing, and so does one with a gap; one
/// with a restart page and without a gap does not.
pub proof fn law_a_cleared_log_has_a_gap_or_no_restart_page(log: Seq<u8>)
    requires
        log.len() <= usize::MAX,
    ensures
        log_cleared(log) <==> {
            ||| exists|i: int| 0 <= i < log.len() as int / 4096 && #[trigger] logfile::gap_at(log, i)
            ||| forall|i: int|
                0 <= i < log.len() as int / 4096 ==> !#[trigger] begins_with_rstr(log, i)
        },
{
    let n = logfile::page_count(log);
    let areas = logfile::restart_areas(log, n);
    logfile::law_areas_are_those_of_restart_pages(log, n);
    if areas.len() > 0 {
        let at = areas[0].offset as int;
        assert(begins_with_rstr(log, at / 4096));
    }
    if exists|i: int| 0 <= i < n && #[trigger] begins_with_rstr(log, i) {
        let i = choose|i: int| 0 <= i < n && #[trigger] begins_with_rstr(log, i);
        logfile::lemma_restart_page_is_kept(log, i);
    }
}

} // verus!
