//! Data-run (runlist) decoding.
//!
//! A non-resident attribute stores its content in clusters described by a
//! *runlist*: a sequence of variable-length runs. Each run begins with a header
//! byte whose low nibble is the byte-count of the run length and whose high nibble
//! is the byte-count of the signed LCN delta. A run with a zero offset size is
//! *sparse* (a hole, implicitly zero). A zero header byte ends the list.

use vstd::prelude::*;
use crate::error::NtfsError;
use crate::walk;

verus! {

/// One data run: a contiguous span of clusters, or a sparse hole.
#[derive(Debug, Clone, Copy, PartialEq, Eq, Structural)]
pub struct Run {
    /// Length of the run, in clusters.
    pub length: u64,
    /// Starting logical cluster number, or `None` for a sparse run.
    pub lcn: Option<u64>,
}

/// Upper bound on the runs taken from a single list.
pub const MAX_RUNS: usize = 0x10_0000;

/// `256^n`: one more than the largest value of `n` bytes.
pub open spec fn radix(n: nat) -> nat
    decreases n,
{
    if n == 0 {
        1
    } else {
        256 * radix((n - 1) as nat)
    }
}

/// The unsigned little-endian value of all the bytes of `s`.
pub open spec fn le_value(s: Seq<u8>) -> nat
    decreases s.len(),
{
    if s.len() == 0 {
        0
    } else {
        s[0] as nat + 256 * le_value(s.skip(1))
    }
}

/// The two's-complement little-endian value of all the bytes of `s`.
pub open spec fn le_signed(s: Seq<u8>) -> int {
    if s.len() > 0 && s.last() >= 0x80 {
        le_value(s) - radix(s.len())
    } else {
        le_value(s) as int
    }
}

/// How many bytes the length field of a run with this header takes.
pub open spec fn length_width(header: u8) -> int {
    header as int % 16
}

/// How many bytes the LCN delta of a run with this header takes.
pub open spec fn delta_width(header: u8) -> int {
    header as int / 16
}

/// The run encoded at `pos` when `lcn` is the cluster that its delta counts from.
pub open spec fn run_at(bytes: Seq<u8>, pos: int, lcn: int) -> Result<Run, NtfsError> {
    let lw = length_width(bytes[pos]);
    let dw = delta_width(bytes[pos]);
    let delta_pos = pos + 1 + lw;
    if lw == 0 || lw > 8 {
        Err(NtfsError::BadRunlist("invalid run length field width"))
    } else if dw > 8 {
        Err(NtfsError::BadRunlist("invalid run offset field width"))
    } else if delta_pos > bytes.len() {
        Err(NtfsError::BadRunlist("length runs past end"))
    } else {
        let length = le_value(bytes.subrange(pos + 1, delta_pos));
        if length == 0 {
            Err(NtfsError::BadRunlist("zero-length run"))
        } else if dw == 0 {
            Ok(Run { length: length as u64, lcn: None })
        } else if delta_pos + dw > bytes.len() {
            Err(NtfsError::BadRunlist("offset runs past end"))
        } else {
            let next = lcn + le_signed(bytes.subrange(delta_pos, delta_pos + dw));
            if next > i64::MAX {
                Err(NtfsError::BadRunlist("LCN overflow"))
            } else if next < 0 {
                Err(NtfsError::BadRunlist("negative LCN"))
            } else {
                Ok(Run { length: length as u64, lcn: Some(next as u64) })
            }
        }
    }
}

/// The runs encoded from `pos` on, at most `fuel` of them, when `lcn` is the cluster
/// that the next delta counts from. The list ends at a zero header or at the end of
/// the bytes. A sparse run leaves the cluster to count from as it is.
pub open spec fn runs_from(bytes: Seq<u8>, pos: int, lcn: int, fuel: nat) -> Result<
    Seq<Run>,
    NtfsError,
>
    decreases fuel,
{
    if fuel == 0 || pos >= bytes.len() || bytes[pos] == 0 {
        Ok(Seq::empty())
    } else {
        match run_at(bytes, pos, lcn) {
            Err(e) => Err(e),
            Ok(run) => {
                let next_pos = pos + 1 + length_width(bytes[pos]) + delta_width(bytes[pos]);
                let next_lcn = match run.lcn {
                    Some(l) => l as int,
                    None => lcn,
                };
                walk::chain(seq![run], runs_from(bytes, next_pos, next_lcn, (fuel - 1) as nat))
            },
        }
    }
}

/// The runs that a runlist encodes.
pub open spec fn decoded(bytes: Seq<u8>) -> Result<Seq<Run>, NtfsError> {
    runs_from(bytes, 0, 0, MAX_RUNS as nat)
}

/// How many clusters the runs cover.
pub open spec fn cluster_sum(runs: Seq<Run>) -> nat
    decreases runs.len(),
{
    if runs.len() == 0 {
        0
    } else {
        cluster_sum(runs.drop_last()) + runs.last().length as nat
    }
}

proof fn lemma_radix_values()
    ensures
        radix(0) == 1,
        radix(1) == 0x100,
        radix(2) == 0x1_0000,
        radix(3) == 0x100_0000,
        radix(4) == 0x1_0000_0000,
        radix(5) == 0x100_0000_0000,
        radix(6) == 0x1_0000_0000_0000,
        radix(7) == 0x100_0000_0000_0000,
        radix(8) == 0x1_0000_0000_0000_0000,
{
    reveal_with_fuel(radix, 9);
}

proof fn lemma_le_value_bound(s: Seq<u8>)
    ensures
        le_value(s) < radix(s.len()),
    decreases s.len(),
{
    if s.len() > 0 {
        lemma_le_value_bound(s.skip(1));
    }
}

/// A byte string whose last byte has its top bit set is in the upper half of its range.
proof fn lemma_top_bit(s: Seq<u8>)
    requires
        s.len() > 0,
    ensures
        s.last() >= 0x80 <==> 2 * le_value(s) >= radix(s.len()),
    decreases s.len(),
{
    if s.len() == 1 {
        assert(s.skip(1).len() == 0);
        reveal_with_fuel(le_value, 2);
        lemma_radix_values();
    } else {
        lemma_top_bit(s.skip(1));
        assert(s.skip(1).last() == s.last());
    }
}

/// Reads all the bytes of `s` (at most 8) as an unsigned little-endian integer.
fn read_uint(s: &[u8]) -> (r: u64)
    requires
        s.len() <= 8,
    ensures
        r == le_value(s@),
{
    let mut v: u64 = 0;
    let mut i: usize = s.len();
    assert(s@.skip(i as int) =~= Seq::empty());
    while i > 0
        invariant
            i <= s.len() <= 8,
            v == le_value(s@.skip(i as int)),
        decreases i,
    {
        i -= 1;
        proof {
            lemma_radix_values();
            lemma_le_value_bound(s@.skip(i as int));
            assert(s@.skip(i as int).skip(1) =~= s@.skip(i + 1));
            lemma_radix_is_monotone((s@.len() - i) as nat, 8);
        }
        v = s[i] as u64 + 256 * v;
    }
    assert(s@.skip(0) =~= s@);
    v
}

proof fn lemma_radix_is_monotone(a: nat, b: nat)
    requires
        a <= b,
    ensures
        radix(a) <= radix(b),
        radix(a) >= 1,
    decreases b,
{
    if b > 0 {
        if a == b {
            lemma_radix_is_monotone((a - 1) as nat, (b - 1) as nat);
        } else {
            lemma_radix_is_monotone(a, (b - 1) as nat);
        }
    }
}

/// Reads all the bytes of `s` (at most 8) as a two's-complement little-endian integer.
fn read_sint(s: &[u8]) -> (r: i64)
    requires
        0 < s.len() <= 8,
    ensures
        r == le_signed(s@),
{
    let v = read_uint(s);
    proof {
        lemma_radix_values();
        lemma_le_value_bound(s@);
        lemma_top_bit(s@);
        lemma_radix_is_monotone(s@.len(), 8);
    }
    if s[s.len() - 1] >= 0x80 {
        let mut largest: u64 = 0;
        let mut i: usize = 0;
        while i < s.len()
            invariant
                i <= s.len() <= 8,
                largest + 1 == radix(i as nat),
            decreases s.len() - i,
        {
            proof {
                lemma_radix_values();
                lemma_radix_is_monotone((i + 1) as nat, 8);
            }
            largest = largest * 256 + 255;
            i += 1;
        }
        -((largest - v) as i64) - 1
    } else {
        v as i64
    }
}

/// Decodes a runlist into its runs.
///
/// # Errors
///
/// [`NtfsError::BadRunlist`] for an invalid field width, a truncated run, a
/// zero-length run, or an LCN that overflows or goes negative.
pub fn decode(bytes: &[u8]) -> (r: Result<Vec<Run>, NtfsError>)
    ensures
        match r {
            Ok(runs) => decoded(bytes@) == Ok::<Seq<Run>, NtfsError>(runs@),
            Err(e) => decoded(bytes@) == Err::<Seq<Run>, NtfsError>(e),
        },
{
    let mut runs: Vec<Run> = Vec::new();
    let mut pos: usize = 0;
    let mut lcn: i64 = 0;
    let mut left: usize = MAX_RUNS;
    proof {
        walk::lemma_chain_empty(decoded(bytes@));
    }
    while left > 0 && pos < bytes.len() && bytes[pos] != 0
        invariant
            pos <= bytes.len(),
            lcn >= 0,
            left <= MAX_RUNS,
            decoded(bytes@) == walk::chain(
                runs@,
                runs_from(bytes@, pos as int, lcn as int, left as nat),
            ),
        decreases left,
    {
        let header: u8 = bytes[pos];
        let len_bytes: usize = (header % 16) as usize;
        let off_bytes: usize = (header / 16) as usize;
        let ghost found = run_at(bytes@, pos as int, lcn as int);
        if len_bytes == 0 || len_bytes > 8 {
            return Err(NtfsError::BadRunlist("invalid run length field width"));
        }
        if off_bytes > 8 {
            return Err(NtfsError::BadRunlist("invalid run offset field width"));
        }
        if bytes.len() - pos - 1 < len_bytes {
            return Err(NtfsError::BadRunlist("length runs past end"));
        }
        let delta_pos: usize = pos + 1 + len_bytes;
        let length: u64 = read_uint(vstd::slice::slice_subrange(bytes, pos + 1, delta_pos));
        if length == 0 {
            return Err(NtfsError::BadRunlist("zero-length run"));
        }
        let run: Run;
        let ghost lcn_before = lcn;
        if off_bytes == 0 {
            run = Run { length, lcn: None };
        } else {
            if bytes.len() - delta_pos < off_bytes {
                return Err(NtfsError::BadRunlist("offset runs past end"));
            }
            let delta: i64 = read_sint(
                vstd::slice::slice_subrange(bytes, delta_pos, delta_pos + off_bytes),
            );
            match lcn.checked_add(delta) {
                None => {
                    return Err(NtfsError::BadRunlist("LCN overflow"));
                },
                Some(next) => {
                    if next < 0 {
                        return Err(NtfsError::BadRunlist("negative LCN"));
                    }
                    lcn = next;
                },
            }
            run = Run { length, lcn: Some(lcn as u64) };
        }
        assert(found == Ok::<Run, NtfsError>(run));
        proof {
            walk::lemma_chain_push(
                runs@,
                run,
                runs_from(bytes@, delta_pos + off_bytes, lcn as int, (left - 1) as nat),
            );
        }
        runs.push(run);
        pos = delta_pos + off_bytes;
        left -= 1;
    }
    proof {
        walk::lemma_chain_done(runs@);
    }
    Ok(runs)
}

/// Total length of all runs, in clusters.
///
/// # Errors
///
/// [`NtfsError::BadRunlist`] if the lengths overflow `u64`.
pub fn total_clusters(runs: &[Run]) -> (r: Result<u64, NtfsError>)
    ensures
        match r {
            Ok(total) => total == cluster_sum(runs@),
            Err(e) => cluster_sum(runs@) > u64::MAX && e == NtfsError::BadRunlist(
                "total cluster count overflow",
            ),
        },
{
    let mut total: u64 = 0;
    let mut i: usize = 0;
    while i < runs.len()
        invariant
            i <= runs.len(),
            total == cluster_sum(runs@.take(i as int)),
        decreases runs.len() - i,
    {
        proof {
            assert(runs@.take(i + 1).drop_last() =~= runs@.take(i as int));
            lemma_cluster_sum_prefix(runs@, i + 1);
        }
        match total.checked_add(runs[i].length) {
            None => {
                return Err(NtfsError::BadRunlist("total cluster count overflow"));
            },
            Some(t) => {
                total = t;
            },
        }
        i += 1;
    }
    assert(runs@.take(i as int) =~= runs@);
    Ok(total)
}

/// A prefix covers no more clusters than the whole.
pub proof fn lemma_cluster_sum_prefix(runs: Seq<Run>, n: int)
    requires
        0 <= n <= runs.len(),
    ensures
        cluster_sum(runs.take(n)) <= cluster_sum(runs),
    decreases runs.len(),
{
    if n == runs.len() {
        assert(runs.take(n) =~= runs);
    } else {
        lemma_cluster_sum_prefix(runs.drop_last(), n);
        assert(runs.drop_last().take(n) =~= runs.take(n));
    }
}

proof fn lemma_runs_from_are_sound(bytes: Seq<u8>, pos: int, lcn: int, fuel: nat)
    requires
        0 <= pos,
        0 <= lcn <= i64::MAX,
    ensures
        runs_from(bytes, pos, lcn, fuel) matches Ok(runs) ==> {
            &&& runs.len() <= fuel
            &&& forall|i: int|
                0 <= i < runs.len() ==> (#[trigger] runs[i]).length > 0 && (runs[i].lcn matches Some(
                    l,
                ) ==> l <= i64::MAX)
        },
    decreases fuel,
{
    if fuel == 0 || pos >= bytes.len() || bytes[pos] == 0 {
    } else {
        match run_at(bytes, pos, lcn) {
            Err(_) => {},
            Ok(run) => {
                let next_pos = pos + 1 + length_width(bytes[pos]) + delta_width(bytes[pos]);
                let next_lcn = match run.lcn {
                    Some(l) => l as int,
                    None => lcn,
                };
                lemma_le_value_bound(bytes.subrange(pos + 1, pos + 1 + length_width(bytes[pos])));
                lemma_radix_values();
                lemma_radix_is_monotone(length_width(bytes[pos]) as nat, 8);
                lemma_runs_from_are_sound(bytes, next_pos, next_lcn, (fuel - 1) as nat);
            },
        }
    }
}

/// Whatever the bytes, a decoded runlist has no empty run, addresses no cluster
/// beyond `i64::MAX`, and holds at most `MAX_RUNS` runs.
pub proof fn law_decoded_runs_are_sound(bytes: Seq<u8>)
    ensures
        decoded(bytes) matches Ok(runs) ==> {
            &&& runs.len() <= 0x10_0000
            &&& forall|i: int|
                0 <= i < runs.len() ==> (#[trigger] runs[i]).length > 0 && (runs[i].lcn matches Some(
                    l,
                ) ==> l <= i64::MAX)
        },
{
    lemma_runs_from_are_sound(bytes, 0, 0, MAX_RUNS as nat);
}

/// A sparse run does not shift what follows it: the next delta counts from the same
/// cluster as if the hole were not there.
pub proof fn law_sparse_run_keeps_the_cluster(bytes: Seq<u8>, pos: int, lcn: int, fuel: nat)
    requires
        0 <= pos < bytes.len(),
        bytes[pos] != 0,
        fuel > 0,
        run_at(bytes, pos, lcn) matches Ok(run) && run.lcn is None,
    ensures
        runs_from(bytes, pos, lcn, fuel) == walk::chain(
            seq![run_at(bytes, pos, lcn)->Ok_0],
            runs_from(bytes, pos + 1 + length_width(bytes[pos]), lcn, (fuel - 1) as nat),
        ),
{
}

/// The `n` little-endian bytes of a number.
pub open spec fn le_bytes(v: nat, n: nat) -> Seq<u8>
    decreases n,
{
    if n == 0 {
        Seq::empty()
    } else {
        seq![(v % 256) as u8] + le_bytes(v / 256, (n - 1) as nat)
    }
}

/// The number whose eight bytes are the two's complement of `v`.
pub open spec fn complement(v: int) -> nat {
    if v < 0 {
        (v + 0x1_0000_0000_0000_0000) as nat
    } else {
        v as nat
    }
}

/// One run with fields of eight bytes, when `lcn` is the cluster that its delta counts
/// from.
pub open spec fn encoded_run(run: Run, lcn: int) -> Seq<u8> {
    match run.lcn {
        None => seq![0x08u8] + le_bytes(run.length as nat, 8),
        Some(l) => seq![0x88u8] + le_bytes(run.length as nat, 8) + le_bytes(
            complement(l - lcn),
            8,
        ),
    }
}

/// A runlist with fields of eight bytes, without an end marker.
pub open spec fn encoded(runs: Seq<Run>, lcn: int) -> Seq<u8>
    decreases runs.len(),
{
    if runs.len() == 0 {
        Seq::empty()
    } else {
        let next = match runs[0].lcn {
            Some(l) => l as int,
            None => lcn,
        };
        encoded_run(runs[0], lcn) + encoded(runs.skip(1), next)
    }
}

/// Whether a runlist can hold the run: it is not empty, and its cluster fits.
pub open spec fn encodable(run: Run) -> bool {
    run.length > 0 && (run.lcn matches Some(l) ==> l <= i64::MAX)
}

proof fn lemma_le_bytes_read_back(v: nat, n: nat)
    requires
        v < radix(n),
    ensures
        le_bytes(v, n).len() == n,
        le_value(le_bytes(v, n)) == v,
    decreases n,
{
    if n > 0 {
        let rest = le_bytes(v / 256, (n - 1) as nat);
        lemma_le_bytes_read_back(v / 256, (n - 1) as nat);
        assert(le_bytes(v, n).skip(1) =~= rest);
    }
}

proof fn lemma_complement_reads_back(v: int)
    requires
        i64::MIN <= v <= i64::MAX,
    ensures
        le_bytes(complement(v), 8).len() == 8,
        le_signed(le_bytes(complement(v), 8)) == v,
{
    lemma_radix_values();
    lemma_le_bytes_read_back(complement(v), 8);
    lemma_top_bit(le_bytes(complement(v), 8));
}

proof fn lemma_encoding_reads_back(
    before: Seq<u8>,
    runs: Seq<Run>,
    tail: Seq<u8>,
    lcn: int,
    fuel: nat,
)
    requires
        0 <= lcn <= i64::MAX,
        runs.len() <= fuel,
        forall|k: int| 0 <= k < runs.len() ==> encodable(#[trigger] runs[k]),
        tail.len() == 0 || tail[0] == 0,
    ensures
        runs_from(before + encoded(runs, lcn) + tail, before.len() as int, lcn, fuel) == Ok::<
            Seq<Run>,
            NtfsError,
        >(runs),
    decreases runs.len(),
{
    let bytes = before + encoded(runs, lcn) + tail;
    let pos = before.len() as int;
    if runs.len() == 0 {
        assert(runs =~= Seq::empty());
        assert(tail.len() > 0 ==> bytes[pos] == tail[0]);
    } else {
        let run = runs[0];
        assert(encodable(run));
        let own = encoded_run(run, lcn);
        let next = match run.lcn {
            Some(l) => l as int,
            None => lcn,
        };
        let rest = encoded(runs.skip(1), next);
        lemma_radix_values();
        lemma_le_bytes_read_back(run.length as nat, 8);
        if let Some(l) = run.lcn {
            lemma_complement_reads_back(l - lcn);
            assert(bytes.subrange(pos + 9, pos + 17) =~= le_bytes(complement(l - lcn), 8));
        }
        assert(own.len() == (if run.lcn is Some {
            17int
        } else {
            9int
        }));
        assert(bytes[pos] == own[0]);
        assert(bytes.subrange(pos + 1, pos + 9) =~= le_bytes(run.length as nat, 8));
        assert(run_at(bytes, pos, lcn) == Ok::<Run, NtfsError>(run));
        assert(bytes =~= (before + own) + rest + tail);
        assert forall|k: int| 0 <= k < runs.skip(1).len() implies encodable(
            #[trigger] runs.skip(1)[k],
        ) by {
            assert(runs.skip(1)[k] == runs[k + 1]);
        }
        lemma_encoding_reads_back(before + own, runs.skip(1), tail, next, (fuel - 1) as nat);
        assert(seq![run] + runs.skip(1) =~= runs);
    }
}

/// Decoding undoes encoding: a runlist of at most `MAX_RUNS` runs reads back as it was
/// written, with or without an end marker, and whatever follows the marker.
pub proof fn law_decoding_undoes_encoding(runs: Seq<Run>, junk: Seq<u8>)
    requires
        runs.len() <= 0x10_0000,
        forall|k: int| 0 <= k < runs.len() ==> encodable(#[trigger] runs[k]),
    ensures
        decoded(encoded(runs, 0)) == Ok::<Seq<Run>, NtfsError>(runs),
        decoded(encoded(runs, 0) + seq![0u8] + junk) == Ok::<Seq<Run>, NtfsError>(runs),
{
    let none: Seq<u8> = Seq::empty();
    let text = encoded(runs, 0);
    lemma_encoding_reads_back(none, runs, none, 0, MAX_RUNS as nat);
    assert(none + text + none =~= text);
    lemma_encoding_reads_back(none, runs, seq![0u8] + junk, 0, MAX_RUNS as nat);
    assert(none + text + (seq![0u8] + junk) =~= text + seq![0u8] + junk);
}

/// The number whose `n` bytes are the two's complement of `v`.
pub open spec fn complement_in(v: int, n: nat) -> nat {
    if v < 0 {
        (v + radix(n)) as nat
    } else {
        v as nat
    }
}

/// Whether `n` bytes of two's complement can hold `v`.
pub open spec fn fits_signed(v: int, n: nat) -> bool {
    -(radix(n) as int) <= 2 * v < radix(n)
}

/// The widths of the two fields of a written run: those of its length and of its delta.
pub struct Widths {
    pub length: nat,
    pub delta: nat,
}

/// Whether a run can be written with fields of these widths, when `lcn` is the cluster
/// that its delta counts from. A hole has no delta.
pub open spec fn writable(run: Run, lcn: int, w: Widths) -> bool {
    &&& 1 <= w.length <= 8
    &&& 0 < run.length < radix(w.length)
    &&& match run.lcn {
        None => w.delta == 0,
        Some(l) => 1 <= w.delta <= 8 && l <= i64::MAX && fits_signed(l - lcn, w.delta),
    }
}

/// One run as it is written: a header byte with the two widths, the length, and the delta
/// from `lcn`.
pub open spec fn written_run(run: Run, lcn: int, w: Widths) -> Seq<u8> {
    let header = (16 * w.delta + w.length) as u8;
    match run.lcn {
        None => seq![header] + le_bytes(run.length as nat, w.length),
        Some(l) => seq![header] + le_bytes(run.length as nat, w.length) + le_bytes(
            complement_in(l - lcn, w.delta),
            w.delta,
        ),
    }
}

/// The cluster that the delta after `run` counts from.
pub open spec fn next_base(run: Run, lcn: int) -> int {
    match run.lcn {
        Some(l) => l as int,
        None => lcn,
    }
}

/// A runlist as it is written, each run with its own widths, without an end marker.
pub open spec fn written(runs: Seq<Run>, widths: Seq<Widths>, lcn: int) -> Seq<u8>
    decreases runs.len(),
{
    if runs.len() == 0 {
        Seq::empty()
    } else {
        written_run(runs[0], lcn, widths[0]) + written(
            runs.skip(1),
            widths.skip(1),
            next_base(runs[0], lcn),
        )
    }
}

/// Whether every run can be written with its widths.
pub open spec fn all_writable(runs: Seq<Run>, widths: Seq<Widths>, lcn: int) -> bool
    decreases runs.len(),
{
    runs.len() == widths.len() && (runs.len() > 0 ==> writable(runs[0], lcn, widths[0])
        && all_writable(runs.skip(1), widths.skip(1), next_base(runs[0], lcn)))
}

/// A signed number reads back from its two's complement, whatever the width.
pub proof fn law_deltas_read_back(v: int, n: nat)
    requires
        1 <= n <= 8,
        fits_signed(v, n),
    ensures
        le_bytes(complement_in(v, n), n).len() == n,
        le_signed(le_bytes(complement_in(v, n), n)) == v,
{
    lemma_radix_is_monotone(0, n);
    lemma_le_bytes_read_back(complement_in(v, n), n);
    lemma_top_bit(le_bytes(complement_in(v, n), n));
}

proof fn lemma_written_run_reads_back(
    before: Seq<u8>,
    run: Run,
    lcn: int,
    w: Widths,
    tail: Seq<u8>,
)
    requires
        0 <= lcn <= i64::MAX,
        writable(run, lcn, w),
    ensures
        ({
            let own = written_run(run, lcn, w);
            let bytes = before + own + tail;
            let header = bytes[before.len() as int];
            &&& own.len() == 1 + w.length + w.delta
            &&& header != 0
            &&& length_width(header) == w.length
            &&& delta_width(header) == w.delta
            &&& run_at(bytes, before.len() as int, lcn) == Ok::<Run, NtfsError>(run)
        }),
{
    let own = written_run(run, lcn, w);
    let bytes = before + own + tail;
    let pos = before.len() as int;
    let header = (16 * w.delta + w.length) as u8;
    let split = pos + 1 + w.length;
    lemma_radix_values();
    lemma_radix_is_monotone(w.length, 8);
    lemma_le_bytes_read_back(run.length as nat, w.length);
    if let Some(l) = run.lcn {
        law_deltas_read_back(l - lcn, w.delta);
        assert(bytes.subrange(split, split + w.delta) =~= le_bytes(
            complement_in(l - lcn, w.delta),
            w.delta,
        ));
    }
    assert(bytes[pos] == own[0] && own[0] == header);
    assert(length_width(header) == w.length && delta_width(header) == w.delta);
    assert(bytes.subrange(pos + 1, split) =~= le_bytes(run.length as nat, w.length));
}

/// The cluster that a delta behind `runs` counts from.
pub open spec fn last_base(runs: Seq<Run>, lcn: int) -> int
    decreases runs.len(),
{
    if runs.len() == 0 {
        lcn
    } else {
        last_base(runs.skip(1), next_base(runs[0], lcn))
    }
}

proof fn lemma_writing_reads_on(
    before: Seq<u8>,
    runs: Seq<Run>,
    widths: Seq<Widths>,
    tail: Seq<u8>,
    lcn: int,
    fuel: nat,
)
    requires
        0 <= lcn <= i64::MAX,
        runs.len() <= fuel,
        all_writable(runs, widths, lcn),
    ensures
        ({
            let text = before + written(runs, widths, lcn);
            runs_from(text + tail, before.len() as int, lcn, fuel) == walk::chain(
                runs,
                runs_from(
                    text + tail,
                    text.len() as int,
                    last_base(runs, lcn),
                    (fuel - runs.len()) as nat,
                ),
            )
        }),
        0 <= last_base(runs, lcn) <= i64::MAX,
    decreases runs.len(),
{
    let text = before + written(runs, widths, lcn);
    let bytes = text + tail;
    let pos = before.len() as int;
    if runs.len() == 0 {
        assert(runs =~= Seq::empty());
        assert(text =~= before);
        walk::lemma_chain_empty(runs_from(bytes, pos, lcn, fuel));
    } else {
        let run = runs[0];
        let w = widths[0];
        let own = written_run(run, lcn, w);
        let next = next_base(run, lcn);
        let rest = written(runs.skip(1), widths.skip(1), next);
        lemma_written_run_reads_back(before, run, lcn, w, rest + tail);
        assert(bytes =~= before + own + (rest + tail));
        assert(text =~= (before + own) + rest);
        lemma_writing_reads_on(
            before + own,
            runs.skip(1),
            widths.skip(1),
            tail,
            next,
            (fuel - 1) as nat,
        );
        assert((before + own).len() == pos + 1 + w.length + w.delta);
        let after = runs_from(
            bytes,
            text.len() as int,
            last_base(runs, lcn),
            (fuel - runs.len()) as nat,
        );
        assert(seq![run] + runs.skip(1) =~= runs);
        if let Ok(others) = after {
            assert(seq![run] + (runs.skip(1) + others) =~= runs + others);
        }
    }
}

proof fn lemma_writing_reads_back(
    before: Seq<u8>,
    runs: Seq<Run>,
    widths: Seq<Widths>,
    tail: Seq<u8>,
    lcn: int,
    fuel: nat,
)
    requires
        0 <= lcn <= i64::MAX,
        runs.len() <= fuel,
        all_writable(runs, widths, lcn),
        tail.len() == 0 || tail[0] == 0,
    ensures
        runs_from(before + written(runs, widths, lcn) + tail, before.len() as int, lcn, fuel)
            == Ok::<Seq<Run>, NtfsError>(runs),
{
    let text = before + written(runs, widths, lcn);
    lemma_writing_reads_on(before, runs, widths, tail, lcn, fuel);
    assert(tail.len() > 0 ==> (text + tail)[text.len() as int] == tail[0]);
    walk::lemma_chain_done(runs);
}

/// Whether `tail` begins with what cannot be a run, when `lcn` is the cluster that its
/// delta counts from: the header gives an impossible width, the fields are cut off, the
/// length is zero, or the delta leads before the first cluster or past the last.
pub open spec fn is_malformed(tail: Seq<u8>, lcn: int) -> bool {
    let length_bytes = tail[0] as int % 16;
    let delta_bytes = tail[0] as int / 16;
    &&& tail.len() > 0
    &&& tail[0] != 0
    &&& {
        ||| length_bytes == 0
        ||| length_bytes > 8
        ||| delta_bytes > 8
        ||| 1 + length_bytes + delta_bytes > tail.len()
        ||| forall|i: int| 1 <= i <= length_bytes ==> #[trigger] tail[i] == 0
        ||| exists|delta: int|
            fits_signed(delta, delta_bytes as nat) && delta_bytes > 0 && tail.subrange(
                1 + length_bytes,
                1 + length_bytes + delta_bytes,
            ) == #[trigger] le_bytes(complement_in(delta, delta_bytes as nat), delta_bytes as nat)
                && !(0 <= lcn + delta <= i64::MAX)
    }
}

proof fn lemma_zero_bytes(s: Seq<u8>)
    requires
        forall|i: int| 0 <= i < s.len() ==> #[trigger] s[i] == 0,
    ensures
        le_value(s) == 0,
    decreases s.len(),
{
    if s.len() > 0 {
        assert forall|i: int| 0 <= i < s.skip(1).len() implies #[trigger] s.skip(1)[i] == 0 by {
            assert(s.skip(1)[i] == s[i + 1]);
        }
        lemma_zero_bytes(s.skip(1));
    }
}

proof fn lemma_malformed_run(before: Seq<u8>, tail: Seq<u8>, lcn: int)
    requires
        is_malformed(tail, lcn),
    ensures
        run_at(before + tail, before.len() as int, lcn) matches Err(NtfsError::BadRunlist(_)),
{
    let bytes = before + tail;
    let pos = before.len() as int;
    let lw = tail[0] as int % 16;
    let dw = tail[0] as int / 16;
    assert(bytes[pos] == tail[0]);
    if 0 < lw <= 8 && dw <= 8 && 1 + lw + dw <= tail.len() {
        assert(bytes.subrange(pos + 1, pos + 1 + lw) =~= tail.subrange(1, 1 + lw));
        assert(bytes.subrange(pos + 1 + lw, pos + 1 + lw + dw) =~= tail.subrange(
            1 + lw,
            1 + lw + dw,
        ));
        if forall|i: int| 1 <= i <= lw ==> #[trigger] tail[i] == 0 {
            let field = tail.subrange(1, 1 + lw);
            assert forall|i: int| 0 <= i < field.len() implies #[trigger] field[i] == 0 by {
                assert(field[i] == tail[i + 1]);
            }
            lemma_zero_bytes(field);
        } else {
            let delta = choose|delta: int|
                fits_signed(delta, dw as nat) && dw > 0 && tail.subrange(1 + lw, 1 + lw + dw)
                    == #[trigger] le_bytes(complement_in(delta, dw as nat), dw as nat) && !(0 <= lcn
                    + delta <= i64::MAX);
            law_deltas_read_back(delta, dw as nat);
        }
    }
}

/// A malformed run has the whole runlist refused, whatever stands before it.
pub proof fn law_a_malformed_run_is_refused(runs: Seq<Run>, widths: Seq<Widths>, tail: Seq<u8>)
    requires
        runs.len() < 0x10_0000,
        all_writable(runs, widths, 0),
        is_malformed(tail, last_base(runs, 0)),
    ensures
        decoded(written(runs, widths, 0) + tail) matches Err(NtfsError::BadRunlist(_)),
{
    let none: Seq<u8> = Seq::empty();
    let text = written(runs, widths, 0);
    assert(none + text =~= text);
    lemma_writing_reads_on(none, runs, widths, tail, 0, 0x10_0000);
    lemma_malformed_run(text, tail, last_base(runs, 0));
    assert((text + tail)[text.len() as int] == tail[0]);
}

/// Decoding undoes writing: a runlist of at most `MAX_RUNS` runs reads back as it was
/// written, whatever widths its fields have, with or without an end marker, and whatever
/// follows the marker.
pub proof fn law_decoding_undoes_writing(runs: Seq<Run>, widths: Seq<Widths>, junk: Seq<u8>)
    requires
        runs.len() <= 0x10_0000,
        all_writable(runs, widths, 0),
    ensures
        decoded(written(runs, widths, 0)) == Ok::<Seq<Run>, NtfsError>(runs),
        decoded(written(runs, widths, 0) + seq![0u8] + junk) == Ok::<Seq<Run>, NtfsError>(runs),
{
    let none: Seq<u8> = Seq::empty();
    let text = written(runs, widths, 0);
    lemma_writing_reads_back(none, runs, widths, none, 0, MAX_RUNS as nat);
    assert(none + text + none =~= text);
    lemma_writing_reads_back(none, runs, widths, seq![0u8] + junk, 0, MAX_RUNS as nat);
    assert(none + text + (seq![0u8] + junk) =~= text + seq![0u8] + junk);
}

} // verus!
