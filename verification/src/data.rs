//! Reconstructing an attribute's bytes: resident inline, or non-resident by following
//! its runlist across the volume.
//!
//! Sparse runs yield zeroes without touching the disk; real runs are read at
//! `lcn * cluster_size`. The output is bounded by the attribute's real size and by the
//! bytes its runs actually allocate, and every size is checked: a crafted runlist
//! cannot trigger an unbounded allocation or an out-of-range seek.

use vstd::prelude::*;
use crate::attribute;
use crate::attribute::{Attribute, AttributeBody, AttributeView};
use crate::bytes;
use crate::error::NtfsError;
use crate::runlist;
use crate::runlist::Run;
use crate::source;
use crate::source::ByteSource;
use crate::walk;

verus! {

/// Hard ceiling on a single reconstructed value (1 TiB).
pub const MAX_VALUE_BYTES: u64 = 0x100_0000_0000;

/// The smaller of two numbers.
pub open spec fn least(a: int, b: int) -> int {
    if a < b {
        a
    } else {
        b
    }
}

/// How many bytes the runs allocate, each step checked to fit in 64 bits.
pub open spec fn allocated(runs: Seq<Run>, cluster_size: int) -> Result<int, NtfsError>
    decreases runs.len(),
{
    if runs.len() == 0 {
        Ok(0)
    } else {
        match allocated(runs.drop_last(), cluster_size) {
            Err(e) => Err(e),
            Ok(before) => {
                let run_bytes = runs.last().length * cluster_size;
                if run_bytes > u64::MAX {
                    Err(NtfsError::BadRunlist("run byte length overflow"))
                } else if before + run_bytes > u64::MAX {
                    Err(NtfsError::BadRunlist("allocation overflow"))
                } else {
                    Ok(before + run_bytes)
                }
            },
        }
    }
}

/// The `take` leading bytes of one run: zeroes for a hole.
pub open spec fn run_piece(image: Seq<u8>, run: Run, cluster_size: int, take: int) -> Result<
    Seq<u8>,
    NtfsError,
> {
    match run.lcn {
        None => Ok(bytes::zeros(take as nat)),
        Some(lcn) => if lcn * cluster_size > u64::MAX {
            Err(NtfsError::BadRunlist("LCN byte offset overflow"))
        } else {
            source::fetched(image, lcn * cluster_size, take)
        },
    }
}

/// The first `remaining` bytes of the runs from `i` on. Runs past what is wanted are
/// not looked at.
pub open spec fn bytes_from(
    image: Seq<u8>,
    runs: Seq<Run>,
    cluster_size: int,
    i: int,
    remaining: int,
) -> Result<Seq<u8>, NtfsError>
    decreases runs.len() - i,
{
    if remaining <= 0 || i >= runs.len() {
        Ok(Seq::empty())
    } else {
        let take = least(runs[i].length * cluster_size, remaining);
        match run_piece(image, runs[i], cluster_size, take) {
            Err(e) => Err(e),
            Ok(piece) => walk::chain(
                piece,
                bytes_from(image, runs, cluster_size, i + 1, remaining - take),
            ),
        }
    }
}

/// What the runs of a file of `real_size` bytes hold.
pub open spec fn runs_value(
    image: Seq<u8>,
    runs: Seq<Run>,
    cluster_size: int,
    real_size: int,
) -> Result<Seq<u8>, NtfsError> {
    match allocated(runs, cluster_size) {
        Err(e) => Err(e),
        Ok(total) => {
            let want = least(real_size, total);
            if want > MAX_VALUE_BYTES || want > usize::MAX {
                Err(NtfsError::TooLarge { bytes: want as u64 })
            } else {
                bytes_from(image, runs, cluster_size, 0, want)
            }
        },
    }
}

/// Whether some run is no hole.
pub open spec fn has_stored(runs: Seq<Run>) -> bool {
    exists|k: int| 0 <= k < runs.len() && (#[trigger] runs[k]).lcn is Some
}

/// Whether reading `real_size` bytes of the runs asks the source for any.
pub open spec fn runs_are_read(runs: Seq<Run>, cluster_size: int, real_size: int) -> bool {
    &&& allocated(runs, cluster_size) matches Ok(total) && {
        let want = least(real_size, total);
        0 < want <= MAX_VALUE_BYTES && want <= usize::MAX
    }
    &&& has_stored(runs)
}

proof fn lemma_allocated_prefix(runs: Seq<Run>, cluster_size: int, n: int)
    requires
        0 <= n <= runs.len(),
        allocated(runs.take(n), cluster_size) is Err,
    ensures
        allocated(runs, cluster_size) == allocated(runs.take(n), cluster_size),
    decreases runs.len(),
{
    if n == runs.len() {
        assert(runs.take(n) =~= runs);
    } else {
        assert(runs.drop_last().take(n) =~= runs.take(n));
        lemma_allocated_prefix(runs.drop_last(), cluster_size, n);
    }
}

proof fn lemma_allocated_part(runs: Seq<Run>, cluster_size: int, i: int)
    requires
        0 <= i < runs.len(),
        0 <= cluster_size,
        allocated(runs, cluster_size) is Ok,
    ensures
        0 <= runs[i].length * cluster_size <= u64::MAX,
    decreases runs.len(),
{
    assert(0 <= runs[i].length * cluster_size) by (nonlinear_arith)
        requires
            0 <= cluster_size,
            0 <= runs[i].length,
    ;
    if i < runs.len() - 1 {
        lemma_allocated_part(runs.drop_last(), cluster_size, i);
    }
}

/// Adds up the bytes that the runs allocate.
pub fn allocated_bytes(runs: &[Run], cluster_size: u64) -> (r: Result<u64, NtfsError>)
    ensures
        match r {
            Ok(total) => allocated(runs@, cluster_size as int) == Ok::<int, NtfsError>(
                total as int,
            ),
            Err(e) => allocated(runs@, cluster_size as int) == Err::<int, NtfsError>(e),
        },
{
    let mut total: u64 = 0;
    let mut i: usize = 0;
    while i < runs.len()
        invariant
            i <= runs.len(),
            allocated(runs@.take(i as int), cluster_size as int) == Ok::<int, NtfsError>(
                total as int,
            ),
        decreases runs.len() - i,
    {
        assert(runs@.take(i + 1).drop_last() =~= runs@.take(i as int));
        assert(runs@.take(i + 1).last() == runs@[i as int]);
        let run_bytes: u64 = match runs[i].length.checked_mul(cluster_size) {
            Some(b) => b,
            None => {
                proof {
                    lemma_allocated_prefix(runs@, cluster_size as int, i + 1);
                }
                return Err(NtfsError::BadRunlist("run byte length overflow"));
            },
        };
        total = match total.checked_add(run_bytes) {
            Some(t) => t,
            None => {
                proof {
                    lemma_allocated_prefix(runs@, cluster_size as int, i + 1);
                }
                return Err(NtfsError::BadRunlist("allocation overflow"));
            },
        };
        i += 1;
    }
    assert(runs@.take(i as int) =~= runs@);
    Ok(total)
}

/// Reads `real_size` bytes of a file described by `runs`, from `reader`.
///
/// The result is `min(real_size, bytes the runs allocate)` bytes long; sparse runs
/// contribute zeroes.
///
/// # Errors
///
/// [`NtfsError::BadRunlist`] on arithmetic overflow, [`NtfsError::TooLarge`] when the
/// requested size is implausible, or [`NtfsError::Io`] on read failure.
pub fn read_runs<R: ByteSource>(
    reader: &mut R,
    runs: &[Run],
    cluster_size: u64,
    real_size: u64,
) -> (r: Result<Vec<u8>, NtfsError>)
    ensures
        final(reader).bytes() == old(reader).bytes(),
        final(reader).flaky() == old(reader).flaky(),
        source::delivered(
            walk::model(r),
            runs_value(old(reader).bytes(), runs@, cluster_size as int, real_size as int),
            old(reader).flaky() && runs_are_read(runs@, cluster_size as int, real_size as int),
        ),
{
    let total: u64 = match allocated_bytes(runs, cluster_size) {
        Ok(t) => t,
        Err(e) => {
            return Err(e);
        },
    };
    let want: u64 = if real_size < total {
        real_size
    } else {
        total
    };
    if want > MAX_VALUE_BYTES || want > usize::MAX as u64 {
        return Err(NtfsError::TooLarge { bytes: want });
    }
    let ghost image = reader.bytes();
    let ghost flaky = reader.flaky();
    let mut out: Vec<u8> = Vec::new();
    let mut remaining: u64 = want;
    let mut i: usize = 0;
    let ghost whole = bytes_from(image, runs@, cluster_size as int, 0, want as int);
    proof {
        walk::lemma_chain_empty(whole);
    }
    while i < runs.len() && remaining > 0
        invariant
            i <= runs.len(),
            remaining <= want <= usize::MAX,
            want <= MAX_VALUE_BYTES,
            allocated(runs@, cluster_size as int) == Ok::<int, NtfsError>(total as int),
            want == least(real_size as int, total as int),
            reader.bytes() == image,
            reader.flaky() == flaky,
            image == old(reader).bytes(),
            flaky == old(reader).flaky(),
            whole == runs_value(image, runs@, cluster_size as int, real_size as int),
            whole == walk::chain(
                out@,
                bytes_from(image, runs@, cluster_size as int, i as int, remaining as int),
            ),
        decreases runs.len() - i,
    {
        proof {
            lemma_allocated_part(runs@, cluster_size as int, i as int);
        }
        let run_bytes: u64 = runs[i].length * cluster_size;
        let take: u64 = if run_bytes < remaining {
            run_bytes
        } else {
            remaining
        };
        let ghost rest = bytes_from(
            image,
            runs@,
            cluster_size as int,
            i + 1,
            remaining - take,
        );
        let ghost before = out@;
        let ghost piece: Seq<u8> = Seq::empty();
        match runs[i].lcn {
            None => {
                bytes::append_zeros(&mut out, take as usize);
                proof {
                    piece = bytes::zeros(take as nat);
                }
            },
            Some(lcn) => {
                let offset: u64 = match lcn.checked_mul(cluster_size) {
                    Some(o) => o,
                    None => {
                        return Err(NtfsError::BadRunlist("LCN byte offset overflow"));
                    },
                };
                match source::read_exact_at(reader, offset, take as usize) {
                    Ok(found) => {
                        bytes::append(&mut out, found.as_slice());
                        proof {
                            piece = found@;
                        }
                    },
                    Err(e) => {
                        return Err(e);
                    },
                }
            },
        }
        proof {
            lemma_chain_append(before, piece, rest);
        }
        remaining = remaining - take;
        i += 1;
    }
    proof {
        walk::lemma_chain_done(out@);
    }
    Ok(out)
}

/// Moving a piece from the remainder to the front changes nothing.
pub proof fn lemma_chain_append<T>(
    first: Seq<T>,
    piece: Seq<T>,
    rest: Result<Seq<T>, NtfsError>,
)
    ensures
        walk::chain(first + piece, rest) == walk::chain(first, walk::chain(piece, rest)),
{
    if let Ok(items) = rest {
        assert((first + piece) + items =~= first + (piece + items));
    }
}

/// The runs of a non-resident attribute, decoded from the record that holds it.
pub open spec fn runlist_of(record: Seq<u8>, attribute: AttributeView) -> Result<
    Seq<Run>,
    NtfsError,
> {
    let offset = attribute.offset;
    match attribute.body {
        AttributeBody::Resident { .. } => Err(
            NtfsError::BadAttribute { offset, detail: "attribute is resident (no runlist)" },
        ),
        AttributeBody::NonResident { runs_offset, .. } => {
            let start = offset + runs_offset;
            let end = offset + attribute.length;
            if end > usize::MAX {
                Err(NtfsError::BadAttribute { offset, detail: "attribute length overflow" })
            } else if start > usize::MAX {
                Err(NtfsError::BadAttribute { offset, detail: "runs offset overflow" })
            } else if start > end || end > record.len() {
                Err(NtfsError::BadAttribute { offset, detail: "runlist out of bounds" })
            } else {
                runlist::decoded(record.subrange(start, end))
            }
        },
    }
}

/// Decodes the data-run list of a non-resident attribute from its (fixed-up) record
/// bytes.
///
/// Reused to assemble a split `$DATA` whose runlist spans several `$DATA` attributes in
/// different MFT records (via `$ATTRIBUTE_LIST`).
///
/// # Errors
///
/// [`NtfsError::BadAttribute`] for a resident attribute or an out-of-bounds runlist;
/// [`NtfsError::BadRunlist`] for a malformed runlist.
pub fn attribute_runlist(record: &[u8], attribute: &Attribute) -> (r: Result<
    Vec<Run>,
    NtfsError,
>)
    ensures
        match r {
            Ok(runs) => runlist_of(record@, attribute@) == Ok::<Seq<Run>, NtfsError>(runs@),
            Err(e) => runlist_of(record@, attribute@) == Err::<Seq<Run>, NtfsError>(e),
        },
{
    let offset: usize = attribute.offset;
    match attribute.body {
        AttributeBody::Resident { .. } => Err(
            NtfsError::BadAttribute { offset, detail: "attribute is resident (no runlist)" },
        ),
        AttributeBody::NonResident { runs_offset, .. } => {
            let end: usize = match offset.checked_add(attribute.length as usize) {
                Some(e) => e,
                None => {
                    return Err(
                        NtfsError::BadAttribute { offset, detail: "attribute length overflow" },
                    );
                },
            };
            let start: usize = match offset.checked_add(runs_offset as usize) {
                Some(s) => s,
                None => {
                    return Err(NtfsError::BadAttribute { offset, detail: "runs offset overflow" });
                },
            };
            match bytes::window(record, start, end) {
                Some(encoded) => runlist::decode(encoded),
                None => Err(NtfsError::BadAttribute { offset, detail: "runlist out of bounds" }),
            }
        },
    }
}

/// What the `lznt1` crate expands a compressed stream to, `None` for a stream that it
/// refuses.
pub uninterp spec fn lznt1_output(stream: Seq<u8>) -> Option<Seq<u8>>;

/// Calls `lznt1::decompress` on a fresh buffer. Claimed: the result depends on the
/// stream alone and is the one named by `lznt1_output`. Nothing is said here of which
/// bytes a stream expands to.
#[verifier::external_body]
fn lznt1_decompress(stream: &[u8]) -> (r: Option<Vec<u8>>)
    ensures
        match r {
            Some(plain) => lznt1_output(stream@) == Some(plain@),
            None => lznt1_output(stream@) is None,
        },
{
    let mut plain = Vec::new();
    match lznt1::decompress(stream, &mut plain) {
        Ok(()) => Some(plain),
        Err(_) => None,
    }
}

/// The clusters taken from a runlist for one compression unit.
#[verifier::ext_equal]
pub struct Gathered {
    /// The bytes of the allocated clusters, in order.
    pub stored: Seq<u8>,
    /// How many clusters were allocated.
    pub solid: int,
    /// How many clusters were taken, holes included.
    pub got: int,
    /// The run that the next cluster comes from.
    pub run: int,
    /// How many clusters of that run are used up.
    pub used: int,
}

/// The allocated bytes among `take` clusters of `run`, after `used` clusters of it.
pub open spec fn part_of_run(
    image: Seq<u8>,
    run: Run,
    cluster_size: int,
    used: int,
    take: int,
) -> Result<Seq<u8>, NtfsError> {
    match run.lcn {
        None => Ok(Seq::empty()),
        Some(lcn) => if (lcn + used) * cluster_size > u64::MAX {
            Err(NtfsError::BadRunlist("LCN byte offset overflow"))
        } else if take * cluster_size > usize::MAX {
            Err(NtfsError::TooLarge { bytes: (take * cluster_size) as u64 })
        } else {
            source::fetched(image, (lcn + used) * cluster_size, take * cluster_size)
        },
    }
}

/// `rest`, preceded by what was gathered before.
pub open spec fn after(stored: Seq<u8>, solid: int, got: int, rest: Result<Gathered, NtfsError>) -> Result<
    Gathered,
    NtfsError,
> {
    match rest {
        Err(e) => Err(e),
        Ok(g) => Ok(
            Gathered { stored: stored + g.stored, solid: solid + g.solid, got: got + g.got, ..g },
        ),
    }
}

/// Up to `need` clusters from run `run` on, `used` clusters of which are used up.
pub open spec fn gathered(
    image: Seq<u8>,
    runs: Seq<Run>,
    cluster_size: int,
    run: int,
    used: int,
    need: int,
) -> Result<Gathered, NtfsError>
    decreases runs.len() - run, need,
{
    if need <= 0 || run >= runs.len() {
        Ok(Gathered { stored: Seq::empty(), solid: 0, got: 0, run, used })
    } else {
        let take = least(need, runs[run].length - used);
        let exhausted = used + take == runs[run].length;
        match part_of_run(image, runs[run], cluster_size, used, take) {
            Err(e) => Err(e),
            Ok(part) => after(
                part,
                if runs[run].lcn is Some {
                    take
                } else {
                    0
                },
                take,
                gathered(
                    image,
                    runs,
                    cluster_size,
                    if exhausted {
                        run + 1
                    } else {
                        run
                    },
                    if exhausted {
                        0
                    } else {
                        used + take
                    },
                    need - take,
                ),
            ),
        }
    }
}

/// How many clusters are left from run `run` on, `used` clusters of which are used up.
pub open spec fn clusters_left(runs: Seq<Run>, run: int, used: int) -> int
    decreases runs.len() - run,
{
    if run < 0 || run >= runs.len() {
        0
    } else {
        runs[run].length - used + clusters_left(runs, run + 1, 0)
    }
}

/// Whether a place in a runlist is one.
pub open spec fn place_ok(runs: Seq<Run>, run: int, used: int) -> bool {
    &&& 0 <= run <= runs.len()
    &&& 0 <= used
    &&& if run < runs.len() {
        used <= runs[run].length
    } else {
        used == 0
    }
}

/// Gathering moves forward by as many clusters as it takes.
pub proof fn lemma_gathered_advances(
    image: Seq<u8>,
    runs: Seq<Run>,
    cluster_size: int,
    run: int,
    used: int,
    need: int,
)
    requires
        place_ok(runs, run, used),
        0 <= need,
    ensures
        gathered(image, runs, cluster_size, run, used, need) matches Ok(g) ==> {
            &&& place_ok(runs, g.run, g.used)
            &&& 0 <= g.solid <= g.got <= need
            &&& clusters_left(runs, g.run, g.used) == clusters_left(runs, run, used) - g.got
        },
        clusters_left(runs, run, used) >= 0,
    decreases runs.len() - run, need,
{
    lemma_clusters_left_is_positive(runs, run, used);
    if need > 0 && run < runs.len() {
        let take = least(need, runs[run].length - used);
        if used + take == runs[run].length {
            lemma_gathered_advances(image, runs, cluster_size, run + 1, 0, need - take);
        } else {
            lemma_gathered_advances(image, runs, cluster_size, run, used + take, need - take);
        }
    }
}

/// No place in a runlist is past its last cluster.
pub proof fn lemma_clusters_left_is_positive(runs: Seq<Run>, run: int, used: int)
    requires
        place_ok(runs, run, used),
    ensures
        clusters_left(runs, run, used) >= 0,
    decreases runs.len() - run,
{
    if run < runs.len() {
        lemma_clusters_left_is_positive(runs, run + 1, 0);
    }
}

/// The bytes of one compression unit: zeroes when no cluster is allocated, the stored
/// bytes when all are, and else the expansion of the stored stream. `room` is what the
/// file still lacks.
pub open spec fn unit_bytes(stored: Seq<u8>, solid: int, unit: int, cluster_size: int, room: int) -> Result<
    Seq<u8>,
    NtfsError,
> {
    if solid == 0 {
        Ok(bytes::zeros(least(unit * cluster_size, room) as nat))
    } else if solid == unit {
        Ok(stored)
    } else {
        match lznt1_output(stored) {
            Some(plain) => Ok(plain),
            None => Err(NtfsError::BadCompression("malformed LZNT1 stream")),
        }
    }
}

/// `out` followed by the units from the given place on, until the file is complete or
/// the runs are exhausted.
pub open spec fn units_from(
    image: Seq<u8>,
    runs: Seq<Run>,
    cluster_size: int,
    unit: int,
    real_size: int,
    run: int,
    used: int,
    out: Seq<u8>,
) -> Result<Seq<u8>, NtfsError>
    decreases clusters_left(runs, run, used),
{
    if out.len() >= real_size || !place_ok(runs, run, used) || unit < 0 {
        Ok(out)
    } else {
        match gathered(image, runs, cluster_size, run, used, unit) {
            Err(e) => Err(e),
            Ok(g) => if g.got <= 0 {
                Ok(out)
            } else {
                match unit_bytes(g.stored, g.solid, unit, cluster_size, real_size - out.len()) {
                    Err(e) => Err(e),
                    Ok(piece) => {
                        proof {
                            lemma_gathered_advances(image, runs, cluster_size, run, used, unit);
                            lemma_clusters_left_is_positive(runs, g.run, g.used);
                        }
                        units_from(
                            image,
                            runs,
                            cluster_size,
                            unit,
                            real_size,
                            g.run,
                            g.used,
                            out + piece,
                        )
                    },
                }
            },
        }
    }
}

/// Whether reading a compressed file asks the source for any byte.
pub open spec fn units_are_read(
    runs: Seq<Run>,
    cluster_size: int,
    real_size: int,
    unit: int,
) -> bool {
    &&& 0 < real_size <= MAX_VALUE_BYTES
    &&& real_size <= usize::MAX
    &&& unit * cluster_size <= u64::MAX
    &&& has_stored(runs)
}

/// What a compressed file of `real_size` bytes holds whose compression unit is `unit`
/// clusters.
pub open spec fn compressed_value(
    image: Seq<u8>,
    runs: Seq<Run>,
    cluster_size: int,
    real_size: int,
    unit: int,
) -> Result<Seq<u8>, NtfsError> {
    if real_size > MAX_VALUE_BYTES {
        Err(NtfsError::TooLarge { bytes: real_size as u64 })
    } else if unit * cluster_size > u64::MAX {
        Err(NtfsError::BadRunlist("compression unit byte size overflow"))
    } else if real_size > usize::MAX {
        Err(NtfsError::TooLarge { bytes: real_size as u64 })
    } else {
        match units_from(image, runs, cluster_size, unit, real_size, 0, 0, Seq::empty()) {
            Err(e) => Err(e),
            Ok(out) => Ok(out.take(least(out.len() as int, real_size))),
        }
    }
}

/// `(lcn + used) * cluster_size`, when it fits in 64 bits.
fn byte_offset(lcn: u64, used: u64, cluster_size: u64) -> (r: Option<u64>)
    ensures
        match r {
            Some(offset) => offset == (lcn + used) * cluster_size,
            None => (lcn + used) * cluster_size > u64::MAX,
        },
{
    if cluster_size == 0 {
        assert((lcn + used) * 0 == 0);
        return Some(0);
    }
    match lcn.checked_add(used) {
        None => {
            assert((lcn + used) * cluster_size >= lcn + used) by (nonlinear_arith)
                requires
                    cluster_size >= 1,
            ;
            None
        },
        Some(cluster) => cluster.checked_mul(cluster_size),
    }
}

/// A place in a runlist: a run, and how many of its clusters are used up.
#[derive(Clone, Copy)]
struct Place {
    run: usize,
    used: u64,
}

/// One compression unit as it is stored.
struct StoredUnit {
    stored: Vec<u8>,
    solid: u64,
    got: u64,
}

/// Whether an executed gathering is the one that the model describes.
spec fn gathered_as(unit: StoredUnit, place: Place, g: Gathered) -> bool {
    &&& unit.stored@ == g.stored
    &&& unit.solid == g.solid
    &&& unit.got == g.got
    &&& place.run == g.run
    &&& place.used == g.used
}

/// Gathers the next `unit` clusters of the runs.
fn gather<R: ByteSource>(
    reader: &mut R,
    runs: &[Run],
    cluster_size: u64,
    unit: u64,
    start: Place,
) -> (r: Result<(StoredUnit, Place), NtfsError>)
    requires
        place_ok(runs@, start.run as int, start.used as int),
        unit * cluster_size <= u64::MAX,
    ensures
        final(reader).bytes() == old(reader).bytes(),
        final(reader).flaky() == old(reader).flaky(),
        match r {
            Ok((found, place)) => {
                gathered(
                    old(reader).bytes(),
                    runs@,
                    cluster_size as int,
                    start.run as int,
                    start.used as int,
                    unit as int,
                ) matches Ok(g) && gathered_as(found, place, g)
            },
            Err(e) => {
                (old(reader).flaky() && has_stored(runs@) && source::source_failed(e)) || gathered(
                    old(reader).bytes(),
                    runs@,
                    cluster_size as int,
                    start.run as int,
                    start.used as int,
                    unit as int,
                ) == Err::<Gathered, NtfsError>(e)
            },
        },
{
    let ghost image = reader.bytes();
    let ghost flaky = reader.flaky();
    let ghost whole = gathered(
        image,
        runs@,
        cluster_size as int,
        start.run as int,
        start.used as int,
        unit as int,
    );
    let mut stored: Vec<u8> = Vec::new();
    let mut solid: u64 = 0;
    let mut got: u64 = 0;
    let mut run: usize = start.run;
    let mut used: u64 = start.used;
    proof {
        if let Ok(g) = whole {
            assert(Seq::<u8>::empty() + g.stored =~= g.stored);
        }
    }
    while got < unit && run < runs.len()
        invariant
            got <= unit,
            solid <= got,
            unit * cluster_size <= u64::MAX,
            place_ok(runs@, run as int, used as int),
            reader.bytes() == image,
            reader.flaky() == flaky,
            image == old(reader).bytes(),
            flaky == old(reader).flaky(),
            whole == gathered(
                image,
                runs@,
                cluster_size as int,
                start.run as int,
                start.used as int,
                unit as int,
            ),
            whole == after(
                stored@,
                solid as int,
                got as int,
                gathered(
                    image,
                    runs@,
                    cluster_size as int,
                    run as int,
                    used as int,
                    unit - got,
                ),
            ),
        decreases runs.len() - run, unit - got,
    {
        let left: u64 = runs[run].length - used;
        let take: u64 = if unit - got < left {
            unit - got
        } else {
            left
        };
        let ghost before = stored@;
        let ghost part: Seq<u8> = Seq::empty();
        let ghost taken_real: int = 0;
        let ghost rest = gathered(
            image,
            runs@,
            cluster_size as int,
            if used + take == runs@[run as int].length {
                run + 1
            } else {
                run as int
            },
            if used + take == runs@[run as int].length {
                0
            } else {
                used + take
            },
            unit - got - take,
        );
        let ghost real_before = solid as int;
        let ghost got_before = got as int;
        match runs[run].lcn {
            None => {},
            Some(lcn) => {
                let offset: u64 = match byte_offset(lcn, used, cluster_size) {
                    Some(o) => o,
                    None => {
                        return Err(NtfsError::BadRunlist("LCN byte offset overflow"));
                    },
                };
                assert(take * cluster_size <= unit * cluster_size) by (nonlinear_arith)
                    requires
                        take <= unit,
                ;
                let wanted: u64 = take * cluster_size;
                if wanted > usize::MAX as u64 {
                    return Err(NtfsError::TooLarge { bytes: wanted });
                }
                match source::read_exact_at(reader, offset, wanted as usize) {
                    Ok(found) => {
                        bytes::append(&mut stored, found.as_slice());
                        proof {
                            part = found@;
                            taken_real = take as int;
                        }
                    },
                    Err(e) => {
                        return Err(e);
                    },
                }
                solid = solid + take;
            },
        }
        proof {
            lemma_after_after(
                before,
                real_before,
                got_before,
                part,
                taken_real,
                take as int,
                rest,
            );
            assert(before + Seq::<u8>::empty() =~= before);
        }
        got = got + take;
        if take == left {
            run += 1;
            used = 0;
        } else {
            used = used + take;
        }
    }
    assert(stored@ + Seq::<u8>::empty() =~= stored@);
    Ok((StoredUnit { stored, solid, got }, Place { run, used }))
}

proof fn lemma_after_after(
    a: Seq<u8>,
    real_a: int,
    got_a: int,
    b: Seq<u8>,
    real_b: int,
    got_b: int,
    rest: Result<Gathered, NtfsError>,
)
    ensures
        after(a, real_a, got_a, after(b, real_b, got_b, rest)) == after(
            a + b,
            real_a + real_b,
            got_a + got_b,
            rest,
        ),
{
    if let Ok(g) = rest {
        assert(a + (b + g.stored) =~= (a + b) + g.stored);
    }
}

/// What one compression unit contributes to a file.
#[derive(Debug, Clone)]
pub enum UnitContent {
    /// No cluster is allocated.
    Hole,
    /// Every cluster is allocated: the bytes as they are stored.
    Verbatim(Vec<u8>),
    /// Some clusters are allocated: the expansion of the stream in them, `None` when
    /// the stream is malformed.
    Expanded(Option<Vec<u8>>),
}

/// The bytes that a unit's content adds to a file that lacks `room` bytes.
pub open spec fn content_bytes(content: UnitContent, unit_size: int, room: int) -> Result<
    Seq<u8>,
    NtfsError,
> {
    match content {
        UnitContent::Hole => Ok(bytes::zeros(least(unit_size, room) as nat)),
        UnitContent::Verbatim(stored) => Ok(stored@),
        UnitContent::Expanded(Some(plain)) => Ok(plain@),
        UnitContent::Expanded(None) => Err(NtfsError::BadCompression("malformed LZNT1 stream")),
    }
}

/// Appends one compression unit of `unit_size` bytes to a file that is to have
/// `real_size` bytes.
///
/// # Errors
///
/// [`NtfsError::BadCompression`] for a malformed stream; `out` is then unchanged.
pub fn append_unit(out: &mut Vec<u8>, content: UnitContent, unit_size: u64, real_size: u64) -> (r:
    Result<(), NtfsError>)
    requires
        old(out)@.len() <= real_size <= usize::MAX,
    ensures
        match content_bytes(content, unit_size as int, real_size - old(out)@.len()) {
            Ok(piece) => r is Ok && final(out)@ == old(out)@ + piece,
            Err(e) => r == Err::<(), NtfsError>(e) && final(out)@ == old(out)@,
        },
{
    match content {
        UnitContent::Hole => {
            let room: u64 = real_size - out.len() as u64;
            let want: u64 = if unit_size < room {
                unit_size
            } else {
                room
            };
            bytes::append_zeros(out, want as usize);
            Ok(())
        },
        UnitContent::Verbatim(stored) => {
            bytes::append(out, stored.as_slice());
            Ok(())
        },
        UnitContent::Expanded(Some(plain)) => {
            bytes::append(out, plain.as_slice());
            Ok(())
        },
        UnitContent::Expanded(None) => Err(NtfsError::BadCompression("malformed LZNT1 stream")),
    }
}

/// Reads a COMPRESSED non-resident attribute, LZNT1-decompressing each compression
/// unit. NTFS stores a compressed file in `unit_clusters`-cluster units; within a unit
/// the data is either: fully allocated (stored uncompressed, copied verbatim),
/// partially allocated then sparse-padded (the allocated clusters hold the LZNT1
/// stream, decompressed), or fully sparse (a unit of zeroes). The result is truncated
/// to `real_size`.
///
/// # Errors
///
/// [`NtfsError::TooLarge`] for an implausible size, [`NtfsError::BadRunlist`] on
/// arithmetic overflow, [`NtfsError::BadCompression`] on a malformed LZNT1 stream, or
/// [`NtfsError::Io`] on read failure.
fn read_compressed_runs<R: ByteSource>(
    reader: &mut R,
    runs: &[Run],
    cluster_size: u64,
    real_size: u64,
    unit_clusters: u64,
) -> (r: Result<Vec<u8>, NtfsError>)
    ensures
        final(reader).bytes() == old(reader).bytes(),
        final(reader).flaky() == old(reader).flaky(),
        source::delivered(
            walk::model(r),
            compressed_value(
                old(reader).bytes(),
                runs@,
                cluster_size as int,
                real_size as int,
                unit_clusters as int,
            ),
            old(reader).flaky() && units_are_read(
                runs@,
                cluster_size as int,
                real_size as int,
                unit_clusters as int,
            ),
        ),
{
    if real_size > MAX_VALUE_BYTES {
        return Err(NtfsError::TooLarge { bytes: real_size });
    }
    let unit_size: u64 = match unit_clusters.checked_mul(cluster_size) {
        Some(b) => b,
        None => {
            return Err(NtfsError::BadRunlist("compression unit byte size overflow"));
        },
    };
    if real_size > usize::MAX as u64 {
        return Err(NtfsError::TooLarge { bytes: real_size });
    }
    let ghost image = reader.bytes();
    let ghost flaky = reader.flaky();
    let ghost whole = units_from(
        image,
        runs@,
        cluster_size as int,
        unit_clusters as int,
        real_size as int,
        0,
        0,
        Seq::empty(),
    );
    let mut out: Vec<u8> = Vec::new();
    let mut place = Place { run: 0, used: 0 };
    while (out.len() as u64) < real_size
        invariant_except_break
            place_ok(runs@, place.run as int, place.used as int),
            whole == units_from(
                image,
                runs@,
                cluster_size as int,
                unit_clusters as int,
                real_size as int,
                place.run as int,
                place.used as int,
                out@,
            ),
        invariant
            unit_size == unit_clusters * cluster_size,
            real_size <= usize::MAX,
            real_size <= MAX_VALUE_BYTES,
            reader.bytes() == image,
            reader.flaky() == flaky,
            image == old(reader).bytes(),
            flaky == old(reader).flaky(),
            compressed_value(
                image,
                runs@,
                cluster_size as int,
                real_size as int,
                unit_clusters as int,
            ) == (match whole {
                Err(e) => Err::<Seq<u8>, NtfsError>(e),
                Ok(o) => Ok(o.take(least(o.len() as int, real_size as int))),
            }),
        ensures
            whole == Ok::<Seq<u8>, NtfsError>(out@),
        decreases clusters_left(runs@, place.run as int, place.used as int),
    {
        proof {
            lemma_gathered_advances(
                image,
                runs@,
                cluster_size as int,
                place.run as int,
                place.used as int,
                unit_clusters as int,
            );
        }
        let (unit, next) = match gather(reader, runs, cluster_size, unit_clusters, place) {
            Ok(found) => found,
            Err(e) => {
                return Err(e);
            },
        };
        if unit.got == 0 {
            break;
        }
        proof {
            lemma_clusters_left_is_positive(runs@, next.run as int, next.used as int);
        }
        let content = if unit.solid == 0 {
            UnitContent::Hole
        } else if unit.solid == unit_clusters {
            UnitContent::Verbatim(unit.stored)
        } else {
            UnitContent::Expanded(lznt1_decompress(unit.stored.as_slice()))
        };
        match append_unit(&mut out, content, unit_size, real_size) {
            Ok(_) => {},
            Err(e) => {
                return Err(e);
            },
        }
        place = next;
    }
    let ghost complete = out@;
    out.truncate(real_size as usize);
    assert(out@ =~= complete.take(least(complete.len() as int, real_size as int)));
    Ok(out)
}

/// What the runs of a stream hold: decompressed when the stream is compressed in units
/// of `2^shift` clusters. `offset` is where the attribute lies in its record.
pub open spec fn stream_value(
    image: Seq<u8>,
    runs: Seq<Run>,
    cluster_size: int,
    real_size: int,
    compressed: bool,
    shift: u16,
    offset: usize,
) -> Result<Seq<u8>, NtfsError> {
    if compressed && shift != 0 {
        if shift >= 64 {
            Err(NtfsError::BadAttribute { offset, detail: "implausible compression unit" })
        } else {
            compressed_value(
                image,
                runs,
                cluster_size,
                real_size,
                vstd::arithmetic::power2::pow2(shift as nat) as int,
            )
        }
    } else {
        runs_value(image, runs, cluster_size, real_size)
    }
}

/// Whether reading a stream asks the source for any byte.
pub open spec fn stream_is_read(
    runs: Seq<Run>,
    cluster_size: int,
    real_size: int,
    compressed: bool,
    shift: u16,
) -> bool {
    if compressed && shift != 0 {
        shift < 64 && units_are_read(
            runs,
            cluster_size,
            real_size,
            vstd::arithmetic::power2::pow2(shift as nat) as int,
        )
    } else {
        runs_are_read(runs, cluster_size, real_size)
    }
}

/// Whether reading the value of an attribute asks the source for any byte: a resident
/// value lies in the record.
pub open spec fn attribute_is_read(
    record: Seq<u8>,
    attribute: AttributeView,
    cluster_size: int,
) -> bool {
    match attribute.body {
        AttributeBody::Resident { .. } => false,
        AttributeBody::NonResident { real_size, .. } => runlist_of(record, attribute) matches Ok(
            runs,
        ) && stream_is_read(
            runs,
            cluster_size,
            real_size as int,
            attribute.compressed(),
            attribute.unit_shift(),
        ),
    }
}

/// The value of an attribute that lies in `record`.
pub open spec fn attribute_value(
    image: Seq<u8>,
    record: Seq<u8>,
    attribute: AttributeView,
    cluster_size: int,
) -> Result<Seq<u8>, NtfsError> {
    match attribute.body {
        AttributeBody::Resident { .. } => match attribute.content_in(record) {
            Some(content) => Ok(content),
            None => Err(
                NtfsError::BadAttribute {
                    offset: attribute.offset,
                    detail: "resident content out of bounds",
                },
            ),
        },
        AttributeBody::NonResident { real_size, .. } => match runlist_of(record, attribute) {
            Err(e) => Err(e),
            Ok(runs) => stream_value(
                image,
                runs,
                cluster_size,
                real_size as int,
                attribute.compressed(),
                attribute.unit_shift(),
                attribute.offset,
            ),
        },
    }
}

/// `2^shift`.
fn one_shifted(shift: u16) -> (r: u64)
    requires
        shift < 64,
    ensures
        r == vstd::arithmetic::power2::pow2(shift as nat),
{
    proof {
        vstd::arithmetic::power2::lemma2_to64();
        vstd::arithmetic::power2::lemma2_to64_rest();
    }
    let mut value: u64 = 1;
    let mut i: u16 = 0;
    while i < shift
        invariant
            i <= shift < 64,
            value == vstd::arithmetic::power2::pow2(i as nat),
        decreases shift - i,
    {
        proof {
            vstd::arithmetic::power2::lemma2_to64();
            vstd::arithmetic::power2::lemma2_to64_rest();
            vstd::arithmetic::power2::lemma_pow2_unfold((i + 1) as nat);
            if i + 1 < 63 {
                vstd::arithmetic::power2::lemma_pow2_strictly_increases((i + 1) as nat, 63);
            }
        }
        value = value * 2;
        i += 1;
    }
    value
}

/// Reads what the runs of a stream hold, decompressing where the stream is compressed.
///
/// # Errors
///
/// As [`read_runs`], plus [`NtfsError::BadAttribute`] for an implausible compression
/// unit and [`NtfsError::BadCompression`] for a malformed stream.
pub fn read_stream<R: ByteSource>(
    reader: &mut R,
    runs: &[Run],
    cluster_size: u64,
    real_size: u64,
    compressed: bool,
    shift: u16,
    offset: usize,
) -> (r: Result<Vec<u8>, NtfsError>)
    ensures
        final(reader).bytes() == old(reader).bytes(),
        final(reader).flaky() == old(reader).flaky(),
        source::delivered(
            walk::model(r),
            stream_value(
                old(reader).bytes(),
                runs@,
                cluster_size as int,
                real_size as int,
                compressed,
                shift,
                offset,
            ),
            old(reader).flaky() && stream_is_read(
                runs@,
                cluster_size as int,
                real_size as int,
                compressed,
                shift,
            ),
        ),
{
    if compressed && shift != 0 {
        if shift >= 64 {
            return Err(
                NtfsError::BadAttribute { offset, detail: "implausible compression unit" },
            );
        }
        let unit: u64 = one_shifted(shift);
        read_compressed_runs(reader, runs, cluster_size, real_size, unit)
    } else {
        read_runs(reader, runs, cluster_size, real_size)
    }
}

/// Reads an attribute's value, dispatching on resident vs non-resident.
///
/// `record` is the (fixed-up) MFT record the attribute lives in; `reader` is the
/// volume; `cluster_size` is from the boot sector.
///
/// # Errors
///
/// As [`read_stream`], plus [`NtfsError::BadAttribute`] when a resident value or the
/// runlist slice is out of bounds.
pub fn read_attribute_value<R: ByteSource>(
    reader: &mut R,
    record: &[u8],
    attribute: &Attribute,
    cluster_size: u64,
) -> (r: Result<Vec<u8>, NtfsError>)
    ensures
        final(reader).bytes() == old(reader).bytes(),
        final(reader).flaky() == old(reader).flaky(),
        source::delivered(
            walk::model(r),
            attribute_value(old(reader).bytes(), record@, attribute@, cluster_size as int),
            old(reader).flaky() && attribute_is_read(record@, attribute@, cluster_size as int),
        ),
{
    match attribute.body {
        AttributeBody::Resident { .. } => match attribute.resident_content(record) {
            Some(content) => Ok(vstd::slice::slice_to_vec(content)),
            None => Err(
                NtfsError::BadAttribute {
                    offset: attribute.offset,
                    detail: "resident content out of bounds",
                },
            ),
        },
        AttributeBody::NonResident { real_size, .. } => {
            let runs = match attribute_runlist(record, attribute) {
                Ok(runs) => runs,
                Err(e) => {
                    return Err(e);
                },
            };
            read_stream(
                reader,
                runs.as_slice(),
                cluster_size,
                real_size,
                attribute.is_compressed(),
                attribute.compression_unit(),
                attribute.offset,
            )
        },
    }
}

/// How many bytes the runs from `i` on allocate.
pub open spec fn bytes_left(runs: Seq<Run>, cluster_size: int, i: int) -> int
    decreases runs.len() - i,
{
    if i < 0 || i >= runs.len() {
        0
    } else {
        runs[i].length * cluster_size + bytes_left(runs, cluster_size, i + 1)
    }
}

/// The byte that a file has at `offset`, counted from the start of run `i`: 0 in a hole,
/// and else the byte of the image that the run maps it to.
pub open spec fn virtual_byte(
    image: Seq<u8>,
    runs: Seq<Run>,
    cluster_size: int,
    i: int,
    offset: int,
) -> u8
    decreases runs.len() - i,
{
    if i < 0 || i >= runs.len() {
        0
    } else if offset < runs[i].length * cluster_size {
        match runs[i].lcn {
            None => 0,
            Some(lcn) => image[lcn * cluster_size + offset],
        }
    } else {
        virtual_byte(image, runs, cluster_size, i + 1, offset - runs[i].length * cluster_size)
    }
}

proof fn lemma_bytes_left_snoc(runs: Seq<Run>, cluster_size: int, i: int)
    requires
        0 <= i < runs.len(),
    ensures
        bytes_left(runs, cluster_size, i) == bytes_left(runs.drop_last(), cluster_size, i)
            + runs.last().length * cluster_size,
    decreases runs.len() - i,
{
    if i == runs.len() - 1 {
        assert(bytes_left(runs, cluster_size, i + 1) == 0);
        assert(bytes_left(runs.drop_last(), cluster_size, i) == 0);
    } else {
        lemma_bytes_left_snoc(runs, cluster_size, i + 1);
        assert(runs.drop_last()[i] == runs[i]);
    }
}

/// What is allocated is the sum over the runs.
pub proof fn lemma_allocated_is_the_sum(runs: Seq<Run>, cluster_size: int)
    requires
        0 <= cluster_size,
    ensures
        allocated(runs, cluster_size) matches Ok(total) ==> total == bytes_left(
            runs,
            cluster_size,
            0,
        ),
    decreases runs.len(),
{
    if runs.len() > 0 {
        lemma_allocated_is_the_sum(runs.drop_last(), cluster_size);
        lemma_bytes_left_snoc(runs, cluster_size, 0);
    }
}

proof fn lemma_run_size(run: Run, cluster_size: int)
    requires
        0 <= cluster_size,
    ensures
        0 <= run.length * cluster_size,
{
    assert(0 <= run.length * cluster_size) by (nonlinear_arith)
        requires
            0 <= cluster_size,
            0 <= run.length,
    ;
}

/// Runs never allocate less than nothing.
pub proof fn lemma_bytes_left_is_positive(runs: Seq<Run>, cluster_size: int, i: int)
    requires
        0 <= cluster_size,
    ensures
        0 <= bytes_left(runs, cluster_size, i),
    decreases runs.len() - i,
{
    if 0 <= i < runs.len() {
        lemma_run_size(runs[i], cluster_size);
        lemma_bytes_left_is_positive(runs, cluster_size, i + 1);
    }
}

proof fn lemma_bytes_from_content(
    image: Seq<u8>,
    runs: Seq<Run>,
    cluster_size: int,
    i: int,
    remaining: int,
)
    requires
        0 <= i,
        0 <= remaining,
        0 <= cluster_size,
    ensures
        bytes_from(image, runs, cluster_size, i, remaining) matches Ok(v) ==> {
            &&& v.len() == least(remaining, bytes_left(runs, cluster_size, i))
            &&& forall|j: int|
                0 <= j < v.len() ==> #[trigger] v[j] == virtual_byte(image, runs, cluster_size, i, j)
        },
    decreases runs.len() - i,
{
    lemma_bytes_left_is_positive(runs, cluster_size, i);
    if remaining > 0 && i < runs.len() {
        lemma_run_size(runs[i], cluster_size);
        let size = runs[i].length * cluster_size;
        let take = least(size, remaining);
        lemma_bytes_left_is_positive(runs, cluster_size, i + 1);
        if let Ok(piece) = run_piece(image, runs[i], cluster_size, take) {
            lemma_bytes_from_content(image, runs, cluster_size, i + 1, remaining - take);
            if let Ok(rest) = bytes_from(image, runs, cluster_size, i + 1, remaining - take) {
                let v = piece + rest;
                assert forall|j: int| 0 <= j < v.len() implies #[trigger] v[j] == virtual_byte(
                    image,
                    runs,
                    cluster_size,
                    i,
                    j,
                ) by {
                    if j >= take {
                        assert(v[j] == rest[j - take]);
                    } else {
                        assert(v[j] == piece[j]);
                    }
                }
            }
        }
    }
}

/// A file that is read has `min(real_size, allocated)` bytes, and each is the byte that
/// the runs map its place to: zero in a hole.
pub proof fn law_file_bytes_are_where_the_runs_say(
    image: Seq<u8>,
    runs: Seq<Run>,
    cluster_size: int,
    real_size: int,
)
    requires
        0 <= cluster_size,
        0 <= real_size,
    ensures
        runs_value(image, runs, cluster_size, real_size) matches Ok(v) ==> {
            &&& v.len() == least(real_size, bytes_left(runs, cluster_size, 0))
            &&& forall|j: int|
                0 <= j < v.len() ==> #[trigger] v[j] == virtual_byte(image, runs, cluster_size, 0, j)
        },
{
    lemma_allocated_is_the_sum(runs, cluster_size);
    lemma_bytes_left_is_positive(runs, cluster_size, 0);
    if let Ok(total) = allocated(runs, cluster_size) {
        lemma_bytes_from_content(image, runs, cluster_size, 0, least(real_size, total));
    }
}

/// A runlist of holes alone reads as zeroes whatever the image holds: no byte of it is
/// fetched.
pub proof fn law_holes_read_as_zeroes(
    image: Seq<u8>,
    runs: Seq<Run>,
    cluster_size: int,
    i: int,
    remaining: int,
)
    requires
        0 <= i,
        0 <= remaining,
        0 <= cluster_size,
        forall|k: int| 0 <= k < runs.len() ==> (#[trigger] runs[k]).lcn is None,
    ensures
        bytes_from(image, runs, cluster_size, i, remaining) == Ok::<Seq<u8>, NtfsError>(
            bytes::zeros(least(remaining, bytes_left(runs, cluster_size, i)) as nat),
        ),
    decreases runs.len() - i,
{
    lemma_bytes_left_is_positive(runs, cluster_size, i);
    if remaining > 0 && i < runs.len() {
        lemma_run_size(runs[i], cluster_size);
        lemma_bytes_left_is_positive(runs, cluster_size, i + 1);
        let take = least(runs[i].length * cluster_size, remaining);
        law_holes_read_as_zeroes(image, runs, cluster_size, i + 1, remaining - take);
        assert(bytes::zeros(take as nat) + bytes::zeros(
            least(remaining - take, bytes_left(runs, cluster_size, i + 1)) as nat,
        ) =~= bytes::zeros(least(remaining, bytes_left(runs, cluster_size, i)) as nat));
    } else {
        assert(bytes::zeros(0) =~= Seq::<u8>::empty());
    }
}

/// A compressed file never has more bytes than its real size.
pub proof fn law_compressed_value_is_cut_to_size(
    image: Seq<u8>,
    runs: Seq<Run>,
    cluster_size: int,
    real_size: int,
    unit: int,
)
    requires
        0 <= real_size,
    ensures
        compressed_value(image, runs, cluster_size, real_size, unit) matches Ok(v) ==> v.len()
            <= real_size,
{
}

/// The first `n` bytes of a value, or all of it when it is shorter.
pub open spec fn leading(value: Seq<u8>, n: int) -> Seq<u8> {
    value.take(least(value.len() as int, n))
}

proof fn lemma_run_prefix(image: Seq<u8>, run: Run, cluster_size: int, fewer: int, take: int)
    requires
        0 <= fewer <= take,
        0 <= cluster_size,
        run_piece(image, run, cluster_size, take) is Ok,
    ensures
        run_piece(image, run, cluster_size, take)->Ok_0.len() == take,
        run_piece(image, run, cluster_size, fewer) == Ok::<Seq<u8>, NtfsError>(
            run_piece(image, run, cluster_size, take)->Ok_0.take(fewer),
        ),
{
    let piece = run_piece(image, run, cluster_size, take)->Ok_0;
    match run.lcn {
        None => {
            assert(bytes::zeros(fewer as nat) =~= piece.take(fewer));
        },
        Some(lcn) => {
            let at = lcn * cluster_size;
            assert(0 <= at) by (nonlinear_arith)
                requires
                    at == lcn * cluster_size,
                    0 <= lcn,
                    0 <= cluster_size,
            ;
            if fewer == 0 {
                assert(piece.take(0) =~= Seq::empty());
            } else {
                assert(image.subrange(at, at + fewer) =~= piece.take(fewer));
            }
        },
    }
}

proof fn lemma_bytes_prefix(
    image: Seq<u8>,
    runs: Seq<Run>,
    cluster_size: int,
    i: int,
    fewer: int,
    remaining: int,
)
    requires
        0 <= i,
        0 <= fewer <= remaining,
        0 <= cluster_size,
        bytes_from(image, runs, cluster_size, i, remaining) is Ok,
    ensures
        bytes_from(image, runs, cluster_size, i, fewer) == Ok::<Seq<u8>, NtfsError>(
            leading(bytes_from(image, runs, cluster_size, i, remaining)->Ok_0, fewer),
        ),
    decreases runs.len() - i,
{
    let whole = bytes_from(image, runs, cluster_size, i, remaining)->Ok_0;
    if fewer == 0 || i >= runs.len() {
        assert(leading(whole, fewer) =~= Seq::empty());
    } else {
        lemma_run_size(runs[i], cluster_size);
        let size = runs[i].length * cluster_size;
        let take = least(size, remaining);
        let less = least(size, fewer);
        lemma_run_prefix(image, runs[i], cluster_size, less, take);
        let piece = run_piece(image, runs[i], cluster_size, take)->Ok_0;
        let rest = bytes_from(image, runs, cluster_size, i + 1, remaining - take)->Ok_0;
        assert(whole == piece + rest);
        if fewer <= size {
            assert(bytes_from(image, runs, cluster_size, i + 1, fewer - less) == Ok::<
                Seq<u8>,
                NtfsError,
            >(Seq::empty()));
            assert(piece.take(fewer) + Seq::<u8>::empty() =~= leading(whole, fewer));
        } else {
            lemma_bytes_prefix(
                image,
                runs,
                cluster_size,
                i + 1,
                fewer - take,
                remaining - take,
            );
            assert(piece.take(less) =~= piece);
            assert(piece + leading(rest, fewer - take) =~= leading(whole, fewer));
        }
    }
}

/// The units only ever add to what is there.
proof fn lemma_units_extend(
    image: Seq<u8>,
    runs: Seq<Run>,
    cluster_size: int,
    unit: int,
    real_size: int,
    run: int,
    used: int,
    out: Seq<u8>,
)
    ensures
        units_from(image, runs, cluster_size, unit, real_size, run, used, out) matches Ok(v) ==> {
            &&& out.len() <= v.len()
            &&& v.take(out.len() as int) == out
        },
    decreases clusters_left(runs, run, used),
{
    if out.len() >= real_size || !place_ok(runs, run, used) || unit < 0 {
        assert(out.take(out.len() as int) =~= out);
    } else if let Ok(g) = gathered(image, runs, cluster_size, run, used, unit) {
        assert(out.take(out.len() as int) =~= out);
        if g.got > 0 {
            if let Ok(piece) = unit_bytes(
                g.stored,
                g.solid,
                unit,
                cluster_size,
                real_size - out.len(),
            ) {
                lemma_gathered_advances(image, runs, cluster_size, run, used, unit);
                lemma_clusters_left_is_positive(runs, g.run, g.used);
                lemma_units_extend(
                    image,
                    runs,
                    cluster_size,
                    unit,
                    real_size,
                    g.run,
                    g.used,
                    out + piece,
                );
                if let Ok(v) = units_from(
                    image,
                    runs,
                    cluster_size,
                    unit,
                    real_size,
                    g.run,
                    g.used,
                    out + piece,
                ) {
                    assert(v.take(out.len() as int) =~= v.take((out + piece).len() as int).take(
                        out.len() as int,
                    ));
                    assert((out + piece).take(out.len() as int) =~= out);
                }
            }
        }
    }
}

proof fn lemma_units_prefix(
    image: Seq<u8>,
    runs: Seq<Run>,
    cluster_size: int,
    unit: int,
    fewer: int,
    real_size: int,
    run: int,
    used: int,
    out: Seq<u8>,
)
    requires
        0 <= fewer <= real_size,
        0 <= cluster_size,
        units_from(image, runs, cluster_size, unit, real_size, run, used, out) is Ok,
    ensures
        units_from(image, runs, cluster_size, unit, fewer, run, used, out) matches Ok(v) && leading(
            v,
            fewer,
        ) == leading(
            units_from(image, runs, cluster_size, unit, real_size, run, used, out)->Ok_0,
            fewer,
        ),
    decreases clusters_left(runs, run, used),
{
    let whole = units_from(image, runs, cluster_size, unit, real_size, run, used, out)->Ok_0;
    lemma_units_extend(image, runs, cluster_size, unit, real_size, run, used, out);
    if out.len() >= fewer {
        assert(leading(out, fewer) =~= leading(whole, fewer)) by {
            assert(whole.take(out.len() as int).take(fewer) =~= whole.take(fewer));
        }
    } else if place_ok(runs, run, used) && unit >= 0 {
        let g = gathered(image, runs, cluster_size, run, used, unit)->Ok_0;
        if g.got > 0 {
            lemma_gathered_advances(image, runs, cluster_size, run, used, unit);
            lemma_clusters_left_is_positive(runs, g.run, g.used);
            let piece = unit_bytes(
                g.stored,
                g.solid,
                unit,
                cluster_size,
                real_size - out.len(),
            )->Ok_0;
            let shorter = unit_bytes(
                g.stored,
                g.solid,
                unit,
                cluster_size,
                fewer - out.len(),
            )->Ok_0;
            assert(0 <= unit * cluster_size) by (nonlinear_arith)
                requires
                    0 <= unit,
                    0 <= cluster_size,
            ;
            if g.solid == 0 && unit * cluster_size > fewer - out.len() {
                // The hole reaches past the end of the shorter file.
                let next = out + shorter;
                assert(next.len() == fewer);
                lemma_units_extend(
                    image,
                    runs,
                    cluster_size,
                    unit,
                    real_size,
                    g.run,
                    g.used,
                    out + piece,
                );
                assert(next =~= leading(whole, fewer)) by {
                    assert(whole.take((out + piece).len() as int) == out + piece);
                    assert(whole.take(fewer) =~= (out + piece).take(fewer));
                }
                assert(leading(next, fewer) =~= next);
                assert(units_from(
                    image,
                    runs,
                    cluster_size,
                    unit,
                    fewer,
                    g.run,
                    g.used,
                    next,
                ) == Ok::<Seq<u8>, NtfsError>(next));
            } else {
                assert(shorter == piece);
                lemma_units_prefix(
                    image,
                    runs,
                    cluster_size,
                    unit,
                    fewer,
                    real_size,
                    g.run,
                    g.used,
                    out + piece,
                );
            }
        }
    }
}

/// A stream that is read with a smaller size gives the leading bytes of what the larger
/// size gives.
pub proof fn law_shorter_reads_are_prefixes(
    image: Seq<u8>,
    runs: Seq<Run>,
    cluster_size: int,
    fewer: int,
    real_size: int,
    compressed: bool,
    shift: u16,
    offset: usize,
)
    requires
        0 <= fewer <= real_size,
        0 <= cluster_size,
        stream_value(image, runs, cluster_size, real_size, compressed, shift, offset) is Ok,
    ensures
        stream_value(image, runs, cluster_size, fewer, compressed, shift, offset) == Ok::<
            Seq<u8>,
            NtfsError,
        >(
            leading(
                stream_value(
                    image,
                    runs,
                    cluster_size,
                    real_size,
                    compressed,
                    shift,
                    offset,
                )->Ok_0,
                fewer,
            ),
        ),
{
    let whole = stream_value(
        image,
        runs,
        cluster_size,
        real_size,
        compressed,
        shift,
        offset,
    )->Ok_0;
    if compressed && shift != 0 {
        let unit = vstd::arithmetic::power2::pow2(shift as nat) as int;
        lemma_units_prefix(
            image,
            runs,
            cluster_size,
            unit,
            fewer,
            real_size,
            0,
            0,
            Seq::empty(),
        );
        let all = units_from(
            image,
            runs,
            cluster_size,
            unit,
            real_size,
            0,
            0,
            Seq::empty(),
        )->Ok_0;
        assert(whole == leading(all, real_size));
        assert(leading(whole, fewer) =~= leading(all, fewer));
    } else {
        let total = allocated(runs, cluster_size)->Ok_0;
        lemma_allocated_is_the_sum(runs, cluster_size);
        lemma_bytes_left_is_positive(runs, cluster_size, 0);
        let want = least(real_size, total);
        let less = least(fewer, total);
        lemma_bytes_prefix(image, runs, cluster_size, 0, less, want);
        lemma_bytes_from_content(image, runs, cluster_size, 0, want);
        assert(leading(whole, less) =~= leading(whole, fewer));
    }
}

/// A stream never holds more than the size that it is read with.
pub proof fn lemma_stream_is_bounded(
    image: Seq<u8>,
    runs: Seq<Run>,
    cluster_size: int,
    real_size: int,
    compressed: bool,
    shift: u16,
    offset: usize,
)
    requires
        0 <= real_size,
        0 <= cluster_size,
    ensures
        stream_value(image, runs, cluster_size, real_size, compressed, shift, offset) matches Ok(
            v,
        ) ==> v.len() <= real_size,
{
    if !(compressed && shift != 0) {
        law_file_bytes_are_where_the_runs_say(image, runs, cluster_size, real_size);
    }
}

/// How many clusters from a place on are stored before the first hole.
pub open spec fn leading_stored(runs: Seq<Run>, run: int, used: int) -> int
    decreases runs.len() - run,
{
    if run < 0 || run >= runs.len() {
        0
    } else if runs[run].lcn is None && used < runs[run].length {
        0
    } else {
        runs[run].length - used + leading_stored(runs, run + 1, 0)
    }
}

proof fn lemma_scaled(a: int, b: int, c: int)
    requires
        0 <= a <= b,
        0 <= c,
    ensures
        0 <= a * c <= b * c,
        b * c - a * c == (b - a) * c,
        (a + b) * c == a * c + b * c,
{
    assert(0 <= a * c <= b * c && b * c - a * c == (b - a) * c && (a + b) * c == a * c + b * c)
        by (nonlinear_arith)
        requires
            0 <= a <= b,
            0 <= c,
    ;
}

proof fn lemma_leading_is_positive(runs: Seq<Run>, run: int, used: int)
    requires
        place_ok(runs, run, used),
    ensures
        0 <= leading_stored(runs, run, used) <= clusters_left(runs, run, used),
    decreases runs.len() - run,
{
    if run < runs.len() {
        lemma_leading_is_positive(runs, run + 1, 0);
        lemma_clusters_left_is_positive(runs, run + 1, 0);
    }
}

/// The bytes of a run's clusters are those that the run maps its file bytes to.
proof fn lemma_part_is_mapped(
    image: Seq<u8>,
    runs: Seq<Run>,
    cluster_size: int,
    run: int,
    used: int,
    take: int,
)
    requires
        0 <= run < runs.len(),
        0 <= used,
        0 <= take,
        used + take <= runs[run].length,
        0 <= cluster_size,
        runs[run].lcn is Some,
        part_of_run(image, runs[run], cluster_size, used, take) is Ok,
    ensures
        part_of_run(image, runs[run], cluster_size, used, take)->Ok_0.len() == take * cluster_size,
        forall|j: int|
            0 <= j < take * cluster_size ==> #[trigger] part_of_run(
                image,
                runs[run],
                cluster_size,
                used,
                take,
            )->Ok_0[j] == virtual_byte(image, runs, cluster_size, run, used * cluster_size + j),
{
    let lcn = runs[run].lcn->0 as int;
    let part = part_of_run(image, runs[run], cluster_size, used, take)->Ok_0;
    let at = (lcn + used) * cluster_size;
    lemma_scaled(0, take, cluster_size);
    lemma_scaled(0, used, cluster_size);
    lemma_scaled(0, lcn + used, cluster_size);
    lemma_scaled(used + take, runs[run].length as int, cluster_size);
    assert(at == lcn * cluster_size + used * cluster_size && (used + take) * cluster_size == used
        * cluster_size + take * cluster_size) by (nonlinear_arith)
        requires
            at == (lcn + used) * cluster_size,
    ;
    assert forall|j: int| 0 <= j < take * cluster_size implies #[trigger] part[j] == virtual_byte(
        image,
        runs,
        cluster_size,
        run,
        used * cluster_size + j,
    ) by {
        assert(part[j] == image[at + j]);
    }
}

/// What is gathered from a place in the runlist is, byte for byte, what the runs map the
/// file's clusters there to, as far as no hole comes first: the clusters of a run are
/// taken where the last unit left off in it. As many bytes are stored as clusters are
/// counted, and as many clusters are taken as are asked for and there.
pub proof fn law_gathered_bytes_are_the_mapped_ones(
    image: Seq<u8>,
    runs: Seq<Run>,
    cluster_size: int,
    run: int,
    used: int,
    need: int,
)
    requires
        place_ok(runs, run, used),
        0 <= need,
        0 <= cluster_size,
    ensures
        gathered(image, runs, cluster_size, run, used, need) matches Ok(g) ==> {
            let lead = least(leading_stored(runs, run, used), need);
            &&& g.got == least(need, clusters_left(runs, run, used))
            &&& g.stored.len() == g.solid * cluster_size
            &&& lead <= g.solid <= g.got
            &&& forall|j: int|
                0 <= j < lead * cluster_size ==> #[trigger] g.stored[j] == virtual_byte(
                    image,
                    runs,
                    cluster_size,
                    run,
                    used * cluster_size + j,
                )
        },
    decreases runs.len() - run, need,
{
    lemma_leading_is_positive(runs, run, used);
    lemma_gathered_advances(image, runs, cluster_size, run, used, need);
    if need <= 0 || run >= runs.len() {
        let lead = least(leading_stored(runs, run, used), need);
        assert(lead * cluster_size == 0) by (nonlinear_arith)
            requires
                lead == 0,
        ;
        assert(0 * cluster_size == 0);
    } else if let Ok(g) = gathered(image, runs, cluster_size, run, used, need) {
        let length = runs[run].length as int;
        let take = least(need, length - used);
        let part = part_of_run(image, runs[run], cluster_size, used, take)->Ok_0;
        let stored_here = if runs[run].lcn is Some {
            take
        } else {
            0
        };
        let lead = least(leading_stored(runs, run, used), need);
        lemma_clusters_left_is_positive(runs, run + 1, 0);
        lemma_leading_is_positive(runs, run + 1, 0);
        if runs[run].lcn is Some {
            lemma_part_is_mapped(image, runs, cluster_size, run, used, take);
        } else {
            assert(0 * cluster_size == 0);
        }
        assert(part.len() == stored_here * cluster_size);
        let (next_run, next_used) = if used + take == length {
            (run + 1, 0int)
        } else {
            (run, used + take)
        };
        law_gathered_bytes_are_the_mapped_ones(
            image,
            runs,
            cluster_size,
            next_run,
            next_used,
            need - take,
        );
        let rest = gathered(
            image,
            runs,
            cluster_size,
            next_run,
            next_used,
            need - take,
        )->Ok_0;
        assert(g.stored == part + rest.stored);
        assert(g.stored.len() == g.solid * cluster_size) by (nonlinear_arith)
            requires
                g.stored.len() == part.len() + rest.stored.len(),
                part.len() == stored_here * cluster_size,
                rest.stored.len() == rest.solid * cluster_size,
                g.solid == stored_here + rest.solid,
        ;
        if used + take != length {
            assert(take == need);
        }
        assert forall|j: int| 0 <= j < lead * cluster_size implies #[trigger] g.stored[j]
            == virtual_byte(image, runs, cluster_size, run, used * cluster_size + j) by {
            if runs[run].lcn is None {
                // An empty rest of a hole: the next run goes on.
                if used < length {
                    assert(lead * cluster_size == 0) by (nonlinear_arith)
                        requires
                            lead == 0,
                    ;
                } else {
                    assert(take == 0);
                    assert(part.len() == 0);
                    assert(g.stored[j] == rest.stored[j]);
                    assert(virtual_byte(image, runs, cluster_size, run, used * cluster_size + j)
                        == virtual_byte(image, runs, cluster_size, run + 1, j));
                    assert(0 * cluster_size == 0);
                }
            } else if j < part.len() {
                assert(g.stored[j] == part[j]);
            } else {
                let m = j - part.len();
                assert(used + take == length) by {
                    if used + take != length {
                        assert(lead <= take);
                        lemma_scaled(lead, take, cluster_size);
                    }
                }
                let rest_lead = least(leading_stored(runs, run + 1, 0), need - take);
                assert(lead == take + rest_lead);
                assert(m < rest_lead * cluster_size && length * cluster_size == used * cluster_size
                    + take * cluster_size) by (nonlinear_arith)
                    requires
                        j < lead * cluster_size,
                        m == j - take * cluster_size,
                        lead == take + rest_lead,
                        used + take == length,
                ;
                lemma_scaled(rest_lead, rest.solid, cluster_size);
                assert(g.stored[j] == rest.stored[m]);
                assert(0 * cluster_size == 0);
                assert(rest.stored[m] == virtual_byte(image, runs, cluster_size, run + 1, m));
            }
        }
    }
}

/// How many clusters from a place on are holes before the first that is stored.
pub open spec fn leading_holes(runs: Seq<Run>, run: int, used: int) -> int
    decreases runs.len() - run,
{
    if run < 0 || run >= runs.len() {
        0
    } else if runs[run].lcn is Some && used < runs[run].length {
        0
    } else {
        runs[run].length - used + leading_holes(runs, run + 1, 0)
    }
}

proof fn lemma_holes_are_positive(runs: Seq<Run>, run: int, used: int)
    requires
        place_ok(runs, run, used),
    ensures
        0 <= leading_holes(runs, run, used) <= clusters_left(runs, run, used),
    decreases runs.len() - run,
{
    if run < runs.len() {
        lemma_holes_are_positive(runs, run + 1, 0);
        lemma_clusters_left_is_positive(runs, run + 1, 0);
    }
}

proof fn lemma_holes_store_nothing(
    image: Seq<u8>,
    runs: Seq<Run>,
    cluster_size: int,
    run: int,
    used: int,
    need: int,
)
    requires
        place_ok(runs, run, used),
        0 <= need <= leading_holes(runs, run, used),
        0 <= cluster_size,
    ensures
        gathered(image, runs, cluster_size, run, used, need) matches Ok(g) ==> g.solid == 0,
    decreases runs.len() - run, need,
{
    if need > 0 && run < runs.len() {
        lemma_holes_are_positive(runs, run + 1, 0);
        let length = runs[run].length as int;
        let take = least(need, length - used);
        if used + take == length {
            lemma_holes_store_nothing(image, runs, cluster_size, run + 1, 0, need - take);
        } else {
            lemma_holes_store_nothing(image, runs, cluster_size, run, used + take, need - take);
        }
    }
}

proof fn lemma_holes_are_zero(
    image: Seq<u8>,
    runs: Seq<Run>,
    cluster_size: int,
    run: int,
    used: int,
    j: int,
)
    requires
        place_ok(runs, run, used),
        0 <= cluster_size,
        0 <= j < leading_holes(runs, run, used) * cluster_size,
    ensures
        virtual_byte(image, runs, cluster_size, run, used * cluster_size + j) == 0,
    decreases runs.len() - run,
{
    if run < runs.len() {
        let length = runs[run].length as int;
        lemma_scaled(used, length, cluster_size);
        if used * cluster_size + j >= length * cluster_size {
            let rest = leading_holes(runs, run + 1, 0);
            let m = j - (length - used) * cluster_size;
            lemma_holes_are_positive(runs, run + 1, 0);
            if runs[run].lcn is Some && used < length {
                assert(0 * cluster_size == 0);
            } else {
                assert(m < rest * cluster_size) by (nonlinear_arith)
                    requires
                        j < (length - used + rest) * cluster_size,
                        m == j - (length - used) * cluster_size,
                ;
                lemma_holes_are_zero(image, runs, cluster_size, run + 1, 0, m);
                assert(0 * cluster_size == 0);
            }
        } else if runs[run].lcn is Some {
            assert(used < length) by {
                if used == length {
                    assert(used * cluster_size == length * cluster_size);
                }
            }
            assert(0 * cluster_size == 0);
        }
    } else {
        assert(0 * cluster_size == 0);
    }
}

/// The bytes of a file from run `k` on are those behind the bytes of the runs before.
proof fn lemma_bytes_behind(image: Seq<u8>, runs: Seq<Run>, cluster_size: int, k: int, x: int)
    requires
        0 <= k <= runs.len(),
        0 <= cluster_size,
        0 <= x,
    ensures
        bytes_left(runs, cluster_size, k) <= bytes_left(runs, cluster_size, 0),
        virtual_byte(
            image,
            runs,
            cluster_size,
            0,
            bytes_left(runs, cluster_size, 0) - bytes_left(runs, cluster_size, k) + x,
        ) == virtual_byte(image, runs, cluster_size, k, x),
    decreases k,
{
    if k > 0 {
        lemma_run_size(runs[k - 1], cluster_size);
        lemma_bytes_behind(
            image,
            runs,
            cluster_size,
            k - 1,
            runs[k - 1].length * cluster_size + x,
        );
    }
}

proof fn lemma_left_in_bytes(runs: Seq<Run>, cluster_size: int, run: int)
    requires
        0 <= run,
    ensures
        bytes_left(runs, cluster_size, run) == clusters_left(runs, run, 0) * cluster_size,
    decreases runs.len() - run,
{
    if run < runs.len() {
        lemma_left_in_bytes(runs, cluster_size, run + 1);
        let a = runs[run].length as int;
        let b = clusters_left(runs, run + 1, 0);
        assert((a + b) * cluster_size == a * cluster_size + b * cluster_size) by (nonlinear_arith);
    } else {
        assert(0 * cluster_size == 0);
    }
}

/// Whether the next unit is all stored or all hole, where there is one.
pub open spec fn is_plain(runs: Seq<Run>, run: int, used: int, unit: int) -> bool {
    ||| clusters_left(runs, run, used) == 0
    ||| leading_stored(runs, run, used) >= unit
    ||| leading_holes(runs, run, used) >= unit
}

/// Whether every unit is all stored or all hole: none is compressed.
pub open spec fn plain_units(runs: Seq<Run>, unit: int) -> bool {
    &&& clusters_left(runs, 0, 0) % unit == 0
    &&& forall|run: int, used: int|
        place_ok(runs, run, used) && clusters_left(runs, run, used) % unit == 0
            ==> #[trigger] is_plain(runs, run, used, unit)
}

/// Whether `out` is the file's bytes up to a place.
spec fn mapped_up_to(
    image: Seq<u8>,
    runs: Seq<Run>,
    cluster_size: int,
    out: Seq<u8>,
    run: int,
    used: int,
    real_size: int,
) -> bool {
    let consumed = (clusters_left(runs, 0, 0) - clusters_left(runs, run, used)) * cluster_size;
    &&& out.len() <= consumed
    &&& out.len() >= real_size || out.len() == consumed
    &&& forall|j: int|
        0 <= j < out.len() ==> #[trigger] out[j] == virtual_byte(image, runs, cluster_size, 0, j)
}

proof fn lemma_place_in_bytes(
    image: Seq<u8>,
    runs: Seq<Run>,
    cluster_size: int,
    run: int,
    used: int,
    j: int,
)
    requires
        place_ok(runs, run, used),
        0 <= cluster_size,
        0 <= j,
    ensures
        virtual_byte(
            image,
            runs,
            cluster_size,
            0,
            (clusters_left(runs, 0, 0) - clusters_left(runs, run, used)) * cluster_size + j,
        ) == virtual_byte(image, runs, cluster_size, run, used * cluster_size + j),
        0 <= (clusters_left(runs, 0, 0) - clusters_left(runs, run, used)) * cluster_size,
{
    let total = clusters_left(runs, 0, 0);
    let rest = clusters_left(runs, run, 0);
    lemma_left_in_bytes(runs, cluster_size, 0);
    lemma_left_in_bytes(runs, cluster_size, run);
    lemma_scaled(0, used, cluster_size);
    lemma_bytes_behind(image, runs, cluster_size, run, used * cluster_size + j);
    assert(clusters_left(runs, run, used) == rest - used);
    assert((total - (rest - used)) * cluster_size == total * cluster_size - rest * cluster_size
        + used * cluster_size) by (nonlinear_arith);
}

proof fn lemma_plain_units_are_mapped(
    image: Seq<u8>,
    runs: Seq<Run>,
    cluster_size: int,
    unit: int,
    real_size: int,
    run: int,
    used: int,
    out: Seq<u8>,
)
    requires
        plain_units(runs, unit),
        0 < unit,
        0 <= cluster_size,
        0 <= real_size,
        place_ok(runs, run, used),
        clusters_left(runs, run, used) % unit == 0,
        mapped_up_to(image, runs, cluster_size, out, run, used, real_size),
    ensures
        units_from(image, runs, cluster_size, unit, real_size, run, used, out) matches Ok(v) ==> {
            &&& v.len() <= clusters_left(runs, 0, 0) * cluster_size
            &&& v.len() >= real_size || v.len() == clusters_left(runs, 0, 0) * cluster_size
            &&& forall|j: int|
                0 <= j < v.len() ==> #[trigger] v[j] == virtual_byte(
                    image,
                    runs,
                    cluster_size,
                    0,
                    j,
                )
        },
    decreases clusters_left(runs, run, used),
{
    let total = clusters_left(runs, 0, 0);
    let left = clusters_left(runs, run, used);
    lemma_clusters_left_is_positive(runs, run, used);
    assert((total - left) * cluster_size == total * cluster_size - left * cluster_size && 0 <= left
        * cluster_size) by (nonlinear_arith)
        requires
            0 <= left,
            0 <= cluster_size,
    ;
    if out.len() < real_size {
        assert(is_plain(runs, run, used, unit));
        lemma_gathered_advances(image, runs, cluster_size, run, used, unit);
        law_gathered_bytes_are_the_mapped_ones(image, runs, cluster_size, run, used, unit);
        if let Ok(g) = gathered(image, runs, cluster_size, run, used, unit) {
            if left == 0 {
                assert(g.got == 0);
                assert(left * cluster_size == 0) by (nonlinear_arith)
                    requires
                        left == 0,
                ;
            } else {
                assert(left >= unit) by (nonlinear_arith)
                    requires
                        left > 0,
                        left % unit == 0,
                        0 < unit,
                ;
                assert(g.got == unit);
                let stored = leading_stored(runs, run, used) >= unit;
                if !stored {
                    lemma_holes_store_nothing(image, runs, cluster_size, run, used, unit);
                }
                assert(g.solid == if stored {
                    unit
                } else {
                    0
                });
                let piece = unit_bytes(
                    g.stored,
                    g.solid,
                    unit,
                    cluster_size,
                    real_size - out.len(),
                )->Ok_0;
                let next = out + piece;
                let consumed = (total - left) * cluster_size;
                assert(0 <= unit * cluster_size && (total - (left - unit)) * cluster_size
                    == consumed + unit * cluster_size) by (nonlinear_arith)
                    requires
                        consumed == (total - left) * cluster_size,
                        0 < unit,
                        0 <= cluster_size,
                ;
                assert((left - unit) % unit == 0) by (nonlinear_arith)
                    requires
                        left % unit == 0,
                        0 < unit,
                ;
                lemma_clusters_left_is_positive(runs, g.run, g.used);
                assert forall|j: int| 0 <= j < next.len() implies #[trigger] next[j]
                    == virtual_byte(image, runs, cluster_size, 0, j) by {
                    if j < out.len() {
                        assert(next[j] == out[j]);
                    } else {
                        let m = j - out.len();
                        assert(next[j] == piece[m]);
                        lemma_place_in_bytes(image, runs, cluster_size, run, used, m);
                        if stored {
                            assert(piece[m] == g.stored[m]);
                        } else {
                            lemma_scaled(unit, leading_holes(runs, run, used), cluster_size);
                            lemma_holes_are_zero(image, runs, cluster_size, run, used, m);
                        }
                    }
                }
                lemma_plain_units_are_mapped(
                    image,
                    runs,
                    cluster_size,
                    unit,
                    real_size,
                    g.run,
                    g.used,
                    next,
                );
            }
        }
    }
}

/// A file that is marked compressed, but none of whose units is, reads like one that is
/// not: unit by unit the same bytes come out as from the runs read through.
pub proof fn law_plain_units_read_like_plain_runs(
    image: Seq<u8>,
    runs: Seq<Run>,
    cluster_size: int,
    real_size: int,
    unit: int,
)
    requires
        0 < unit,
        0 <= cluster_size,
        0 <= real_size,
        plain_units(runs, unit),
        compressed_value(image, runs, cluster_size, real_size, unit) is Ok,
        runs_value(image, runs, cluster_size, real_size) is Ok,
    ensures
        compressed_value(image, runs, cluster_size, real_size, unit) == runs_value(
            image,
            runs,
            cluster_size,
            real_size,
        ),
{
    let none: Seq<u8> = Seq::empty();
    let total = clusters_left(runs, 0, 0);
    assert((total - total) * cluster_size == 0) by (nonlinear_arith);
    lemma_plain_units_are_mapped(image, runs, cluster_size, unit, real_size, 0, 0, none);
    law_file_bytes_are_where_the_runs_say(image, runs, cluster_size, real_size);
    lemma_left_in_bytes(runs, cluster_size, 0);
    let v = compressed_value(image, runs, cluster_size, real_size, unit)->Ok_0;
    let w = runs_value(image, runs, cluster_size, real_size)->Ok_0;
    assert(v =~= w);
}

proof fn lemma_all_stored_lead(runs: Seq<Run>, run: int, used: int)
    requires
        forall|k: int| 0 <= k < runs.len() ==> (#[trigger] runs[k]).lcn is Some,
        0 <= run,
    ensures
        leading_stored(runs, run, used) == clusters_left(runs, run, used),
    decreases runs.len() - run,
{
    if run < runs.len() {
        lemma_all_stored_lead(runs, run + 1, 0);
    }
}

/// A file marked compressed whose clusters are all stored, in whole units and however
/// fragmented, has the value of its runs.
pub proof fn law_fully_stored_units_are_read_through(
    image: Seq<u8>,
    runs: Seq<Run>,
    cluster_size: int,
    real_size: int,
    unit: int,
)
    requires
        0 < unit,
        0 <= cluster_size,
        0 <= real_size,
        forall|k: int| 0 <= k < runs.len() ==> (#[trigger] runs[k]).lcn is Some,
        clusters_left(runs, 0, 0) % unit == 0,
        compressed_value(image, runs, cluster_size, real_size, unit) is Ok,
        runs_value(image, runs, cluster_size, real_size) is Ok,
    ensures
        compressed_value(image, runs, cluster_size, real_size, unit) == runs_value(
            image,
            runs,
            cluster_size,
            real_size,
        ),
{
    assert forall|run: int, used: int|
        place_ok(runs, run, used) && clusters_left(runs, run, used) % unit == 0 implies
        #[trigger] is_plain(runs, run, used, unit) by {
        lemma_all_stored_lead(runs, run, used);
        lemma_clusters_left_is_positive(runs, run, used);
        let left = clusters_left(runs, run, used);
        assert(left == 0 || left >= unit) by (nonlinear_arith)
            requires
                0 <= left,
                left % unit == 0,
                0 < unit,
        ;
    }
    law_plain_units_read_like_plain_runs(image, runs, cluster_size, real_size, unit);
}

/// A unit that is stored in part holds a compressed stream, in the clusters that are
/// stored: the file is what the stream expands to, cut to its size.
pub proof fn law_a_partly_stored_unit_is_expanded(
    image: Seq<u8>,
    stored: u64,
    lcn: u64,
    hole: u64,
    cluster_size: int,
    real_size: int,
)
    requires
        0 < stored,
        0 < hole,
        0 < cluster_size,
        0 < real_size <= 0x100_0000_0000,
        real_size <= usize::MAX,
        (lcn + stored) * cluster_size <= image.len(),
        image.len() <= u64::MAX,
        stored * cluster_size <= usize::MAX,
        (stored + hole) * cluster_size <= u64::MAX,
        lznt1_output(
            image.subrange(lcn * cluster_size, (lcn + stored) * cluster_size),
        ) matches Some(plain) && plain.len() >= real_size,
    ensures
        compressed_value(
            image,
            seq![Run { length: stored, lcn: Some(lcn) }, Run { length: hole, lcn: None }],
            cluster_size,
            real_size,
            stored + hole,
        ) == Ok::<Seq<u8>, NtfsError>(
            lznt1_output(
                image.subrange(lcn * cluster_size, (lcn + stored) * cluster_size),
            )->0.take(real_size),
        ),
{
    let runs = seq![Run { length: stored, lcn: Some(lcn) }, Run { length: hole, lcn: None }];
    let unit = stored + hole;
    let at = lcn * cluster_size;
    let stream = image.subrange(at, (lcn + stored) * cluster_size);
    let plain = lznt1_output(stream)->0;
    let none: Seq<u8> = Seq::empty();
    assert((lcn + 0) * cluster_size == at && (lcn + stored) * cluster_size == at + stored
        * cluster_size && 0 <= at && 0 < stored * cluster_size) by (nonlinear_arith)
        requires
            at == lcn * cluster_size,
            0 <= lcn,
            0 < stored,
            0 < cluster_size,
    ;
    assert(part_of_run(image, runs[0], cluster_size, 0, stored as int) == Ok::<
        Seq<u8>,
        NtfsError,
    >(stream));
    assert(gathered(image, runs, cluster_size, 2, 0, 0) == Ok::<Gathered, NtfsError>(
        Gathered { stored: none, solid: 0, got: 0, run: 2, used: 0 },
    ));
    assert(gathered(image, runs, cluster_size, 1, 0, hole as int) == Ok::<Gathered, NtfsError>(
        Gathered { stored: none, solid: 0, got: hole as int, run: 2, used: 0 },
    )) by {
        assert(none + none =~= none);
    }
    let g = Gathered { stored: stream, solid: stored as int, got: unit, run: 2, used: 0 };
    assert(gathered(image, runs, cluster_size, 0, 0, unit) == Ok::<Gathered, NtfsError>(g)) by {
        assert(stream + none =~= stream);
    }
    assert(none + plain =~= plain);
    assert(units_from(image, runs, cluster_size, unit, real_size, 2, 0, plain) == Ok::<
        Seq<u8>,
        NtfsError,
    >(plain));
    assert(units_from(image, runs, cluster_size, unit, real_size, 0, 0, none) == Ok::<
        Seq<u8>,
        NtfsError,
    >(plain));
}

proof fn lemma_sum_is_allocated(runs: Seq<Run>, cluster_size: int)
    requires
        0 <= cluster_size,
        bytes_left(runs, cluster_size, 0) <= u64::MAX,
    ensures
        allocated(runs, cluster_size) == Ok::<int, NtfsError>(bytes_left(runs, cluster_size, 0)),
    decreases runs.len(),
{
    if runs.len() > 0 {
        lemma_bytes_left_snoc(runs, cluster_size, 0);
        lemma_run_size(runs.last(), cluster_size);
        lemma_bytes_left_is_positive(runs.drop_last(), cluster_size, 0);
        lemma_sum_is_allocated(runs.drop_last(), cluster_size);
    }
}

/// Whether every stored run lies on the image.
pub open spec fn lie_inside(image: Seq<u8>, runs: Seq<Run>, cluster_size: int) -> bool {
    forall|k: int|
        0 <= k < runs.len() ==> ((#[trigger] runs[k]).lcn matches Some(lcn) ==> (lcn
            + runs[k].length) * cluster_size <= image.len())
}

proof fn lemma_inside_is_read(
    image: Seq<u8>,
    runs: Seq<Run>,
    cluster_size: int,
    i: int,
    remaining: int,
)
    requires
        0 <= i,
        0 <= cluster_size,
        image.len() <= u64::MAX,
        lie_inside(image, runs, cluster_size),
    ensures
        bytes_from(image, runs, cluster_size, i, remaining) is Ok,
    decreases runs.len() - i,
{
    if remaining > 0 && i < runs.len() {
        lemma_run_size(runs[i], cluster_size);
        let take = least(runs[i].length * cluster_size, remaining);
        if let Some(lcn) = runs[i].lcn {
            let length = runs[i].length as int;
            assert((lcn + length) * cluster_size == lcn * cluster_size + length * cluster_size)
                by (nonlinear_arith);
        }
        lemma_inside_is_read(image, runs, cluster_size, i + 1, remaining - take);
    }
}

/// Runs that lie on the image are read: nothing but a run past the image, or a size past
/// the limits, keeps a file from being read.
pub proof fn law_runs_on_the_image_are_read(
    image: Seq<u8>,
    runs: Seq<Run>,
    cluster_size: int,
    real_size: int,
)
    requires
        0 <= cluster_size,
        0 <= real_size <= 0x100_0000_0000,
        real_size <= usize::MAX,
        image.len() <= u64::MAX,
        bytes_left(runs, cluster_size, 0) <= u64::MAX,
        lie_inside(image, runs, cluster_size),
    ensures
        runs_value(image, runs, cluster_size, real_size) is Ok,
{
    lemma_sum_is_allocated(runs, cluster_size);
    lemma_inside_is_read(
        image,
        runs,
        cluster_size,
        0,
        least(real_size, bytes_left(runs, cluster_size, 0)),
    );
}

/// Byte `x` of run `k` of a file stands behind the bytes of the runs before, and is the one
/// that lies `x` bytes behind the start of the run's first cluster: zero in a hole.
pub proof fn law_each_run_is_its_clusters(
    image: Seq<u8>,
    runs: Seq<Run>,
    cluster_size: int,
    real_size: int,
    k: int,
    x: int,
)
    requires
        0 <= cluster_size,
        0 <= real_size,
        0 <= k < runs.len(),
        0 <= x < runs[k].length * cluster_size,
        runs_value(image, runs, cluster_size, real_size) is Ok,
        bytes_left(runs, cluster_size, 0) - bytes_left(runs, cluster_size, k) + x < real_size,
    ensures
        ({
            let at = bytes_left(runs, cluster_size, 0) - bytes_left(runs, cluster_size, k) + x;
            let v = runs_value(image, runs, cluster_size, real_size)->Ok_0;
            &&& 0 <= at < v.len()
            &&& v[at] == match runs[k].lcn {
                None => 0u8,
                Some(lcn) => image[lcn * cluster_size + x],
            }
        }),
{
    law_file_bytes_are_where_the_runs_say(image, runs, cluster_size, real_size);
    lemma_bytes_behind(image, runs, cluster_size, k, x);
    lemma_bytes_left_is_positive(runs, cluster_size, k + 1);
}

/// How a stream is read: in compression units of `2^shift` clusters when it is compressed
/// and has such a unit, and straight through otherwise.
pub proof fn law_the_compression_flag_decides(
    image: Seq<u8>,
    runs: Seq<Run>,
    cluster_size: int,
    real_size: int,
    shift: u16,
    offset: usize,
)
    ensures
        stream_value(image, runs, cluster_size, real_size, false, shift, offset) == runs_value(
            image,
            runs,
            cluster_size,
            real_size,
        ),
        shift == 0 ==> stream_value(image, runs, cluster_size, real_size, true, shift, offset)
            == runs_value(image, runs, cluster_size, real_size),
        1 <= shift <= 63 ==> stream_value(
            image,
            runs,
            cluster_size,
            real_size,
            true,
            shift,
            offset,
        ) == compressed_value(
            image,
            runs,
            cluster_size,
            real_size,
            vstd::arithmetic::power2::pow2(shift as nat) as int,
        ),
        shift >= 64 ==> (stream_value(
            image,
            runs,
            cluster_size,
            real_size,
            true,
            shift,
            offset,
        ) matches Err(NtfsError::BadAttribute { offset: at, .. }) && at == offset),
{
}

/// The value of an attribute: what stands in the record when it is resident; else what its
/// runs hold up to its real size, expanded when the lowest flag says that it is compressed.
/// The runs are those that were written at the runlist's place in the attribute.
pub proof fn law_attributes_are_read_by_their_header(
    image: Seq<u8>,
    record: Seq<u8>,
    attribute: AttributeView,
    cluster_size: int,
    runs: Seq<Run>,
    widths: Seq<runlist::Widths>,
    junk: Seq<u8>,
)
    requires
        record.len() <= usize::MAX,
        attribute.offset + attribute.length <= record.len(),
        runs.len() <= 0x10_0000,
        runlist::all_writable(runs, widths, 0),
        attribute.body matches AttributeBody::NonResident { runs_offset, .. } ==> runs_offset
            <= attribute.length && record.subrange(
            attribute.offset + runs_offset,
            attribute.offset + attribute.length,
        ) == runlist::written(runs, widths, 0) + seq![0u8] + junk,
        attribute.body matches AttributeBody::Resident { content_offset, content_length }
            ==> attribute.offset + content_offset + content_length <= record.len(),
    ensures
        match attribute.body {
            AttributeBody::Resident { content_offset, content_length } => attribute_value(
                image,
                record,
                attribute,
                cluster_size,
            ) == Ok::<Seq<u8>, NtfsError>(
                record.subrange(
                    attribute.offset + content_offset,
                    attribute.offset + content_offset + content_length,
                ),
            ),
            AttributeBody::NonResident { real_size, compression_unit, .. } => {
                &&& runlist_of(record, attribute) == Ok::<Seq<Run>, NtfsError>(runs)
                &&& attribute_value(image, record, attribute, cluster_size) == stream_value(
                    image,
                    runs,
                    cluster_size,
                    real_size as int,
                    attribute.flags % 2 == 1,
                    compression_unit,
                    attribute.offset,
                )
            },
        },
{
    runlist::law_decoding_undoes_writing(runs, widths, junk);
    attribute::law_the_lowest_flag_means_compressed(attribute);
}

/// Whether every run has a cluster.
pub open spec fn has_no_empty_run(runs: Seq<Run>) -> bool {
    forall|k: int| 0 <= k < runs.len() ==> (#[trigger] runs[k]).length > 0
}

proof fn lemma_gathered_in_front(
    image: Seq<u8>,
    a: Seq<Run>,
    b: Seq<Run>,
    cluster_size: int,
    run: int,
    used: int,
    need: int,
)
    requires
        has_no_empty_run(a),
        place_ok(a, run, used),
        0 <= need <= clusters_left(a, run, used),
        run < a.len() ==> used < a[run].length,
    ensures
        gathered(image, a + b, cluster_size, run, used, need) == gathered(
            image,
            a,
            cluster_size,
            run,
            used,
            need,
        ),
        need == clusters_left(a, run, used) ==> (gathered(
            image,
            a,
            cluster_size,
            run,
            used,
            need,
        ) matches Ok(g) ==> g.run == a.len() && g.used == 0 && g.got == need),
    decreases a.len() - run, need,
{
    lemma_clusters_left_is_positive(a, run, used);
    if run < a.len() {
        lemma_clusters_left_is_positive(a, run + 1, 0);
        assert((a + b)[run] == a[run]);
        let take = least(need, a[run].length - used);
        if need > 0 {
            if used + take == a[run].length {
                lemma_gathered_in_front(image, a, b, cluster_size, run + 1, 0, need - take);
            } else {
                lemma_gathered_in_front(image, a, b, cluster_size, run, used + take, need - take);
            }
        }
    }
}

/// What was gathered, with `by` runs in front.
spec fn shifted(g: Result<Gathered, NtfsError>, by: int) -> Result<Gathered, NtfsError> {
    match g {
        Ok(found) => Ok(Gathered { run: found.run + by, ..found }),
        Err(e) => Err(e),
    }
}

proof fn lemma_gathered_behind(
    image: Seq<u8>,
    a: Seq<Run>,
    b: Seq<Run>,
    cluster_size: int,
    run: int,
    used: int,
    need: int,
)
    requires
        0 <= run,
        place_ok(b, run, used),
    ensures
        gathered(image, a + b, cluster_size, a.len() + run, used, need) == shifted(
            gathered(image, b, cluster_size, run, used, need),
            a.len() as int,
        ),
    decreases b.len() - run, need,
{
    if need > 0 && run < b.len() {
        assert((a + b)[a.len() + run] == b[run]);
        let take = least(need, b[run].length - used);
        if used + take == b[run].length {
            lemma_gathered_behind(image, a, b, cluster_size, run + 1, 0, need - take);
        } else {
            lemma_gathered_behind(image, a, b, cluster_size, run, used + take, need - take);
        }
    }
}

proof fn lemma_units_behind(
    image: Seq<u8>,
    a: Seq<Run>,
    b: Seq<Run>,
    cluster_size: int,
    unit: int,
    real_size: int,
    run: int,
    used: int,
    first: Seq<u8>,
    out: Seq<u8>,
)
    requires
        0 < unit,
        place_ok(b, run, used),
        first.len() <= real_size,
    ensures
        units_from(
            image,
            a + b,
            cluster_size,
            unit,
            real_size,
            a.len() + run,
            used,
            first + out,
        ) == match units_from(
            image,
            b,
            cluster_size,
            unit,
            real_size - first.len(),
            run,
            used,
            out,
        ) {
            Ok(rest) => Ok::<Seq<u8>, NtfsError>(first + rest),
            Err(e) => Err(e),
        },
    decreases clusters_left(b, run, used),
{
    assert(place_ok(a + b, a.len() + run, used)) by {
        if run < b.len() {
            assert((a + b)[a.len() + run] == b[run]);
        }
    }
    if (first + out).len() < real_size {
        lemma_gathered_behind(image, a, b, cluster_size, run, used, unit);
        lemma_gathered_advances(image, b, cluster_size, run, used, unit);
        if let Ok(g) = gathered(image, b, cluster_size, run, used, unit) {
            lemma_clusters_left_is_positive(b, g.run, g.used);
            if g.got > 0 {
                let room = real_size - first.len() - out.len();
                if let Ok(piece) = unit_bytes(g.stored, g.solid, unit, cluster_size, room) {
                    assert(first + out + piece =~= first + (out + piece));
                    lemma_units_behind(
                        image,
                        a,
                        b,
                        cluster_size,
                        unit,
                        real_size,
                        g.run,
                        g.used,
                        first,
                        out + piece,
                    );
                }
            }
        }
    }
}

/// The units of a compressed file follow one another: when the first runs make up one whole
/// unit, and it expands to as many bytes as a unit has, the file is those bytes and then
/// what the other runs hold.
pub proof fn law_units_follow_one_another(
    image: Seq<u8>,
    head: Seq<Run>,
    tail: Seq<Run>,
    cluster_size: int,
    real_size: int,
    unit: int,
)
    requires
        0 < unit,
        0 < cluster_size,
        has_no_empty_run(head),
        clusters_left(head, 0, 0) == unit,
        unit * cluster_size <= real_size <= 0x100_0000_0000,
        unit * cluster_size < 0x100_0000_0000,
        real_size < usize::MAX,
        compressed_value(image, head, cluster_size, unit * cluster_size + 1, unit) matches Ok(
            first,
        ) && first.len() == unit * cluster_size,
    ensures
        compressed_value(image, head + tail, cluster_size, real_size, unit) == walk::chain(
            compressed_value(image, head, cluster_size, unit * cluster_size + 1, unit)->Ok_0,
            compressed_value(image, tail, cluster_size, real_size - unit * cluster_size, unit),
        ),
{
    let size = unit * cluster_size;
    let all = head + tail;
    let none: Seq<u8> = Seq::empty();
    let first = compressed_value(image, head, cluster_size, size + 1, unit)->Ok_0;
    assert(0 < size) by (nonlinear_arith)
        requires
            size == unit * cluster_size,
            0 < unit,
            0 < cluster_size,
    ;
    lemma_gathered_in_front(image, head, tail, cluster_size, 0, 0, unit);
    let g = gathered(image, head, cluster_size, 0, 0, unit)->Ok_0;
    let piece = unit_bytes(g.stored, g.solid, unit, cluster_size, size + 1)->Ok_0;
    assert(none + piece =~= piece);
    assert(gathered(image, head, cluster_size, head.len() as int, 0, unit) == Ok::<
        Gathered,
        NtfsError,
    >(Gathered { stored: none, solid: 0, got: 0, run: head.len() as int, used: 0 }));
    assert(units_from(
        image,
        head,
        cluster_size,
        unit,
        size + 1,
        head.len() as int,
        0,
        piece,
    ) == Ok::<Seq<u8>, NtfsError>(piece));
    assert(units_from(image, head, cluster_size, unit, size + 1, 0, 0, none) == Ok::<
        Seq<u8>,
        NtfsError,
    >(piece));
    assert(first =~= piece);
    assert(unit_bytes(g.stored, g.solid, unit, cluster_size, real_size) == Ok::<
        Seq<u8>,
        NtfsError,
    >(piece));
    assert(place_ok(all, 0, 0));
    assert(units_from(image, all, cluster_size, unit, real_size, 0, 0, none) == units_from(
        image,
        all,
        cluster_size,
        unit,
        real_size,
        head.len() as int,
        0,
        piece,
    ));
    lemma_units_behind(image, head, tail, cluster_size, unit, real_size, 0, 0, piece, none);
    assert(piece + none =~= piece);
    if let Ok(rest) = units_from(
        image,
        tail,
        cluster_size,
        unit,
        real_size - size,
        0,
        0,
        none,
    ) {
        let whole = piece + rest;
        assert(whole.take(least(whole.len() as int, real_size)) =~= piece + rest.take(
            least(rest.len() as int, real_size - size),
        ));
    }
}

proof fn lemma_inside_is_gathered(
    image: Seq<u8>,
    runs: Seq<Run>,
    cluster_size: int,
    run: int,
    used: int,
    need: int,
)
    requires
        place_ok(runs, run, used),
        0 <= cluster_size,
        image.len() <= u64::MAX,
        0 <= need,
        need * cluster_size <= usize::MAX,
        lie_inside(image, runs, cluster_size),
    ensures
        gathered(image, runs, cluster_size, run, used, need) is Ok,
    decreases runs.len() - run, need,
{
    if need > 0 && run < runs.len() {
        let length = runs[run].length as int;
        let take = least(need, length - used);
        if let Some(lcn) = runs[run].lcn {
            let at = (lcn + used) * cluster_size;
            assert(at + take * cluster_size <= (lcn + length) * cluster_size && take * cluster_size
                <= need * cluster_size && 0 <= at) by (nonlinear_arith)
                requires
                    at == (lcn + used) * cluster_size,
                    used + take <= length,
                    0 <= take <= need,
                    0 <= used,
                    0 <= lcn,
                    0 <= cluster_size,
            ;
            assert(0 <= take * cluster_size) by (nonlinear_arith)
                requires
                    0 <= take,
                    0 <= cluster_size,
            ;
        }
        assert((need - take) * cluster_size <= need * cluster_size) by (nonlinear_arith)
            requires
                0 <= take <= need,
                0 <= cluster_size,
        ;
        if used + take == length {
            lemma_inside_is_gathered(image, runs, cluster_size, run + 1, 0, need - take);
        } else {
            lemma_inside_is_gathered(image, runs, cluster_size, run, used + take, need - take);
        }
    }
}

proof fn lemma_plain_units_are_read(
    image: Seq<u8>,
    runs: Seq<Run>,
    cluster_size: int,
    unit: int,
    real_size: int,
    run: int,
    used: int,
    out: Seq<u8>,
)
    requires
        plain_units(runs, unit),
        0 < unit,
        0 <= cluster_size,
        image.len() <= u64::MAX,
        unit * cluster_size <= usize::MAX,
        lie_inside(image, runs, cluster_size),
        place_ok(runs, run, used),
        clusters_left(runs, run, used) % unit == 0,
    ensures
        units_from(image, runs, cluster_size, unit, real_size, run, used, out) is Ok,
    decreases clusters_left(runs, run, used),
{
    let left = clusters_left(runs, run, used);
    lemma_clusters_left_is_positive(runs, run, used);
    if out.len() < real_size {
        assert(is_plain(runs, run, used, unit));
        lemma_inside_is_gathered(image, runs, cluster_size, run, used, unit);
        lemma_gathered_advances(image, runs, cluster_size, run, used, unit);
        law_gathered_bytes_are_the_mapped_ones(image, runs, cluster_size, run, used, unit);
        let g = gathered(image, runs, cluster_size, run, used, unit)->Ok_0;
        if left > 0 {
            assert(left >= unit && (left - unit) % unit == 0) by (nonlinear_arith)
                requires
                    left > 0,
                    left % unit == 0,
                    0 < unit,
            ;
            if leading_stored(runs, run, used) < unit {
                lemma_holes_store_nothing(image, runs, cluster_size, run, used, unit);
            }
            lemma_clusters_left_is_positive(runs, g.run, g.used);
            let room = real_size - out.len();
            let piece = unit_bytes(g.stored, g.solid, unit, cluster_size, room)->Ok_0;
            lemma_plain_units_are_read(
                image,
                runs,
                cluster_size,
                unit,
                real_size,
                g.run,
                g.used,
                out + piece,
            );
        }
    }
}

/// A file marked compressed whose units are all stored or all holes, and lie on the image,
/// is read, and has the value of its runs.
pub proof fn law_plain_units_on_the_image_are_read(
    image: Seq<u8>,
    runs: Seq<Run>,
    cluster_size: int,
    real_size: int,
    unit: int,
)
    requires
        0 < unit,
        0 <= cluster_size,
        0 <= real_size <= 0x100_0000_0000,
        real_size <= usize::MAX,
        image.len() <= u64::MAX,
        unit * cluster_size <= usize::MAX,
        bytes_left(runs, cluster_size, 0) <= u64::MAX,
        lie_inside(image, runs, cluster_size),
        plain_units(runs, unit),
    ensures
        compressed_value(image, runs, cluster_size, real_size, unit) is Ok,
        compressed_value(image, runs, cluster_size, real_size, unit) == runs_value(
            image,
            runs,
            cluster_size,
            real_size,
        ),
{
    let none: Seq<u8> = Seq::empty();
    lemma_plain_units_are_read(image, runs, cluster_size, unit, real_size, 0, 0, none);
    law_runs_on_the_image_are_read(image, runs, cluster_size, real_size);
    law_plain_units_read_like_plain_runs(image, runs, cluster_size, real_size, unit);
}

} // verus!
