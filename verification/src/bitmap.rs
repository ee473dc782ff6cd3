//! The cluster allocation bitmap.
//!
//! `$Bitmap` stores one bit per cluster, least significant bit first within each byte: a
//! set bit marks the cluster allocated, a clear bit marks it free.

use vstd::prelude::*;
use crate::boot;

verus! {

/// A span of bytes on the volume.
#[derive(Debug, Clone, Copy, PartialEq, Eq, Structural)]
pub struct Extent {
    /// Byte offset on the volume (0 for a sparse span).
    pub image_offset: u64,
    /// Length in bytes.
    pub len: u64,
    /// Whether nothing is stored for the span.
    pub sparse: bool,
    /// Whether the span belongs to a file.
    pub allocated: bool,
}

/// Whether the bitmap marks cluster `c` free. A cluster that the bitmap does not reach
/// counts as allocated.
pub open spec fn is_free(bitmap: Seq<u8>, c: int) -> bool {
    &&& 0 <= c
    &&& c / 8 < bitmap.len()
    &&& (bitmap[c / 8] >> ((c % 8) as u8)) & 1u8 == 0u8
}

/// The runs of free clusters among the first `n`, each as its first cluster and its
/// length: a free cluster extends the run that ends just before it, or begins one.
pub open spec fn free_spans(bitmap: Seq<u8>, n: int) -> Seq<(u64, u64)>
    decreases n,
{
    if n <= 0 {
        Seq::empty()
    } else if !is_free(bitmap, n - 1) {
        free_spans(bitmap, n - 1)
    } else if is_free(bitmap, n - 2) {
        let spans = free_spans(bitmap, n - 1);
        spans.drop_last().push((spans.last().0, (spans.last().1 + 1) as u64))
    } else {
        free_spans(bitmap, n - 1).push(((n - 1) as u64, 1u64))
    }
}

/// Whether cluster `c` lies in a run.
pub open spec fn in_span(span: (u64, u64), c: int) -> bool {
    span.0 <= c < span.0 + span.1
}

/// Whether cluster `c` lies in one of the runs.
pub open spec fn covered(spans: Seq<(u64, u64)>, c: int) -> bool {
    exists|k: int| 0 <= k < spans.len() && in_span(#[trigger] spans[k], c)
}

/// Whether a run is maximal among the first `n` clusters: all of it is free, and it can
/// be extended neither to the left nor to the right.
pub open spec fn is_maximal(bitmap: Seq<u8>, n: int, span: (u64, u64)) -> bool {
    &&& span.1 > 0
    &&& span.0 + span.1 <= n
    &&& forall|c: int| in_span(span, c) ==> #[trigger] is_free(bitmap, c)
    &&& !is_free(bitmap, span.0 - 1)
    &&& span.0 + span.1 < n ==> !is_free(bitmap, span.0 + span.1)
}

/// Each run is maximal, the runs come in ascending order with a gap between them, and the
/// clusters that they cover are exactly the free ones.
pub proof fn law_free_spans_are_the_maximal_runs(bitmap: Seq<u8>, n: int)
    requires
        0 <= n <= u64::MAX,
    ensures
        forall|k: int|
            0 <= k < free_spans(bitmap, n).len() ==> is_maximal(
                bitmap,
                n,
                #[trigger] free_spans(bitmap, n)[k],
            ),
        forall|j: int, k: int|
            0 <= j < k < free_spans(bitmap, n).len() ==> (#[trigger] free_spans(bitmap, n)[j]).0
                + free_spans(bitmap, n)[j].1 < (#[trigger] free_spans(bitmap, n)[k]).0,
        forall|c: int|
            0 <= c < n ==> (#[trigger] is_free(bitmap, c) <==> covered(free_spans(bitmap, n), c)),
    decreases n,
{
    if n > 0 {
        law_free_spans_are_the_maximal_runs(bitmap, n - 1);
        if is_free(bitmap, n - 2) {
            lemma_last_span(bitmap, n - 1);
        }
        let shorter = free_spans(bitmap, n - 1);
        let spans = free_spans(bitmap, n);
        let last = n - 1;
        if !is_free(bitmap, last) {
            assert forall|k: int| 0 <= k < spans.len() implies is_maximal(
                bitmap,
                n,
                #[trigger] spans[k],
            ) by {
                assert(is_maximal(bitmap, n - 1, shorter[k]));
            }
            assert forall|c: int| 0 <= c < n implies (#[trigger] is_free(bitmap, c) <==> covered(
                spans,
                c,
            )) by {
                if c == last && covered(spans, c) {
                    let k = choose|k: int|
                        0 <= k < spans.len() && in_span(#[trigger] spans[k], c);
                    assert(is_maximal(bitmap, n - 1, shorter[k]));
                }
            }
        } else if is_free(bitmap, last - 1) {
            let m = shorter.len() - 1;
            assert(spans[m] == (shorter[m].0, (shorter[m].1 + 1) as u64));
            assert(forall|k: int| 0 <= k < m ==> spans[k] == shorter[k]);
            assert(is_maximal(bitmap, n - 1, shorter[m]));
            assert forall|k: int| 0 <= k < spans.len() implies is_maximal(
                bitmap,
                n,
                #[trigger] spans[k],
            ) by {
                assert(is_maximal(bitmap, n - 1, shorter[k]));
                if k < m {
                    assert(shorter[k].0 + shorter[k].1 < shorter[m].0);
                } else {
                    assert forall|c: int| in_span(spans[k], c) implies #[trigger] is_free(
                        bitmap,
                        c,
                    ) by {
                        if c < last {
                            assert(in_span(shorter[m], c));
                        }
                    }
                }
            }
            assert forall|j: int, k: int| 0 <= j < k < spans.len() implies (#[trigger] spans[j]).0
                + spans[j].1 < (#[trigger] spans[k]).0 by {
                assert(shorter[j].0 + shorter[j].1 < shorter[k].0);
            }
            assert forall|c: int| 0 <= c < n implies (#[trigger] is_free(bitmap, c) <==> covered(
                spans,
                c,
            )) by {
                if c == last {
                    assert(in_span(spans[m], c));
                } else {
                    if covered(spans, c) {
                        let k = choose|k: int|
                            0 <= k < spans.len() && in_span(#[trigger] spans[k], c);
                        assert(in_span(shorter[k], c));
                    }
                    if covered(shorter, c) {
                        let k = choose|k: int|
                            0 <= k < shorter.len() && in_span(#[trigger] shorter[k], c);
                        assert(in_span(spans[k], c));
                    }
                }
            }
        } else {
            let m = shorter.len() as int;
            assert(spans[m] == (last as u64, 1u64));
            assert(forall|k: int| 0 <= k < m ==> spans[k] == shorter[k]);
            assert forall|k: int| 0 <= k < m implies (#[trigger] shorter[k]).0 + shorter[k].1
                < last by {
                assert(is_maximal(bitmap, n - 1, shorter[k]));
                if shorter[k].0 + shorter[k].1 == last {
                    assert(in_span(shorter[k], last - 1));
                }
            }
            assert forall|k: int| 0 <= k < spans.len() implies is_maximal(
                bitmap,
                n,
                #[trigger] spans[k],
            ) by {
                if k < m {
                    assert(is_maximal(bitmap, n - 1, shorter[k]));
                }
            }
            assert forall|j: int, k: int| 0 <= j < k < spans.len() implies (#[trigger] spans[j]).0
                + spans[j].1 < (#[trigger] spans[k]).0 by {
                assert(spans[j] == shorter[j]);
                if k < m {
                    assert(shorter[j].0 + shorter[j].1 < shorter[k].0);
                }
            }
            assert forall|c: int| 0 <= c < n implies (#[trigger] is_free(bitmap, c) <==> covered(
                spans,
                c,
            )) by {
                if c == last {
                    assert(in_span(spans[m], c));
                } else {
                    if covered(spans, c) {
                        let k = choose|k: int|
                            0 <= k < spans.len() && in_span(#[trigger] spans[k], c);
                        assert(in_span(shorter[k], c));
                    }
                    if covered(shorter, c) {
                        let k = choose|k: int|
                            0 <= k < shorter.len() && in_span(#[trigger] shorter[k], c);
                        assert(in_span(spans[k], c));
                    }
                }
            }
        }
    }
}

/// A free cluster just before `n` stands in the last run, which ends at `n`.
proof fn lemma_last_span(bitmap: Seq<u8>, n: int)
    requires
        0 <= n <= u64::MAX,
        is_free(bitmap, n - 1),
    ensures
        free_spans(bitmap, n).len() > 0,
        free_spans(bitmap, n).last().0 + free_spans(bitmap, n).last().1 == n,
    decreases n,
{
    if is_free(bitmap, n - 2) {
        lemma_last_span(bitmap, n - 1);
    }
}

/// Whether the bitmap marks a cluster free.
fn cluster_is_free(bitmap: &[u8], cluster: u64) -> (r: bool)
    ensures
        r == is_free(bitmap@, cluster as int),
{
    if cluster / 8 >= bitmap.len() as u64 {
        return false;
    }
    let byte: u8 = bitmap[(cluster / 8) as usize];
    let bit: u8 = (cluster % 8) as u8;
    (byte >> bit) & 1u8 == 0u8
}

/// Maximal runs of free (unallocated) clusters in an NTFS `$Bitmap`, each as its first
/// cluster and its length.
///
/// Bits past `total_clusters` are padding in the final byte and are ignored. A byte the
/// bitmap does not contain reads as allocated, so free space is never fabricated past the
/// described data.
pub fn free_runs(bitmap: &[u8], total_clusters: u64) -> (r: Vec<(u64, u64)>)
    ensures
        r@ == free_spans(bitmap@, total_clusters as int),
{
    let mut runs: Vec<(u64, u64)> = Vec::new();
    let mut run_start: Option<u64> = None;
    let mut cluster: u64 = 0;
    while cluster < total_clusters
        invariant
            cluster <= total_clusters,
            run_start is Some <==> is_free(bitmap@, cluster - 1),
            match run_start {
                Some(start) => start < cluster && free_spans(bitmap@, cluster as int) == runs@.push(
                    (start, (cluster - start) as u64),
                ),
                None => free_spans(bitmap@, cluster as int) == runs@,
            },
        decreases total_clusters - cluster,
    {
        if cluster_is_free(bitmap, cluster) {
            match run_start {
                Some(start) => {
                    proof {
                        let spans = free_spans(bitmap@, cluster as int);
                        assert(spans.drop_last() =~= runs@);
                        assert(spans.last() == (start, (cluster - start) as u64));
                    }
                },
                None => {
                    run_start = Some(cluster);
                },
            }
        } else {
            match run_start {
                Some(start) => {
                    runs.push((start, cluster - start));
                },
                None => {},
            }
            run_start = None;
        }
        cluster += 1;
    }
    match run_start {
        Some(start) => {
            runs.push((start, total_clusters - start));
        },
        None => {},
    }
    runs
}

/// A sum that stops at the largest 64-bit value.
pub open spec fn saturating_sum(a: u64, b: u64) -> u64 {
    if a + b > u64::MAX {
        u64::MAX
    } else {
        (a + b) as u64
    }
}

/// The bytes of a run of free clusters.
pub open spec fn free_extent(span: (u64, u64), cluster_size: u64, base_offset: u64) -> Extent {
    Extent {
        image_offset: saturating_sum(
            base_offset,
            boot::saturating_product(span.0, cluster_size),
        ),
        len: boot::saturating_product(span.1, cluster_size),
        sparse: false,
        allocated: false,
    }
}

/// The bytes of the free clusters among the first `n`.
pub open spec fn free_extents(bitmap: Seq<u8>, cluster_size: u64, n: int, base: u64) -> Seq<
    Extent,
> {
    free_spans(bitmap, n).map_values(|span: (u64, u64)| free_extent(span, cluster_size, base))
}

/// Maps a `$Bitmap`'s free clusters to extents. `base_offset` is added to every extent so
/// that it addresses the enclosing image or partition.
pub fn unallocated_runs(
    bitmap: &[u8],
    cluster_size: u64,
    total_clusters: u64,
    base_offset: u64,
) -> (r: Vec<Extent>)
    ensures
        r@ == free_extents(bitmap@, cluster_size, total_clusters as int, base_offset),
{
    let runs = free_runs(bitmap, total_clusters);
    let mut out: Vec<Extent> = Vec::new();
    let mut i: usize = 0;
    let ghost all = free_extents(bitmap@, cluster_size, total_clusters as int, base_offset);
    while i < runs.len()
        invariant
            i <= runs.len(),
            runs@ == free_spans(bitmap@, total_clusters as int),
            all == free_extents(bitmap@, cluster_size, total_clusters as int, base_offset),
            out@ == all.take(i as int),
        decreases runs.len() - i,
    {
        let (start, len): (u64, u64) = runs[i];
        let offset: u64 = match base_offset.checked_add(boot::saturating_mul(start, cluster_size)) {
            Some(v) => v,
            None => u64::MAX,
        };
        out.push(
            Extent {
                image_offset: offset,
                len: boot::saturating_mul(len, cluster_size),
                sparse: false,
                allocated: false,
            },
        );
        i += 1;
        assert(out@ =~= all.take(i as int));
    }
    assert(all.take(i as int) =~= all);
    out
}

/// `2^k` for a bit of a byte.
pub open spec fn bit_weight(k: int) -> int {
    if k == 0 {
        1
    } else if k == 1 {
        2
    } else if k == 2 {
        4
    } else if k == 3 {
        8
    } else if k == 4 {
        16
    } else if k == 5 {
        32
    } else if k == 6 {
        64
    } else {
        128
    }
}

/// Each bit of the bitmap is one cluster, the least significant bit of a byte first: a
/// clear bit is a free cluster. What the bitmap does not reach is not free.
pub proof fn law_each_bit_is_one_cluster(bitmap: Seq<u8>, i: int, k: int)
    requires
        0 <= k < 8,
    ensures
        0 <= i < bitmap.len() ==> (is_free(bitmap, 8 * i + k) <==> (bitmap[i] as int / bit_weight(
            k,
        )) % 2 == 0),
        i < 0 || i >= bitmap.len() ==> !is_free(bitmap, 8 * i + k),
{
    let c = 8 * i + k;
    assert(c / 8 == i && c % 8 == k);
    if 0 <= i < bitmap.len() {
        let byte = bitmap[i];
        assert({
            &&& (byte >> 0u8) & 1u8 == (byte / 1) % 2
            &&& (byte >> 1u8) & 1u8 == (byte / 2) % 2
            &&& (byte >> 2u8) & 1u8 == (byte / 4) % 2
            &&& (byte >> 3u8) & 1u8 == (byte / 8) % 2
            &&& (byte >> 4u8) & 1u8 == (byte / 16) % 2
            &&& (byte >> 5u8) & 1u8 == (byte / 32) % 2
            &&& (byte >> 6u8) & 1u8 == (byte / 64) % 2
            &&& (byte >> 7u8) & 1u8 == (byte / 128) % 2
        }) by (bit_vector);
    }
}

/// Whether an extent holds byte `at` of the image.
pub open spec fn holds_byte(extent: Extent, at: int) -> bool {
    extent.image_offset <= at < extent.image_offset + extent.len
}

proof fn lemma_extent_of_span(
    bitmap: Seq<u8>,
    cluster_size: u64,
    n: int,
    base: u64,
    k: int,
    c: int,
    x: int,
)
    requires
        0 <= n <= u64::MAX,
        base + n * cluster_size <= u64::MAX,
        0 <= k < free_spans(bitmap, n).len(),
        0 <= c < n,
        0 <= x < cluster_size,
    ensures
        holds_byte(free_extents(bitmap, cluster_size, n, base)[k], base + c * cluster_size + x)
            <==> in_span(free_spans(bitmap, n)[k], c),
        !free_extents(bitmap, cluster_size, n, base)[k].sparse,
        !free_extents(bitmap, cluster_size, n, base)[k].allocated,
{
    law_free_spans_are_the_maximal_runs(bitmap, n);
    let span = free_spans(bitmap, n)[k];
    let size = cluster_size as int;
    let start = span.0 as int;
    let len = span.1 as int;
    assert(is_maximal(bitmap, n, span));
    assert(start * size + len * size == (start + len) * size && (start + len) * size <= n * size
        && 0 <= start * size && 0 <= len * size) by (nonlinear_arith)
        requires
            0 <= start,
            0 <= len,
            start + len <= n,
            0 <= size,
    ;
    assert(c < start ==> c * size + x < start * size) by (nonlinear_arith)
        requires
            0 <= x < size,
    ;
    assert(c >= start ==> c * size + x >= start * size) by (nonlinear_arith)
        requires
            0 <= x < size,
    ;
    assert(c < start + len ==> c * size + x < (start + len) * size) by (nonlinear_arith)
        requires
            0 <= x < size,
    ;
    assert(c >= start + len ==> c * size + x >= (start + len) * size) by (nonlinear_arith)
        requires
            0 <= x < size,
    ;
    let extent = free_extents(bitmap, cluster_size, n, base)[k];
    assert(extent == free_extent(span, cluster_size, base));
    assert(extent.image_offset == base + start * size);
    assert(extent.len == len * size);
}

/// The extents hold the bytes of the free clusters and no others: byte `x` of cluster `c`
/// is in one of them exactly when the cluster is free, at its place on the image.
pub proof fn law_extents_hold_the_free_bytes(
    bitmap: Seq<u8>,
    cluster_size: u64,
    n: int,
    base: u64,
    c: int,
    x: int,
)
    requires
        0 <= n <= u64::MAX,
        base + n * cluster_size <= u64::MAX,
        0 <= c < n,
        0 <= x < cluster_size,
    ensures
        is_free(bitmap, c) <==> exists|k: int|
            0 <= k < free_extents(bitmap, cluster_size, n, base).len() && holds_byte(
                #[trigger] free_extents(bitmap, cluster_size, n, base)[k],
                base + c * cluster_size + x,
            ),
        forall|k: int|
            0 <= k < free_extents(bitmap, cluster_size, n, base).len() ==> {
                let extent = #[trigger] free_extents(bitmap, cluster_size, n, base)[k];
                !extent.sparse && !extent.allocated
            },
{
    law_free_spans_are_the_maximal_runs(bitmap, n);
    let spans = free_spans(bitmap, n);
    let extents = free_extents(bitmap, cluster_size, n, base);
    let at = base + c * cluster_size + x;
    if is_free(bitmap, c) {
        assert(covered(spans, c));
        let k = choose|k: int| 0 <= k < spans.len() && in_span(#[trigger] spans[k], c);
        lemma_extent_of_span(bitmap, cluster_size, n, base, k, c, x);
        assert(holds_byte(extents[k], at));
    }
    if exists|k: int| 0 <= k < extents.len() && holds_byte(#[trigger] extents[k], at) {
        let k = choose|k: int| 0 <= k < extents.len() && holds_byte(#[trigger] extents[k], at);
        lemma_extent_of_span(bitmap, cluster_size, n, base, k, c, x);
        assert(in_span(spans[k], c));
        assert(covered(spans, c));
    }
}

} // verus!
