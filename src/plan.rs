//! Segment planning: splitting `[0, total_size)` into contiguous inclusive
//! byte ranges, one per connection, and reassembling them in id order.

use vstd::prelude::*;

verus! {

/// One segment of a job: the inclusive byte range `[start, end]` of the
/// remote resource and how many of its bytes have been received.
#[derive(Clone, Copy, Debug, PartialEq, Eq, Structural)]
pub struct ChunkRecord {
    pub id: u64,
    pub start: u64,
    pub end: u64,
    pub downloaded: u64,
}

/// Number of bytes a segment covers.
pub open spec fn seg_len(c: ChunkRecord) -> int {
    c.end - c.start + 1
}

/// Segment `i` of the plan for `total` bytes over `n` connections: every
/// segment has `total / n` bytes but the last, which absorbs the remainder.
pub open spec fn planned_segment(total: nat, n: nat, i: nat) -> ChunkRecord {
    let size = total / n;
    ChunkRecord {
        id: i as u64,
        start: (i * size) as u64,
        end: if i + 1 == n {
            (total - 1) as u64
        } else {
            ((i + 1) * size - 1) as u64
        },
        downloaded: 0,
    }
}

pub open spec fn plan_spec(total: nat, n: nat) -> Seq<ChunkRecord> {
    Seq::new(n, |i: int| planned_segment(total, n, i as nat))
}

/// The segments cover `[0, total)` contiguously and disjointly, in id order,
/// each one non-empty and with ids `0, 1, ...`.
pub open spec fn partitions(segs: Seq<ChunkRecord>, total: nat) -> bool {
    &&& segs.len() > 0
    &&& segs[0].start == 0
    &&& segs.last().end + 1 == total
    &&& forall|i: int| 0 <= i < segs.len() ==> (#[trigger] segs[i]).id == i
    &&& forall|i: int| 0 <= i < segs.len() ==> (#[trigger] segs[i]).start <= segs[i].end
    &&& forall|i: int| 0 <= i < segs.len() - 1 ==> (#[trigger] segs[i]).end + 1 == segs[i + 1].start
}

/// Every segment has received at most the bytes it covers.
pub open spec fn progress_bounded(segs: Seq<ChunkRecord>) -> bool {
    forall|i: int| 0 <= i < segs.len() ==> (#[trigger] segs[i]).downloaded <= seg_len(segs[i])
}

pub open spec fn sum_lens(segs: Seq<ChunkRecord>) -> int
    decreases segs.len(),
{
    if segs.len() == 0 {
        0
    } else {
        sum_lens(segs.drop_last()) + seg_len(segs.last())
    }
}

pub open spec fn sum_downloaded(segs: Seq<ChunkRecord>) -> nat
    decreases segs.len(),
{
    if segs.len() == 0 {
        0
    } else {
        sum_downloaded(segs.drop_last()) + segs.last().downloaded as nat
    }
}

/// Concatenation of byte sequences, in order.
pub open spec fn concat_all(parts: Seq<Seq<u8>>) -> Seq<u8>
    decreases parts.len(),
{
    if parts.len() == 0 {
        Seq::empty()
    } else {
        concat_all(parts.drop_last()) + parts.last()
    }
}

proof fn lemma_planned_bounds(total: nat, n: nat, i: nat)
    requires
        1 <= n <= total,
        i < n,
    ensures
        total / n >= 1,
        i * (total / n) + total / n <= total,
        (i + 1) * (total / n) == i * (total / n) + total / n,
        i * (total / n) <= total,
{
    let size = total / n;
    assert(size >= 1) by (nonlinear_arith)
        requires
            1 <= n <= total,
            size == total / n,
    ;
    assert(n * size <= total) by (nonlinear_arith)
        requires
            n >= 1,
            size == total / n,
    ;
    assert(i * size + size <= n * size) by (nonlinear_arith)
        requires
            i < n,
    ;
    assert((i + 1) * size == i * size + size) by (nonlinear_arith);
}

/// The bounds of planned segment `i`, as integers.
proof fn lemma_planned_segment(total: nat, n: nat, i: nat)
    requires
        1 <= n <= total,
        total <= u64::MAX,
        i < n,
    ensures
        planned_segment(total, n, i).id == i,
        planned_segment(total, n, i).start == i * (total / n),
        planned_segment(total, n, i).end == if i + 1 == n {
            total - 1
        } else {
            i * (total / n) + total / n - 1
        },
        planned_segment(total, n, i).start <= planned_segment(total, n, i).end,
        planned_segment(total, n, i).downloaded == 0,
{
    lemma_planned_bounds(total, n, i);
}

/// Splits `total_size` bytes over `num_connections` segments.
pub fn plan_segments(total_size: u64, num_connections: u64) -> (r: Vec<ChunkRecord>)
    requires
        1 <= num_connections <= total_size,
    ensures
        r@ == plan_spec(total_size as nat, num_connections as nat),
{
    let size = total_size / num_connections;
    let mut r: Vec<ChunkRecord> = Vec::new();
    let mut i: u64 = 0;
    while i < num_connections
        invariant
            1 <= num_connections <= total_size,
            size == total_size / num_connections,
            i <= num_connections,
            r@ =~= plan_spec(total_size as nat, num_connections as nat).subrange(0, i as int),
        decreases num_connections - i,
    {
        proof {
            lemma_planned_bounds(total_size as nat, num_connections as nat, i as nat);
        }
        let start = i * size;
        let end = if i == num_connections - 1 {
            total_size - 1
        } else {
            start + size - 1
        };
        r.push(ChunkRecord { id: i, start, end, downloaded: 0 });
        i = i + 1;
    }
    r
}

/// Contiguous segments cover, between them, exactly the bytes from the first
/// one's start to the last one's end.
pub proof fn lemma_sum_lens_contiguous(segs: Seq<ChunkRecord>)
    requires
        segs.len() > 0,
        forall|i: int| 0 <= i < segs.len() - 1 ==> (#[trigger] segs[i]).end + 1 == segs[i + 1].start,
    ensures
        sum_lens(segs) == segs.last().end + 1 - segs[0].start,
    decreases segs.len(),
{
    if segs.len() > 1 {
        let init = segs.drop_last();
        assert forall|i: int| 0 <= i < init.len() - 1 implies (#[trigger] init[i]).end + 1 == init[i + 1].start by {
            assert(segs[i].end + 1 == segs[i + 1].start);
        }
        lemma_sum_lens_contiguous(init);
        assert(segs[segs.len() - 2].end + 1 == segs[segs.len() - 1].start);
        assert(init.last() == segs[segs.len() - 2]);
        assert(init[0] == segs[0]);
    } else {
        assert(segs.drop_last().len() == 0);
        assert(sum_lens(segs.drop_last()) == 0);
        assert(segs.last() == segs[0]);
    }
}

/// The plan for `total` bytes over `n` connections partitions `[0, total)`.
pub proof fn lemma_plan_partitions(total: nat, n: nat)
    requires
        1 <= n <= total,
        total <= u64::MAX,
    ensures
        partitions(plan_spec(total, n), total),
        progress_bounded(plan_spec(total, n)),
{
    let p = plan_spec(total, n);
    assert forall|i: int| 0 <= i < p.len() implies (#[trigger] p[i]).start <= p[i].end && p[i].id == i
        && p[i].downloaded == 0 by {
        lemma_planned_segment(total, n, i as nat);
    }
    assert forall|i: int| 0 <= i < p.len() - 1 implies (#[trigger] p[i]).end + 1 == p[i + 1].start by {
        lemma_planned_segment(total, n, i as nat);
        lemma_planned_segment(total, n, (i + 1) as nat);
        lemma_planned_bounds(total, n, i as nat);
    }
    lemma_planned_segment(total, n, 0);
    lemma_planned_segment(total, n, (n - 1) as nat);
    assert(0 * (total / n) == 0);
}

/// For `n` connections and `total >= n` bytes the plan has `n` segments whose
/// sizes add up to `total`; all have `total / n` bytes but the last, which
/// has `total % n` more, at most `n - 1`.
pub proof fn lemma_plan_sizes(total: u64, n: u64)
    requires
        1 <= n <= 32,
        n <= total,
    ensures
        plan_spec(total as nat, n as nat).len() == n,
        sum_lens(plan_spec(total as nat, n as nat)) == total,
        forall|i: int| 0 <= i < n - 1 ==> seg_len(#[trigger] plan_spec(total as nat, n as nat)[i]) == total / n,
        seg_len(plan_spec(total as nat, n as nat)[n - 1]) == total / n + total % n,
        total % n <= n - 1,
{
    let p = plan_spec(total as nat, n as nat);
    lemma_plan_partitions(total as nat, n as nat);
    lemma_sum_lens_contiguous(p);
    assert forall|i: int| 0 <= i < n - 1 implies seg_len(#[trigger] p[i]) == total / n by {
        lemma_planned_segment(total as nat, n as nat, i as nat);
    }
    let size = total / n;
    assert(total == n * size + total % n) by (nonlinear_arith)
        requires
            n >= 1,
            size == total / n,
    ;
    assert((n - 1) * size + size == n * size) by (nonlinear_arith);
    lemma_planned_segment(total as nat, n as nat, (n - 1) as nat);
}

proof fn lemma_subrange_join(r: Seq<u8>, a: int, b: int, c: int)
    requires
        0 <= a <= b <= c <= r.len(),
    ensures
        r.subrange(a, b) + r.subrange(b, c) == r.subrange(a, c),
{
    assert(r.subrange(a, b) + r.subrange(b, c) =~= r.subrange(a, c));
}

proof fn lemma_end_below_last(segs: Seq<ChunkRecord>, i: int)
    requires
        0 <= i < segs.len(),
        forall|j: int| 0 <= j < segs.len() ==> (#[trigger] segs[j]).start <= segs[j].end,
        forall|j: int| 0 <= j < segs.len() - 1 ==> (#[trigger] segs[j]).end + 1 == segs[j + 1].start,
    ensures
        segs[i].end <= segs.last().end,
    decreases segs.len() - i,
{
    if i < segs.len() - 1 {
        lemma_end_below_last(segs, i + 1);
        assert(segs[i].end + 1 == segs[i + 1].start);
        assert(segs[i + 1].start <= segs[i + 1].end);
    }
}

proof fn lemma_concat_prefix(resource: Seq<u8>, segs: Seq<ChunkRecord>, files: Seq<Seq<u8>>, k: int)
    requires
        1 <= k <= segs.len(),
        files.len() == segs.len(),
        segs.last().end < resource.len(),
        forall|i: int| 0 <= i < segs.len() ==> (#[trigger] segs[i]).start <= segs[i].end,
        forall|i: int| 0 <= i < segs.len() - 1 ==> (#[trigger] segs[i]).end + 1 == segs[i + 1].start,
        forall|i: int|
            0 <= i < segs.len() ==> #[trigger] files[i] == resource.subrange(
                segs[i].start as int,
                segs[i].end + 1,
            ),
    ensures
        segs[0].start <= segs[k - 1].end + 1,
        concat_all(files.subrange(0, k)) == resource.subrange(segs[0].start as int, segs[k - 1].end + 1),
    decreases k,
{
    let f = files.subrange(0, k);
    let e = Seq::<Seq<u8>>::empty();
    lemma_end_below_last(segs, k - 1);
    assert(segs[k - 1].start <= segs[k - 1].end);
    if k == 1 {
        assert(f.drop_last() =~= e);
        assert(concat_all(e) == Seq::<u8>::empty());
        assert(concat_all(f) == concat_all(f.drop_last()) + f.last());
        assert(concat_all(f) =~= files[0]);
    } else {
        lemma_concat_prefix(resource, segs, files, k - 1);
        assert(f.drop_last() =~= files.subrange(0, k - 1));
        assert(f.last() == files[k - 1]);
        assert(segs[k - 2].end + 1 == segs[k - 1].start);
        lemma_subrange_join(resource, segs[0].start as int, segs[k - 1].start as int, segs[k - 1].end + 1);
    }
}

/// Reassembly: when the segments partition the resource and each segment's
/// file holds exactly that segment's bytes, the files concatenated in
/// ascending id give back the resource.
pub proof fn lemma_merge_reassembles(resource: Seq<u8>, segs: Seq<ChunkRecord>, files: Seq<Seq<u8>>)
    requires
        partitions(segs, resource.len()),
        files.len() == segs.len(),
        forall|i: int|
            0 <= i < segs.len() ==> #[trigger] files[i] == resource.subrange(
                segs[i].start as int,
                segs[i].end + 1,
            ),
    ensures
        concat_all(files) == resource,
{
    lemma_concat_prefix(resource, segs, files, segs.len() as int);
    assert(files.subrange(0, segs.len() as int) =~= files);
    assert(resource.subrange(0, resource.len() as int) =~= resource);
}

} // verus!
