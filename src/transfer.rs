//! The decisions of the chunked and single-stream transferors: which
//! segments to fetch and from where, what to do with each received buffer,
//! how worker results settle the job, and in what order segments merge.

use vstd::prelude::*;
use vstd::string::*;

use crate::error::EngineError;
use crate::plan::{plan_segments, plan_spec, seg_len, ChunkRecord};
use crate::text::{dec, decimal};

verus! {

/// Name of the folder, beside the target file, that holds a job's segment
/// files: `.dlm_temp_<id>`.
pub fn temp_dir_name(id: &str) -> (r: String)
    ensures
        r@ == ".dlm_temp_"@ + id@,
{
    String::from_str(".dlm_temp_").concat(id)
}

/// Name of segment `seg_id`'s file inside the job's folder: `seg_<id>`.
pub fn segment_file_name(seg_id: u64) -> (r: String)
    ensures
        r@ == "seg_"@ + dec(seg_id as nat),
{
    String::from_str("seg_").concat(decimal(seg_id).as_str())
}

/// The `Range` header value asking for bytes `from` to `to`, inclusive.
pub fn range_header(from: u64, to: u64) -> (r: String)
    ensures
        r@ == "bytes="@ + dec(from as nat) + "-"@ + dec(to as nat),
{
    String::from_str("bytes=").concat(decimal(from).as_str()).concat("-").concat(decimal(to).as_str())
}

/// The segments a job transfers: the ones saved in its record when it
/// resumes, a fresh plan otherwise.
pub fn segment_plan(total_size: u64, num_connections: u64, existing: Option<Vec<ChunkRecord>>) -> (r: Vec<
    ChunkRecord,
>)
    requires
        existing is None ==> 1 <= num_connections <= total_size,
    ensures
        match existing {
            Some(v) => r@ == v@,
            None => r@ == plan_spec(total_size as nat, num_connections as nat),
        },
{
    match existing {
        Some(v) => v,
        None => plan_segments(total_size, num_connections),
    }
}

/// One segment worker's request: bytes `from` to `to` of the resource, to
/// be written into the segment's file after the `already` bytes it holds.
#[derive(Clone, Copy, Debug, PartialEq, Eq, Structural)]
pub struct SegmentRequest {
    pub id: u64,
    pub from: u64,
    pub to: u64,
    pub already: u64,
}

/// A segment still needs a worker while it has received fewer bytes than it
/// covers; the worker asks for the rest.
pub open spec fn request_for(c: ChunkRecord) -> Option<SegmentRequest> {
    if c.downloaded < seg_len(c) {
        Some(SegmentRequest { id: c.id, from: (c.start + c.downloaded) as u64, to: c.end, already: c.downloaded })
    } else {
        None
    }
}

/// The request for segment `c`, or none when it is already whole.
pub fn segment_request(c: &ChunkRecord) -> (r: Option<SegmentRequest>)
    requires
        c.start <= c.end,
    ensures
        r == request_for(*c),
{
    if c.downloaded > c.end - c.start {
        None
    } else {
        Some(SegmentRequest { id: c.id, from: c.start + c.downloaded, to: c.end, already: c.downloaded })
    }
}

/// The requests of the segments that still need a worker, in id order.
pub fn pending_requests(chunks: &Vec<ChunkRecord>) -> (r: Vec<SegmentRequest>)
    requires
        forall|i: int| 0 <= i < chunks.len() ==> (#[trigger] chunks@[i]).start <= chunks@[i].end,
    ensures
        r@ == chunks@.filter(|c: ChunkRecord| request_for(c) is Some).map_values(
            |c: ChunkRecord| request_for(c)->0,
        ),
{
    let mut r: Vec<SegmentRequest> = Vec::new();
    let mut i: usize = 0;
    while i < chunks.len()
        invariant
            i <= chunks.len(),
            forall|j: int| 0 <= j < chunks.len() ==> (#[trigger] chunks@[j]).start <= chunks@[j].end,
            r@ == chunks@.subrange(0, i as int).filter(|c: ChunkRecord| request_for(c) is Some).map_values(
                |c: ChunkRecord| request_for(c)->0,
            ),
        decreases chunks.len() - i,
    {
        let ghost prefix = chunks@.subrange(0, i as int);
        let ghost next = chunks@.subrange(0, i + 1);
        proof {
            assert(next.drop_last() =~= prefix);
            assert(next.last() == chunks@[i as int]);
            reveal(Seq::filter);
        }
        match segment_request(&chunks[i]) {
            Some(q) => {
                r.push(q);
                proof {
                    assert(next.filter(|c: ChunkRecord| request_for(c) is Some) =~= prefix.filter(
                        |c: ChunkRecord| request_for(c) is Some,
                    ).push(chunks@[i as int]));
                    assert(r@ =~= next.filter(|c: ChunkRecord| request_for(c) is Some).map_values(
                        |c: ChunkRecord| request_for(c)->0,
                    ));
                }
            },
            None => {
                proof {
                    assert(next.filter(|c: ChunkRecord| request_for(c) is Some) =~= prefix.filter(
                        |c: ChunkRecord| request_for(c) is Some,
                    ));
                }
            },
        }
        i = i + 1;
    }
    proof {
        assert(chunks@.subrange(0, i as int) =~= chunks@);
    }
    r
}

/// A segment response is accepted when its status is 200 OK or 206 Partial
/// Content.
pub fn segment_status_ok(status: u16) -> (r: bool)
    ensures
        r == (status == 200 || status == 206),
{
    status == 200 || status == 206
}

/// What a worker does with a buffer it has just received.
#[derive(Clone, Copy, Debug, PartialEq, Eq, Structural)]
pub enum BufferAction {
    /// Stop: the job is cancelled.
    Cancel,
    /// Sleep 100 ms and look at the flags again.
    Wait,
    /// Write the buffer, count it and pace.
    Write,
}

/// Cancellation wins over a pause, and a pause holds the buffer back.
pub fn buffer_action(cancelled: bool, paused: bool) -> (r: BufferAction)
    ensures
        cancelled ==> r == BufferAction::Cancel,
        !cancelled && paused ==> r == BufferAction::Wait,
        !cancelled && !paused ==> r == BufferAction::Write,
{
    if cancelled {
        BufferAction::Cancel
    } else if paused {
        BufferAction::Wait
    } else {
        BufferAction::Write
    }
}

/// How one finished worker settles the job.
pub enum JoinStep {
    /// Its segment is whole.
    Done(u64),
    /// It failed because the job was cancelled; the failure is ignored.
    Ignored,
    /// It failed: the job fails with this error.
    Fail(EngineError),
}

/// A worker's error fails the job unless the job is cancelled, in which case
/// it is a side effect of the cancellation.
pub fn join_step(seg_id: u64, result: Result<(), EngineError>, cancelled: bool) -> (r: JoinStep)
    ensures
        result is Ok ==> r == JoinStep::Done(seg_id),
        result is Err && cancelled ==> r is Ignored,
        result is Err && !cancelled ==> r == JoinStep::Fail(result->Err_0),
{
    match result {
        Ok(()) => JoinStep::Done(seg_id),
        Err(e) => {
            if cancelled {
                JoinStep::Ignored
            } else {
                JoinStep::Fail(e)
            }
        },
    }
}

pub open spec fn merge_ids_spec(n: nat, finished: Seq<bool>, on_disk: Seq<bool>) -> Seq<u64>
    decreases n,
{
    if n == 0 {
        Seq::empty()
    } else {
        let i = (n - 1) as nat;
        let rest = merge_ids_spec(i, finished, on_disk);
        if finished[i as int] || on_disk[i as int] {
            rest.push(i as u64)
        } else {
            rest
        }
    }
}

/// The segment files to concatenate, in ascending id: those whose worker
/// finished in this run, and those already on disk from an earlier run.
pub fn merge_order(finished: &Vec<bool>, on_disk: &Vec<bool>) -> (r: Vec<u64>)
    requires
        finished.len() == on_disk.len(),
    ensures
        r@ == merge_ids_spec(finished@.len(), finished@, on_disk@),
        forall|a: int, b: int| 0 <= a < b < r@.len() ==> r@[a] < r@[b],
        forall|a: int| 0 <= a < r@.len() ==> (r@[a] as int) < finished@.len(),
{
    let mut r: Vec<u64> = Vec::new();
    let mut i: usize = 0;
    while i < finished.len()
        invariant
            i <= finished.len(),
            finished.len() == on_disk.len(),
            r@ == merge_ids_spec(i as nat, finished@, on_disk@),
            forall|a: int, b: int| 0 <= a < b < r@.len() ==> r@[a] < r@[b],
            forall|a: int| 0 <= a < r@.len() ==> (r@[a] as int) < i,
        decreases finished.len() - i,
    {
        if finished[i] || on_disk[i] {
            r.push(i as u64);
        }
        i = i + 1;
    }
    r
}

/// With every segment present, the merge takes all of them in id order.
pub proof fn lemma_merge_all(n: nat, finished: Seq<bool>, on_disk: Seq<bool>)
    requires
        finished.len() >= n,
        on_disk.len() >= n,
        forall|i: int| 0 <= i < n ==> finished[i] || on_disk[i],
    ensures
        merge_ids_spec(n, finished, on_disk) == Seq::new(n, |i: int| i as u64),
    decreases n,
{
    if n > 0 {
        lemma_merge_all((n - 1) as nat, finished, on_disk);
        assert(merge_ids_spec(n, finished, on_disk) =~= Seq::new(n, |i: int| i as u64));
    } else {
        assert(merge_ids_spec(n, finished, on_disk) =~= Seq::new(n, |i: int| i as u64));
    }
}

/// The `download-complete` event.
pub struct DownloadComplete {
    pub id: String,
    pub path: String,
    pub filename: String,
    pub total_size: u64,
}

} // verus!
