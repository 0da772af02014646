//! Progress telemetry: the periodic reporter of a chunked job and the meter
//! of a single-stream job.

use vstd::prelude::*;
use vstd::string::*;

use crate::plan::{seg_len, ChunkRecord};

verus! {

/// Progress of one segment.
#[derive(Clone, Copy, Debug, PartialEq, Eq, Structural)]
pub struct ChunkProgress {
    pub id: u64,
    pub downloaded: u64,
    pub total: u64,
}

/// One `download-progress` event. `speed` is in bytes per second.
pub struct DownloadProgress {
    pub id: String,
    pub downloaded: u64,
    pub total: u64,
    pub speed: u64,
    pub status: String,
    pub chunk_progress: Vec<ChunkProgress>,
}

pub open spec fn sat(v: int) -> u64 {
    if v > u64::MAX {
        u64::MAX
    } else if v < 0 {
        0
    } else {
        v as u64
    }
}

pub open spec fn sum_u64(s: Seq<u64>) -> int
    decreases s.len(),
{
    if s.len() == 0 {
        0
    } else {
        sum_u64(s.drop_last()) + s.last()
    }
}

/// Bytes per second over a 100 ms tick in which `now` follows `before`;
/// never negative, whatever order the counters were read in.
pub open spec fn tick_speed(now: u64, before: u64) -> u64 {
    sat((sat(now - before) as int) * 10)
}

proof fn lemma_sum_u64_nonneg(s: Seq<u64>)
    ensures
        sum_u64(s) >= 0,
    decreases s.len(),
{
    if s.len() > 0 {
        lemma_sum_u64_nonneg(s.drop_last());
    }
}

fn speed_over_tick(now: u64, before: u64) -> (r: u64)
    ensures
        r == tick_speed(now, before),
{
    let d = now.saturating_sub(before);
    if d > u64::MAX / 10 {
        u64::MAX
    } else {
        d * 10
    }
}

/// The snapshot sent when a job is cancelled.
pub fn cancelled_progress(id: String, total: u64) -> (r: DownloadProgress)
    ensures
        r.id@ == id@,
        r.downloaded == 0,
        r.total == total,
        r.speed == 0,
        r.status@ == "cancelled"@,
        r.chunk_progress@.len() == 0,
{
    DownloadProgress {
        id,
        downloaded: 0,
        total,
        speed: 0,
        status: String::from_str("cancelled"),
        chunk_progress: Vec::new(),
    }
}

/// What one tick of the reporter does.
pub struct ReporterStep {
    /// The event to send, if any.
    pub progress: Option<DownloadProgress>,
    /// Whether to write the segment counters into the ledger and persist.
    pub checkpoint: bool,
    /// Whether the reporter stops after this tick.
    pub done: bool,
}

/// The state of a chunked job's reporter between ticks.
pub struct Reporter {
    pub id: String,
    pub total_size: u64,
    pub chunk_sizes: Vec<u64>,
    pub last_total: u64,
    pub ticks: u64,
}

/// Ticks between two checkpoints: one second at a tick every 100 ms.
pub const CHECKPOINT_TICKS: u64 = 10;

impl Reporter {
    /// A reporter for a job with segments `chunks`.
    pub fn new(id: String, total_size: u64, chunks: &Vec<ChunkRecord>) -> (r: Self)
        requires
            forall|i: int| 0 <= i < chunks.len() ==> (#[trigger] chunks@[i]).start <= chunks@[i].end,
            forall|i: int| 0 <= i < chunks.len() ==> (#[trigger] chunks@[i]).end < u64::MAX,
        ensures
            r.id@ == id@,
            r.total_size == total_size,
            r.last_total == 0,
            r.ticks == 0,
            r.chunk_sizes@.len() == chunks@.len(),
            forall|i: int| 0 <= i < chunks.len() ==> r.chunk_sizes@[i] == seg_len(#[trigger] chunks@[i]),
    {
        let mut sizes: Vec<u64> = Vec::new();
        let mut i: usize = 0;
        while i < chunks.len()
            invariant
                i <= chunks.len(),
                sizes@.len() == i,
                forall|j: int| 0 <= j < chunks.len() ==> (#[trigger] chunks@[j]).start <= chunks@[j].end,
                forall|j: int| 0 <= j < chunks.len() ==> (#[trigger] chunks@[j]).end < u64::MAX,
                forall|j: int| 0 <= j < i ==> sizes@[j] == seg_len(#[trigger] chunks@[j]),
            decreases chunks.len() - i,
        {
            let c = chunks[i];
            sizes.push(c.end - c.start + 1);
            i = i + 1;
        }
        Reporter { id, total_size, chunk_sizes: sizes, last_total: 0, ticks: 0 }
    }

    /// One tick, given the flags and the segment counters as read now.
    pub fn tick(&mut self, cancelled: bool, paused: bool, counters: &Vec<u64>) -> (step: ReporterStep)
        requires
            counters.len() == old(self).chunk_sizes.len(),
        ensures
            final(self).id == old(self).id,
            final(self).total_size == old(self).total_size,
            final(self).chunk_sizes == old(self).chunk_sizes,
            cancelled ==> step.done && step.progress is None && !step.checkpoint && final(self).last_total
                == old(self).last_total && final(self).ticks == old(self).ticks,
            !cancelled ==> (step.progress matches Some(p) && {
                let total = sat(sum_u64(counters@));
                &&& p.id@ == old(self).id@
                &&& p.downloaded == total
                &&& p.total == old(self).total_size
                &&& p.speed == if paused {
                    0
                } else {
                    tick_speed(total, old(self).last_total)
                }
                &&& p.status@ == if paused {
                    "paused"@
                } else {
                    "downloading"@
                }
                &&& p.chunk_progress@.len() == counters@.len()
                &&& forall|i: int|
                    0 <= i < counters@.len() ==> #[trigger] p.chunk_progress@[i] == (ChunkProgress {
                        id: i as u64,
                        downloaded: counters@[i],
                        total: old(self).chunk_sizes@[i],
                    })
                &&& final(self).last_total == total
                &&& step.checkpoint == (old(self).ticks + 1 >= CHECKPOINT_TICKS)
                &&& final(self).ticks == if step.checkpoint {
                    0
                } else {
                    (old(self).ticks + 1) as u64
                }
                &&& step.done == (total >= old(self).total_size)
            }),
    {
        if cancelled {
            return ReporterStep { progress: None, checkpoint: false, done: true };
        }
        let mut chunk_progress: Vec<ChunkProgress> = Vec::new();
        let mut total: u64 = 0;
        let mut i: usize = 0;
        while i < counters.len()
            invariant
                i <= counters.len(),
                counters.len() == self.chunk_sizes.len(),
                chunk_progress@.len() == i,
                total == sat(sum_u64(counters@.subrange(0, i as int))),
                forall|j: int|
                    0 <= j < i ==> #[trigger] chunk_progress@[j] == (ChunkProgress {
                        id: j as u64,
                        downloaded: counters@[j],
                        total: self.chunk_sizes@[j],
                    }),
            decreases counters.len() - i,
        {
            proof {
                let p = counters@.subrange(0, i + 1);
                assert(p.drop_last() =~= counters@.subrange(0, i as int));
                assert(p.last() == counters@[i as int]);
                assert(sum_u64(p) == sum_u64(p.drop_last()) + counters@[i as int]);
                lemma_sum_u64_nonneg(p.drop_last());
            }
            chunk_progress.push(ChunkProgress { id: i as u64, downloaded: counters[i], total: self.chunk_sizes[i] });
            total = total.saturating_add(counters[i]);
            i = i + 1;
        }
        proof {
            assert(counters@.subrange(0, i as int) =~= counters@);
        }
        let speed = if paused {
            0
        } else {
            speed_over_tick(total, self.last_total)
        };
        proof {
            reveal_strlit("paused");
            reveal_strlit("downloading");
        }
        let status = if paused {
            String::from_str("paused")
        } else {
            String::from_str("downloading")
        };
        self.last_total = total;
        let checkpoint = self.ticks >= CHECKPOINT_TICKS - 1;
        if checkpoint {
            self.ticks = 0;
        } else {
            self.ticks = self.ticks + 1;
        }
        let progress = DownloadProgress {
            id: self.id.clone(),
            downloaded: total,
            total: self.total_size,
            speed,
            status,
            chunk_progress,
        };
        ReporterStep { progress: Some(progress), checkpoint, done: total >= self.total_size }
    }
}

/// Milliseconds between two snapshots of a single-stream job.
pub const EMIT_INTERVAL_MS: u64 = 100;

/// The byte count of a single-stream job, with the count at the last
/// snapshot sent.
pub struct StreamMeter {
    pub id: String,
    pub total: u64,
    pub downloaded: u64,
    pub last_downloaded: u64,
}

impl StreamMeter {
    /// A meter for a body of `total` bytes (0: unknown).
    pub fn new(id: String, total: u64) -> (r: Self)
        ensures
            r.id@ == id@,
            r.total == total,
            r.downloaded == 0,
            r.last_downloaded == 0,
    {
        StreamMeter { id, total, downloaded: 0, last_downloaded: 0 }
    }

    fn snapshot(&self, speed: u64, status: String) -> (r: DownloadProgress)
        ensures
            r.id@ == self.id@,
            r.downloaded == self.downloaded,
            r.total == self.total,
            r.speed == speed,
            r.status@ == status@,
            r.chunk_progress@ == seq![ChunkProgress { id: 0, downloaded: self.downloaded, total: self.total }],
    {
        let mut chunks: Vec<ChunkProgress> = Vec::new();
        chunks.push(ChunkProgress { id: 0, downloaded: self.downloaded, total: self.total });
        proof {
            assert(chunks@ =~= seq![ChunkProgress { id: 0, downloaded: self.downloaded, total: self.total }]);
        }
        DownloadProgress {
            id: self.id.clone(),
            downloaded: self.downloaded,
            total: self.total,
            speed,
            status,
            chunk_progress: chunks,
        }
    }

    /// Counts a buffer of `len` bytes, `since_emit_ms` after the last
    /// snapshot; a snapshot is due every `EMIT_INTERVAL_MS`.
    pub fn on_data(&mut self, len: u64, since_emit_ms: u64) -> (r: Option<DownloadProgress>)
        ensures
            final(self).id == old(self).id,
            final(self).total == old(self).total,
            final(self).downloaded == sat(old(self).downloaded + len),
            since_emit_ms < EMIT_INTERVAL_MS ==> r is None && final(self).last_downloaded == old(
                self,
            ).last_downloaded,
            since_emit_ms >= EMIT_INTERVAL_MS ==> (r matches Some(p) && {
                &&& p.id@ == old(self).id@
                &&& p.downloaded == final(self).downloaded
                &&& p.total == old(self).total
                &&& p.speed == tick_speed(final(self).downloaded, old(self).last_downloaded)
                &&& p.status@ == "downloading"@
                &&& p.chunk_progress@ == seq![ChunkProgress { id: 0, downloaded: final(self).downloaded, total: old(self).total }]
                &&& final(self).last_downloaded == final(self).downloaded
            }),
    {
        self.downloaded = self.downloaded.saturating_add(len);
        if since_emit_ms < EMIT_INTERVAL_MS {
            return None;
        }
        let speed = speed_over_tick(self.downloaded, self.last_downloaded);
        self.last_downloaded = self.downloaded;
        proof {
            reveal_strlit("downloading");
        }
        Some(self.snapshot(speed, String::from_str("downloading")))
    }

    /// The snapshot sent while the job is paused.
    pub fn paused_progress(&self) -> (r: DownloadProgress)
        ensures
            r.id@ == self.id@,
            r.downloaded == self.downloaded,
            r.total == self.total,
            r.speed == 0,
            r.status@ == "paused"@,
            r.chunk_progress@ == seq![ChunkProgress { id: 0, downloaded: self.downloaded, total: self.total }],
    {
        proof {
            reveal_strlit("paused");
        }
        self.snapshot(0, String::from_str("paused"))
    }
}

} // verus!
