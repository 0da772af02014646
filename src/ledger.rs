//! The job ledger: one record per download, keyed by job id, with the
//! segment bookkeeping that lets a job resume after a restart.

use vstd::prelude::*;
use vstd::string::*;

use crate::plan::{
    ChunkRecord, partitions, plan_segments, plan_spec, progress_bounded, seg_len, sum_downloaded,
    sum_lens,
};
use crate::sys::now_secs;

verus! {

/// Lifecycle state of a job.
#[derive(Clone, Copy, Debug, PartialEq, Eq, Structural)]
pub enum DownloadStatus {
    Pending,
    Downloading,
    Paused,
    Completed,
    Failed,
    Cancelled,
}

/// Completed, Failed and Cancelled end a job; its progress is then frozen.
pub open spec fn is_terminal(s: DownloadStatus) -> bool {
    s == DownloadStatus::Completed || s == DownloadStatus::Failed || s == DownloadStatus::Cancelled
}

/// The persistent record of one download.
#[derive(Clone, Debug)]
pub struct DownloadRecord {
    pub id: String,
    pub url: String,
    pub filename: String,
    pub file_path: String,
    pub total_size: u64,
    pub resumable: bool,
    pub status: DownloadStatus,
    pub num_connections: u64,
    pub chunks: Vec<ChunkRecord>,
    pub created_at: i64,
    pub updated_at: i64,
}

/// The mathematical value of a record.
pub ghost struct RecordView {
    pub id: Seq<char>,
    pub url: Seq<char>,
    pub filename: Seq<char>,
    pub file_path: Seq<char>,
    pub total_size: u64,
    pub resumable: bool,
    pub status: DownloadStatus,
    pub num_connections: u64,
    pub chunks: Seq<ChunkRecord>,
    pub created_at: i64,
    pub updated_at: i64,
}

impl View for DownloadRecord {
    type V = RecordView;

    open spec fn view(&self) -> RecordView {
        RecordView {
            id: self.id@,
            url: self.url@,
            filename: self.filename@,
            file_path: self.file_path@,
            total_size: self.total_size,
            resumable: self.resumable,
            status: self.status,
            num_connections: self.num_connections,
            chunks: self.chunks@,
            created_at: self.created_at,
            updated_at: self.updated_at,
        }
    }
}

/// A job is transferred in parallel segments when the server accepts byte
/// ranges and the size is known; otherwise it takes a single stream.
pub open spec fn chunked(resumable: bool, total_size: u64) -> bool {
    resumable && total_size > 0
}

/// Number of segments planned for a chunked job: the configured connection
/// count, at least one and at most one per byte.
pub open spec fn planned_count(num_connections: u64, total_size: u64) -> u64 {
    if num_connections == 0 {
        1
    } else if num_connections > total_size {
        total_size
    } else {
        num_connections
    }
}

/// The single segment of a job taken in one stream.
pub open spec fn single_segment(total_size: u64) -> ChunkRecord {
    ChunkRecord {
        id: 0,
        start: 0,
        end: if total_size > 0 {
            (total_size - 1) as u64
        } else {
            0
        },
        downloaded: 0,
    }
}

pub open spec fn new_segments(total_size: u64, resumable: bool, num_connections: u64) -> Seq<
    ChunkRecord,
> {
    if chunked(resumable, total_size) {
        plan_spec(total_size as nat, planned_count(num_connections, total_size) as nat)
    } else {
        seq![single_segment(total_size)]
    }
}

/// Segments of a record: with a known size they partition it and none has
/// received more than it covers; with an unknown size there is one empty
/// placeholder.
pub open spec fn segments_wf(chunks: Seq<ChunkRecord>, total_size: u64) -> bool {
    if total_size > 0 {
        partitions(chunks, total_size as nat) && progress_bounded(chunks)
    } else {
        chunks == seq![single_segment(0)]
    }
}

impl RecordView {
    pub open spec fn wf(self) -> bool {
        &&& self.num_connections == self.chunks.len()
        &&& segments_wf(self.chunks, self.total_size)
    }
}

impl DownloadRecord {
    pub open spec fn wf(&self) -> bool {
        self@.wf()
    }

    /// A fresh record at time `now`: Pending, nothing received, with the
    /// segment plan its size and range support call for.
    pub fn new_at(
        id: String,
        url: String,
        filename: String,
        file_path: String,
        total_size: u64,
        resumable: bool,
        num_connections: u64,
        now: i64,
    ) -> (r: Self)
        ensures
            r@ == (RecordView {
                id: id@,
                url: url@,
                filename: filename@,
                file_path: file_path@,
                total_size,
                resumable,
                status: DownloadStatus::Pending,
                num_connections: new_segments(total_size, resumable, num_connections).len() as u64,
                chunks: new_segments(total_size, resumable, num_connections),
                created_at: now,
                updated_at: now,
            }),
            r.wf(),
    {
        let chunks = if resumable && total_size > 0 {
            let count = if num_connections == 0 {
                1
            } else if num_connections > total_size {
                total_size
            } else {
                num_connections
            };
            proof {
                crate::plan::lemma_plan_partitions(total_size as nat, count as nat);
            }
            plan_segments(total_size, count)
        } else {
            let end = if total_size > 0 {
                total_size - 1
            } else {
                0
            };
            let mut v: Vec<ChunkRecord> = Vec::new();
            v.push(ChunkRecord { id: 0, start: 0, end, downloaded: 0 });
            proof {
                assert(v@ =~= seq![single_segment(total_size)]);
                if total_size > 0 {
                    assert(v@.last() == v@[0]);
                }
            }
            v
        };
        let n = chunks.len() as u64;
        DownloadRecord {
            id,
            url,
            filename,
            file_path,
            total_size,
            resumable,
            status: DownloadStatus::Pending,
            num_connections: n,
            chunks,
            created_at: now,
            updated_at: now,
        }
    }

    /// A fresh record stamped with the current time.
    pub fn new(
        id: String,
        url: String,
        filename: String,
        file_path: String,
        total_size: u64,
        resumable: bool,
        num_connections: u64,
    ) -> (r: Self)
        ensures
            r.wf(),
            r.id@ == id@,
            r.url@ == url@,
            r.filename@ == filename@,
            r.file_path@ == file_path@,
            r.total_size == total_size,
            r.resumable == resumable,
            r.status == DownloadStatus::Pending,
            r.chunks@ == new_segments(total_size, resumable, num_connections),
            r.created_at == r.updated_at,
    {
        let now = now_secs();
        Self::new_at(id, url, filename, file_path, total_size, resumable, num_connections, now)
    }

    /// Bytes received over all segments (saturating at `u64::MAX`).
    pub fn total_downloaded(&self) -> (r: u64)
        ensures
            r == if sum_downloaded(self.chunks@) <= u64::MAX {
                sum_downloaded(self.chunks@)
            } else {
                u64::MAX as nat
            },
    {
        let mut total: u64 = 0;
        let mut i: usize = 0;
        while i < self.chunks.len()
            invariant
                i <= self.chunks.len(),
                total == if sum_downloaded(self.chunks@.subrange(0, i as int)) <= u64::MAX {
                    sum_downloaded(self.chunks@.subrange(0, i as int))
                } else {
                    u64::MAX as nat
                },
            decreases self.chunks.len() - i,
        {
            let ghost prefix = self.chunks@.subrange(0, i + 1);
            assert(prefix.drop_last() =~= self.chunks@.subrange(0, i as int));
            total = total.saturating_add(self.chunks[i].downloaded);
            i = i + 1;
        }
        assert(self.chunks@.subrange(0, i as int) =~= self.chunks@);
        total
    }

    /// Whether the record is well formed, as loaded from storage.
    pub fn check_wf(&self) -> (r: bool)
        ensures
            r == self.wf(),
    {
        let n = self.chunks.len();
        if n == 0 || self.num_connections != n as u64 {
            return false;
        }
        if self.total_size == 0 {
            let c = self.chunks[0];
            let ok = n == 1 && c.id == 0 && c.start == 0 && c.end == 0 && c.downloaded == 0;
            proof {
                if ok {
                    assert(self.chunks@ =~= seq![single_segment(0)]);
                }
            }
            return ok;
        }
        segments_ok(&self.chunks, self.total_size)
    }
}

/// Whether `chunks` partition `[0, total_size)` with bounded progress.
fn segments_ok(chunks: &Vec<ChunkRecord>, total_size: u64) -> (r: bool)
    requires
        chunks.len() > 0,
        total_size > 0,
    ensures
        r == (partitions(chunks@, total_size as nat) && progress_bounded(chunks@)),
{
    let n = chunks.len();
    if chunks[0].start != 0 || chunks[n - 1].end != total_size - 1 {
        return false;
    }
    let mut i: usize = 0;
    while i < n
        invariant
            n == chunks.len(),
            n > 0,
            i <= n,
            forall|j: int| 0 <= j < i ==> (#[trigger] chunks@[j]).id == j,
            forall|j: int| 0 <= j < i ==> (#[trigger] chunks@[j]).start <= chunks@[j].end,
            forall|j: int| 0 <= j < i ==> (#[trigger] chunks@[j]).downloaded <= seg_len(chunks@[j]),
            forall|j: int| 0 <= j < i && j < n - 1 ==> (#[trigger] chunks@[j]).end + 1 == chunks@[j + 1].start,
        decreases n - i,
    {
        let c = chunks[i];
        if c.id != i as u64 || c.start > c.end {
            assert(!partitions(chunks@, total_size as nat));
            return false;
        }
        if c.downloaded > 0 && c.downloaded - 1 > c.end - c.start {
            assert(!progress_bounded(chunks@));
            return false;
        }
        if i + 1 < n && (c.end == u64::MAX || c.end + 1 != chunks[i + 1].start) {
            assert(!partitions(chunks@, total_size as nat));
            return false;
        }
        i = i + 1;
    }
    assert(chunks@.last() == chunks@[n - 1]);
    true
}

/// Probe then download: a job created for a resumable resource of known
/// size plans segments that together cover exactly that size, so once every
/// segment is whole the bytes received equal the probed size.
pub proof fn lemma_planned_job_covers_size(size: u64, num_connections: u64)
    requires
        size > 0,
    ensures
        sum_lens(new_segments(size, true, num_connections)) == size,
        partitions(new_segments(size, true, num_connections), size as nat),
{
    let n = planned_count(num_connections, size);
    crate::plan::lemma_plan_partitions(size as nat, n as nat);
    crate::plan::lemma_sum_lens_contiguous(plan_spec(size as nat, n as nat));
}

/// A progress bound per segment keeps the sum within the covered bytes.
pub proof fn lemma_sum_downloaded_le(segs: Seq<ChunkRecord>)
    requires
        progress_bounded(segs),
    ensures
        sum_downloaded(segs) <= sum_lens(segs),
    decreases segs.len(),
{
    if segs.len() > 0 {
        let init = segs.drop_last();
        assert forall|i: int| 0 <= i < init.len() implies (#[trigger] init[i]).downloaded <= seg_len(init[i]) by {
            assert(segs[i].downloaded <= seg_len(segs[i]));
        }
        lemma_sum_downloaded_le(init);
        assert(segs.last() == segs[segs.len() - 1]);
    }
}

/// A change that the control surface applies to one record.
pub enum RecordChange {
    Status(DownloadStatus),
    File { filename: String, file_path: String },
}

/// The record after `c`, stamped at `now`.
pub open spec fn apply_change(r: RecordView, c: RecordChange, now: i64) -> RecordView {
    match c {
        RecordChange::Status(s) => RecordView { status: s, updated_at: now, ..r },
        RecordChange::File { filename, file_path } => RecordView {
            filename: filename@,
            file_path: file_path@,
            updated_at: now,
            ..r
        },
    }
}

/// The segments after a checkpoint of `downloaded` bytes for segment
/// `chunk_id`: the count is capped at the segment's size, and nothing moves
/// once the job has ended or while its size is unknown.
pub open spec fn checkpoint_chunks(r: RecordView, chunk_id: u64, downloaded: u64) -> Seq<ChunkRecord> {
    if is_terminal(r.status) || r.total_size == 0 || chunk_id >= r.chunks.len() {
        r.chunks
    } else {
        let c = r.chunks[chunk_id as int];
        r.chunks.update(
            chunk_id as int,
            ChunkRecord {
                downloaded: if downloaded as int <= seg_len(c) {
                    downloaded
                } else {
                    seg_len(c) as u64
                },
                ..c
            },
        )
    }
}

/// A record after restart: a job that was downloading is paused.
pub open spec fn demote(r: RecordView, now: i64) -> RecordView {
    if r.status == DownloadStatus::Downloading {
        RecordView { status: DownloadStatus::Paused, updated_at: now, ..r }
    } else {
        r
    }
}

pub open spec fn has_id(recs: Seq<DownloadRecord>, k: Seq<char>, i: int) -> bool {
    0 <= i < recs.len() && recs[i].id@ == k
}

pub open spec fn unique_ids(recs: Seq<DownloadRecord>) -> bool {
    forall|i: int, j: int|
        #![trigger recs[i].id@, recs[j].id@]
        0 <= i < recs.len() && 0 <= j < recs.len() && recs[i].id@ == recs[j].id@ ==> i == j
}

/// The records as a map from job id.
pub open spec fn ledger_map(recs: Seq<DownloadRecord>) -> Map<Seq<char>, RecordView> {
    Map::new(
        |k: Seq<char>| exists|i: int| has_id(recs, k, i),
        |k: Seq<char>| recs[choose|i: int| has_id(recs, k, i)]@,
    )
}

/// The ledger: every job's record, at most one per id.
pub struct DownloadHistory {
    pub downloads: Vec<DownloadRecord>,
}

impl View for DownloadHistory {
    type V = Map<Seq<char>, RecordView>;

    open spec fn view(&self) -> Map<Seq<char>, RecordView> {
        ledger_map(self.downloads@)
    }
}

proof fn lemma_lookup(recs: Seq<DownloadRecord>, i: int)
    requires
        unique_ids(recs),
        0 <= i < recs.len(),
    ensures
        ledger_map(recs).contains_key(recs[i].id@),
        ledger_map(recs)[recs[i].id@] == recs[i]@,
{
    let k = recs[i].id@;
    assert(has_id(recs, k, i));
    let j = choose|j: int| has_id(recs, k, j);
    assert(recs[j].id@ == recs[i].id@);
}

proof fn lemma_absent(recs: Seq<DownloadRecord>, k: Seq<char>)
    requires
        forall|i: int| 0 <= i < recs.len() ==> (#[trigger] recs[i]).id@ != k,
    ensures
        !ledger_map(recs).contains_key(k),
{
    assert(!exists|i: int| has_id(recs, k, i));
}

/// Replacing record `i` by one with the same id replaces that entry.
proof fn lemma_replace(recs: Seq<DownloadRecord>, i: int, r: DownloadRecord)
    requires
        unique_ids(recs),
        0 <= i < recs.len(),
        r.id@ == recs[i].id@,
    ensures
        unique_ids(recs.update(i, r)),
        ledger_map(recs.update(i, r)) == ledger_map(recs).insert(r.id@, r@),
{
    let n = recs.update(i, r);
    assert(forall|j: int| 0 <= j < recs.len() ==> #[trigger] n[j].id@ == recs[j].id@);
    assert forall|a: int, b: int|
        #![trigger n[a].id@, n[b].id@]
        0 <= a < n.len() && 0 <= b < n.len() && n[a].id@ == n[b].id@ implies a == b by {
        assert(recs[a].id@ == recs[b].id@);
    }
    assert forall|k: Seq<char>| #[trigger] ledger_map(n).contains_key(k) == ledger_map(recs).insert(r.id@, r@).contains_key(k)
        && (ledger_map(n).contains_key(k) ==> ledger_map(n)[k] == ledger_map(recs).insert(r.id@, r@)[k]) by {
        if k == r.id@ {
            lemma_lookup(n, i);
            assert(n[i] == r);
        } else if exists|j: int| has_id(recs, k, j) {
            let j = choose|j: int| has_id(recs, k, j);
            assert(j != i);
            lemma_lookup(recs, j);
            lemma_lookup(n, j);
            assert(n[j] == recs[j]);
        } else {
            assert forall|j: int| !has_id(n, k, j) by {
                if 0 <= j < n.len() {
                    assert(n[j].id@ == recs[j].id@);
                    assert(!has_id(recs, k, j));
                }
            }
        }
    }
    assert(ledger_map(n) =~= ledger_map(recs).insert(r.id@, r@));
}

/// Appending a record with a new id adds that entry.
proof fn lemma_append(recs: Seq<DownloadRecord>, r: DownloadRecord)
    requires
        unique_ids(recs),
        forall|i: int| 0 <= i < recs.len() ==> (#[trigger] recs[i]).id@ != r.id@,
    ensures
        unique_ids(recs.push(r)),
        ledger_map(recs.push(r)) == ledger_map(recs).insert(r.id@, r@),
{
    let n = recs.push(r);
    assert(forall|j: int| 0 <= j < recs.len() ==> #[trigger] n[j] == recs[j]);
    assert forall|k: Seq<char>| #[trigger] ledger_map(n).contains_key(k) == ledger_map(recs).insert(r.id@, r@).contains_key(k)
        && (ledger_map(n).contains_key(k) ==> ledger_map(n)[k] == ledger_map(recs).insert(r.id@, r@)[k]) by {
        if k == r.id@ {
            lemma_lookup(n, recs.len() as int);
        } else if exists|j: int| has_id(recs, k, j) {
            let j = choose|j: int| has_id(recs, k, j);
            lemma_lookup(recs, j);
            lemma_lookup(n, j);
        } else {
            assert forall|j: int| !has_id(n, k, j) by {
                if 0 <= j < recs.len() {
                    assert(!has_id(recs, k, j));
                }
            }
        }
    }
    assert(ledger_map(n) =~= ledger_map(recs).insert(r.id@, r@));
}

/// Removing record `i` removes its entry.
proof fn lemma_remove(recs: Seq<DownloadRecord>, i: int)
    requires
        unique_ids(recs),
        0 <= i < recs.len(),
    ensures
        unique_ids(recs.remove(i)),
        ledger_map(recs.remove(i)) == ledger_map(recs).remove(recs[i].id@),
{
    let n = recs.remove(i);
    let key = recs[i].id@;
    assert(forall|j: int| 0 <= j < i ==> #[trigger] n[j] == recs[j]);
    assert(forall|j: int| i <= j < n.len() ==> #[trigger] n[j] == recs[j + 1]);
    assert forall|a: int, b: int|
        #![trigger n[a].id@, n[b].id@]
        0 <= a < n.len() && 0 <= b < n.len() && n[a].id@ == n[b].id@ implies a == b by {
        let a2 = if a < i { a } else { a + 1 };
        let b2 = if b < i { b } else { b + 1 };
        assert(recs[a2].id@ == recs[b2].id@);
    }
    assert forall|k: Seq<char>| #[trigger] ledger_map(n).contains_key(k) == ledger_map(recs).remove(key).contains_key(k)
        && (ledger_map(n).contains_key(k) ==> ledger_map(n)[k] == ledger_map(recs).remove(key)[k]) by {
        if exists|j: int| has_id(n, k, j) {
            let j = choose|j: int| has_id(n, k, j);
            let j2 = if j < i { j } else { j + 1 };
            lemma_lookup(n, j);
            lemma_lookup(recs, j2);
            assert(recs[j2].id@ != key);
        } else {
            if k != key && exists|j: int| has_id(recs, k, j) {
                let j = choose|j: int| has_id(recs, k, j);
                assert(j != i);
                let j3 = if j < i { j } else { j - 1 };
                assert(has_id(n, k, j3));
            }
        }
    }
    assert(ledger_map(n) =~= ledger_map(recs).remove(key));
}

/// Rewriting every record in place, ids kept, rewrites every entry.
proof fn lemma_pointwise(a: Seq<DownloadRecord>, b: Seq<DownloadRecord>, f: spec_fn(RecordView) -> RecordView)
    requires
        unique_ids(a),
        a.len() == b.len(),
        forall|j: int| 0 <= j < a.len() ==> (#[trigger] b[j]).id@ == a[j].id@,
        forall|j: int| 0 <= j < a.len() ==> (#[trigger] b[j])@ == f(a[j]@),
    ensures
        unique_ids(b),
        ledger_map(b) == ledger_map(a).map_values(f),
{
    assert forall|x: int, y: int|
        #![trigger b[x].id@, b[y].id@]
        0 <= x < b.len() && 0 <= y < b.len() && b[x].id@ == b[y].id@ implies x == y by {
        assert(a[x].id@ == a[y].id@);
    }
    assert forall|k: Seq<char>| #[trigger] ledger_map(b).contains_key(k) == ledger_map(a).map_values(f).contains_key(k)
        && (ledger_map(b).contains_key(k) ==> ledger_map(b)[k] == ledger_map(a).map_values(f)[k]) by {
        if exists|j: int| has_id(a, k, j) {
            let j = choose|j: int| has_id(a, k, j);
            lemma_lookup(a, j);
            lemma_lookup(b, j);
        } else {
            assert forall|j: int| !has_id(b, k, j) by {
                if 0 <= j < b.len() {
                    assert(!has_id(a, k, j));
                }
            }
        }
    }
    assert(ledger_map(b) =~= ledger_map(a).map_values(f));
}

impl DownloadHistory {
    /// Unique ids and well-formed records.
    pub open spec fn wf(&self) -> bool {
        &&& unique_ids(self.downloads@)
        &&& forall|i: int| 0 <= i < self.downloads@.len() ==> (#[trigger] self.downloads@[i]).wf()
    }

    /// An empty ledger.
    pub fn new() -> (r: Self)
        ensures
            r.wf(),
            r@ == Map::<Seq<char>, RecordView>::empty(),
    {
        let r = DownloadHistory { downloads: Vec::new() };
        proof {
            assert forall|k: Seq<char>| !(#[trigger] r@.contains_key(k)) by {
                lemma_absent(r.downloads@, k);
            }
            assert(r@ =~= Map::<Seq<char>, RecordView>::empty());
        }
        r
    }

    fn find_index(&self, id: &str) -> (r: Option<usize>)
        ensures
            match r {
                Some(i) => has_id(self.downloads@, id@, i as int),
                None => forall|i: int| 0 <= i < self.downloads@.len() ==> (#[trigger] self.downloads@[i]).id@ != id@,
            },
    {
        let key = String::from_str(id);
        let mut i: usize = 0;
        while i < self.downloads.len()
            invariant
                i <= self.downloads.len(),
                key@ == id@,
                forall|j: int| 0 <= j < i ==> (#[trigger] self.downloads@[j]).id@ != id@,
            decreases self.downloads.len() - i,
        {
            if self.downloads[i].id == key {
                return Some(i);
            }
            i = i + 1;
        }
        None
    }

    /// Adds `record`, replacing any record with the same id.
    pub fn add_download(&mut self, record: DownloadRecord)
        requires
            old(self).wf(),
            record.wf(),
        ensures
            final(self).wf(),
            final(self)@ == old(self)@.insert(record.id@, record@),
    {
        let ghost old_recs = self.downloads@;
        match self.find_index(record.id.as_str()) {
            Some(i) => {
                proof {
                    lemma_replace(old_recs, i as int, record);
                }
                self.downloads.remove(i);
                self.downloads.insert(i, record);
                proof {
                    assert(self.downloads@ =~= old_recs.update(i as int, record));
                }
            },
            None => {
                proof {
                    lemma_append(old_recs, record);
                }
                self.downloads.push(record);
            },
        }
    }

    /// The record with id `id`, if any.
    pub fn get_download(&self, id: &str) -> (r: Option<&DownloadRecord>)
        requires
            self.wf(),
        ensures
            match r {
                Some(rec) => self@.contains_key(id@) && rec@ == self@[id@],
                None => !self@.contains_key(id@),
            },
    {
        match self.find_index(id) {
            Some(i) => {
                proof {
                    lemma_lookup(self.downloads@, i as int);
                }
                Some(&self.downloads[i])
            },
            None => {
                proof {
                    lemma_absent(self.downloads@, id@);
                }
                None
            },
        }
    }

    /// Removes the record with id `id` and hands it back.
    pub fn take_download(&mut self, id: &str) -> (r: Option<DownloadRecord>)
        requires
            old(self).wf(),
        ensures
            final(self).wf(),
            final(self)@ == old(self)@.remove(id@),
            match r {
                Some(rec) => old(self)@.contains_key(id@) && rec@ == old(self)@[id@],
                None => !old(self)@.contains_key(id@),
            },
    {
        let ghost old_recs = self.downloads@;
        match self.find_index(id) {
            Some(i) => {
                proof {
                    lemma_remove(old_recs, i as int);
                    lemma_lookup(old_recs, i as int);
                }
                Some(self.downloads.remove(i))
            },
            None => {
                proof {
                    lemma_absent(old_recs, id@);
                    assert(self@ =~= old(self)@.remove(id@));
                }
                None
            },
        }
    }

    /// Removes the record with id `id`, if any.
    pub fn remove_download(&mut self, id: &str)
        requires
            old(self).wf(),
        ensures
            final(self).wf(),
            final(self)@ == old(self)@.remove(id@),
    {
        let ghost old_recs = self.downloads@;
        match self.find_index(id) {
            Some(i) => {
                proof {
                    lemma_remove(old_recs, i as int);
                }
                self.downloads.remove(i);
            },
            None => {
                proof {
                    lemma_absent(old_recs, id@);
                    assert(old_recs == self.downloads@);
                    assert(self@ =~= old(self)@.remove(id@));
                }
            },
        }
    }
}

impl DownloadHistory {
    /// Applies `change` to the record with id `id`, stamping it at `now`;
    /// an unknown id changes nothing.
    pub fn update_download_at(&mut self, id: &str, change: RecordChange, now: i64)
        requires
            old(self).wf(),
        ensures
            final(self).wf(),
            old(self)@.contains_key(id@) ==> final(self)@ == old(self)@.insert(
                id@,
                apply_change(old(self)@[id@], change, now),
            ),
            !old(self)@.contains_key(id@) ==> final(self)@ == old(self)@,
    {
        let ghost old_recs = self.downloads@;
        let ghost ch = change;
        match self.find_index(id) {
            Some(i) => {
                let mut rec = self.downloads.remove(i);
                match change {
                    RecordChange::Status(st) => {
                        rec.status = st;
                    },
                    RecordChange::File { filename, file_path } => {
                        rec.filename = filename;
                        rec.file_path = file_path;
                    },
                }
                rec.updated_at = now;
                proof {
                    lemma_lookup(old_recs, i as int);
                    lemma_replace(old_recs, i as int, rec);
                    assert(rec@ == apply_change(old_recs[i as int]@, ch, now));
                }
                self.downloads.insert(i, rec);
                proof {
                    assert(self.downloads@ =~= old_recs.update(i as int, rec));
                }
            },
            None => {
                proof {
                    lemma_absent(old_recs, id@);
                }
            },
        }
    }

    /// Applies `change` to the record with id `id`, stamped with the current
    /// time.
    pub fn update_download(&mut self, id: &str, change: RecordChange)
        requires
            old(self).wf(),
        ensures
            final(self).wf(),
            old(self)@.contains_key(id@) ==> final(self)@ == old(self)@.insert(
                id@,
                apply_change(old(self)@[id@], change, final(self)@[id@].updated_at),
            ),
            !old(self)@.contains_key(id@) ==> final(self)@ == old(self)@,
    {
        let now = now_secs();
        self.update_download_at(id, change, now);
    }

    /// Records that segment `chunk_id` of job `id` has received `downloaded`
    /// bytes, stamping the record at `now`.
    #[verifier::rlimit(40)]
    pub fn update_chunk_progress_at(&mut self, id: &str, chunk_id: u64, downloaded: u64, now: i64)
        requires
            old(self).wf(),
        ensures
            final(self).wf(),
            old(self)@.contains_key(id@) ==> final(self)@ == old(self)@.insert(
                id@,
                RecordView {
                    chunks: checkpoint_chunks(old(self)@[id@], chunk_id, downloaded),
                    updated_at: now,
                    ..old(self)@[id@]
                },
            ),
            !old(self)@.contains_key(id@) ==> final(self)@ == old(self)@,
    {
        let ghost old_recs = self.downloads@;
        match self.find_index(id) {
            Some(i) => {
                let mut rec = self.downloads.remove(i);
                proof {
                    assert(old_recs[i as int].wf());
                    assert(rec == old_recs[i as int]);
                }
                let ghost before = rec@;
                let terminal = rec.status == DownloadStatus::Completed || rec.status
                    == DownloadStatus::Failed || rec.status == DownloadStatus::Cancelled;
                if !terminal && rec.total_size > 0 && chunk_id < rec.chunks.len() as u64 {
                    let c = rec.chunks.remove(chunk_id as usize);
                    proof {
                        assert(before.chunks[chunk_id as int] == c);
                        assert(c.start <= c.end);
                    }
                    let len_minus_one = c.end - c.start;
                    let capped = if downloaded > 0 && downloaded - 1 > len_minus_one {
                        len_minus_one + 1
                    } else {
                        downloaded
                    };
                    rec.chunks.insert(chunk_id as usize, ChunkRecord { downloaded: capped, ..c });
                    proof {
                        assert(rec.chunks@ =~= checkpoint_chunks(before, chunk_id, downloaded));
                        let cs = rec.chunks@;
                        assert forall|j: int| 0 <= j < cs.len() implies (#[trigger] cs[j]).downloaded <= seg_len(cs[j]) by {
                            if j != chunk_id {
                                assert(cs[j] == before.chunks[j]);
                            }
                        }
                        assert(cs.last() == if chunk_id == cs.len() - 1 { cs[chunk_id as int] } else { before.chunks.last() });
                        assert forall|j: int| 0 <= j < cs.len() implies (#[trigger] cs[j]).id == j && cs[j].start <= cs[j].end by {
                            assert(before.chunks[j].id == j);
                        }
                        assert forall|j: int| 0 <= j < cs.len() - 1 implies (#[trigger] cs[j]).end + 1 == cs[j + 1].start by {
                            assert(before.chunks[j].end + 1 == before.chunks[j + 1].start);
                        }
                    }
                }
                rec.updated_at = now;
                proof {
                    lemma_lookup(old_recs, i as int);
                    lemma_replace(old_recs, i as int, rec);
                    assert(rec.chunks@ == checkpoint_chunks(before, chunk_id, downloaded));
                }
                self.downloads.insert(i, rec);
                proof {
                    assert(self.downloads@ =~= old_recs.update(i as int, rec));
                }
            },
            None => {
                proof {
                    lemma_absent(old_recs, id@);
                }
            },
        }
    }

    /// Records segment progress for job `id`, stamped with the current time.
    pub fn update_chunk_progress(&mut self, id: &str, chunk_id: u64, downloaded: u64)
        requires
            old(self).wf(),
        ensures
            final(self).wf(),
            old(self)@.contains_key(id@) ==> final(self)@ == old(self)@.insert(
                id@,
                RecordView {
                    chunks: checkpoint_chunks(old(self)@[id@], chunk_id, downloaded),
                    updated_at: final(self)@[id@].updated_at,
                    ..old(self)@[id@]
                },
            ),
            !old(self)@.contains_key(id@) ==> final(self)@ == old(self)@,
    {
        let now = now_secs();
        self.update_chunk_progress_at(id, chunk_id, downloaded, now);
    }

    /// Restart reconciliation at time `now`: every job that was downloading
    /// is paused. Returns whether any record changed.
    pub fn reconcile_after_restart_at(&mut self, now: i64) -> (changed: bool)
        requires
            old(self).wf(),
        ensures
            final(self).wf(),
            final(self)@ == old(self)@.map_values(|r: RecordView| demote(r, now)),
            changed == exists|k: Seq<char>|
                old(self)@.contains_key(k) && (#[trigger] old(self)@[k]).status == DownloadStatus::Downloading,
    {
        let ghost old_recs = self.downloads@;
        let n = self.downloads.len();
        let mut changed = false;
        let mut i: usize = 0;
        while i < n
            invariant
                n == old_recs.len(),
                self.downloads@.len() == n,
                i <= n,
                unique_ids(old_recs),
                forall|j: int| 0 <= j < n ==> (#[trigger] old_recs[j]).wf(),
                forall|j: int| 0 <= j < n ==> (#[trigger] self.downloads@[j]).id@ == old_recs[j].id@,
                forall|j: int| 0 <= j < i ==> (#[trigger] self.downloads@[j])@ == demote(old_recs[j]@, now),
                forall|j: int| i <= j < n ==> (#[trigger] self.downloads@[j]) == old_recs[j],
                changed == exists|j: int| 0 <= j < i && (#[trigger] old_recs[j]).status == DownloadStatus::Downloading,
            decreases n - i,
        {
            if self.downloads[i].status == DownloadStatus::Downloading {
                let mut rec = self.downloads.remove(i);
                rec.status = DownloadStatus::Paused;
                rec.updated_at = now;
                self.downloads.insert(i, rec);
                changed = true;
            }
            i = i + 1;
        }
        proof {
            let f = |r: RecordView| demote(r, now);
            lemma_pointwise(old_recs, self.downloads@, f);
            assert forall|j: int| 0 <= j < n implies (#[trigger] self.downloads@[j]).wf() by {
                assert(old_recs[j].wf());
            }
            if changed {
                let j = choose|j: int| 0 <= j < i && (#[trigger] old_recs[j]).status == DownloadStatus::Downloading;
                lemma_lookup(old_recs, j);
            }
            if exists|k: Seq<char>| old(self)@.contains_key(k) && (#[trigger] old(self)@[k]).status == DownloadStatus::Downloading {
                let k = choose|k: Seq<char>| old(self)@.contains_key(k) && (#[trigger] old(self)@[k]).status == DownloadStatus::Downloading;
                let j = choose|j: int| has_id(old_recs, k, j);
                lemma_lookup(old_recs, j);
            }
        }
        changed
    }

    /// Restart reconciliation stamped with the current time.
    pub fn reconcile_after_restart(&mut self) -> (changed: bool)
        requires
            old(self).wf(),
        ensures
            final(self).wf(),
            final(self)@.dom() == old(self)@.dom(),
            forall|k: Seq<char>|
                #[trigger] old(self)@.contains_key(k) ==> final(self)@[k] == demote(
                    old(self)@[k],
                    final(self)@[k].updated_at,
                ),
            changed == exists|k: Seq<char>|
                old(self)@.contains_key(k) && (#[trigger] old(self)@[k]).status == DownloadStatus::Downloading,
    {
        let now = now_secs();
        self.reconcile_after_restart_at(now)
    }
}

spec fn in_perm(perm: Seq<int>, j: int) -> bool {
    exists|a: int| 0 <= a < perm.len() && #[trigger] perm[a] == j
}

impl DownloadHistory {
    /// Every record, newest first by creation time.
    pub fn get_all_downloads(&self) -> (r: Vec<&DownloadRecord>)
        requires
            self.wf(),
        ensures
            r.len() == self.downloads.len(),
            forall|a: int, b: int| 0 <= a < b < r.len() ==> r[a].created_at >= r[b].created_at,
            forall|a: int|
                0 <= a < r.len() ==> self@.contains_key(#[trigger] r[a].id@) && self@[r[a].id@] == r[a]@,
            forall|k: Seq<char>|
                #[trigger] self@.contains_key(k) ==> exists|a: int| 0 <= a < r.len() && r[a].id@ == k,
    {
        let n = self.downloads.len();
        let mut r: Vec<&DownloadRecord> = Vec::new();
        let ghost mut perm: Seq<int> = Seq::empty();
        let mut i: usize = 0;
        while i < n
            invariant
                n == self.downloads.len(),
                i <= n,
                r.len() == i,
                perm.len() == i,
                forall|a: int| 0 <= a < i ==> 0 <= #[trigger] perm[a] < i,
                forall|a: int| 0 <= a < i ==> *r[a] == self.downloads@[#[trigger] perm[a]],
                forall|j: int| 0 <= j < i ==> #[trigger] in_perm(perm, j),
                forall|a: int, b: int| 0 <= a < b < r.len() ==> r[a].created_at >= r[b].created_at,
            decreases n - i,
        {
            let rec = &self.downloads[i];
            let mut p: usize = 0;
            while p < r.len() && r[p].created_at >= rec.created_at
                invariant
                    p <= r.len(),
                    forall|a: int| 0 <= a < p ==> r[a].created_at >= rec.created_at,
                decreases r.len() - p,
            {
                p = p + 1;
            }
            let ghost old_r = r@;
            let ghost old_perm = perm;
            r.insert(p, rec);
            proof {
                perm = perm.insert(p as int, i as int);
                assert forall|a: int| 0 <= a < i + 1 implies *r[a] == self.downloads@[#[trigger] perm[a]] by {
                    if a < p {
                        assert(r@[a] == old_r[a]);
                    } else if a > p {
                        assert(r@[a] == old_r[a - 1]);
                    }
                }
                assert forall|j: int| 0 <= j < i + 1 implies #[trigger] in_perm(perm, j) by {
                    if j < i {
                        assert(in_perm(old_perm, j));
                        let a = choose|a: int| 0 <= a < old_perm.len() && #[trigger] old_perm[a] == j;
                        if a < p {
                            assert(perm[a] == j);
                        } else {
                            assert(perm[a + 1] == j);
                        }
                    } else {
                        assert(perm[p as int] == j);
                    }
                }
                assert forall|a: int, b: int| 0 <= a < b < r.len() implies r[a].created_at >= r[b].created_at by {
                    if b < p {
                        assert(r@[a] == old_r[a] && r@[b] == old_r[b]);
                    } else if b == p {
                        assert(r@[a] == old_r[a]);
                    } else if a == p {
                        assert(r@[b] == old_r[b - 1]);
                        if p < old_r.len() {
                            assert(old_r[p as int].created_at < rec.created_at);
                        }
                    } else if a < p {
                        assert(r@[a] == old_r[a] && r@[b] == old_r[b - 1]);
                    } else {
                        assert(r@[a] == old_r[a - 1] && r@[b] == old_r[b - 1]);
                    }
                }
            }
            i = i + 1;
        }
        proof {
            assert forall|a: int| 0 <= a < r.len() implies self@.contains_key(#[trigger] r[a].id@) && self@[r[a].id@] == r[a]@ by {
                lemma_lookup(self.downloads@, perm[a]);
            }
            assert forall|k: Seq<char>| #[trigger] self@.contains_key(k) implies exists|a: int| 0 <= a < r.len() && r[a].id@ == k by {
                let j = choose|j: int| has_id(self.downloads@, k, j);
                assert(in_perm(perm, j));
                let a = choose|a: int| 0 <= a < perm.len() && #[trigger] perm[a] == j;
                assert(r[a].id@ == k);
            }
        }
        r
    }

    /// Removes every record whose job has ended (Completed, Failed or
    /// Cancelled) and hands them back, so that their leftovers can be
    /// deleted.
    pub fn clear_finished(&mut self) -> (removed: Vec<DownloadRecord>)
        requires
            old(self).wf(),
        ensures
            final(self).wf(),
            final(self)@ == old(self)@.restrict(
                old(self)@.dom().filter(|k: Seq<char>| !is_terminal(old(self)@[k].status)),
            ),
            forall|a: int| 0 <= a < removed.len() ==> old(self)@.contains_key(#[trigger] removed[a].id@),
            forall|a: int| 0 <= a < removed.len() ==> old(self)@[#[trigger] removed[a].id@] == removed[a]@,
            forall|a: int| 0 <= a < removed.len() ==> is_terminal(#[trigger] removed[a].status),
            forall|k: Seq<char>|
                #[trigger] old(self)@.contains_key(k) && is_terminal(old(self)@[k].status) ==> exists|a: int|
                    0 <= a < removed.len() && removed[a].id@ == k,
    {
        let ghost old_recs = self.downloads@;
        let mut rest: Vec<DownloadRecord> = Vec::new();
        std::mem::swap(&mut rest, &mut self.downloads);
        let n = rest.len();
        let mut kept: Vec<DownloadRecord> = Vec::new();
        let mut removed: Vec<DownloadRecord> = Vec::new();
        let ghost mut kidx: Seq<int> = Seq::empty();
        let ghost mut ridx: Seq<int> = Seq::empty();
        let mut i: usize = 0;
        while i < n
            invariant
                n == old_recs.len(),
                i <= n,
                rest@ == old_recs.subrange(i as int, n as int),
                unique_ids(old_recs),
                unique_ids(kept@),
                drawn_from(kept@, kidx, old_recs, i as int, false),
                drawn_from(removed@, ridx, old_recs, i as int, true),
                covers(kidx, old_recs, i as int, false),
                covers(ridx, old_recs, i as int, true),
            decreases n - i,
        {
            let rec = rest.remove(0);
            proof {
                assert(rec == old_recs[i as int]);
            }
            if rec.status == DownloadStatus::Completed || rec.status == DownloadStatus::Failed
                || rec.status == DownloadStatus::Cancelled {
                let ghost before = removed@;
                removed.push(rec);
                proof {
                    let old_idx = ridx;
                    ridx = ridx.push(i as int);
                    assert(removed@ == before.push(rec));
                    assert forall|j: int| 0 <= j < i + 1 && is_terminal(old_recs[j].status) implies #[trigger] in_perm(ridx, j) by {
                        if j < i {
                            assert(in_perm(old_idx, j));
                            let a = choose|a: int| 0 <= a < old_idx.len() && #[trigger] old_idx[a] == j;
                            assert(ridx[a] == j);
                        } else {
                            assert(ridx[old_idx.len() as int] == j);
                        }
                    }
                    assert forall|j: int| 0 <= j < i + 1 && !is_terminal(old_recs[j].status) implies #[trigger] in_perm(kidx, j) by {
                        if j < i {
                        }
                    }
                }
            } else {
                let ghost before = kept@;
                proof {
                    assert forall|a: int| 0 <= a < before.len() implies (#[trigger] before[a]).id@ != rec.id@ by {
                        assert(before[a] == old_recs[kidx[a]]);
                        assert(kidx[a] < i);
                    }
                    lemma_append(before, rec);
                }
                kept.push(rec);
                proof {
                    let old_idx = kidx;
                    kidx = kidx.push(i as int);
                    assert forall|j: int| 0 <= j < i + 1 && !is_terminal(old_recs[j].status) implies #[trigger] in_perm(kidx, j) by {
                        if j < i {
                            assert(in_perm(old_idx, j));
                            let a = choose|a: int| 0 <= a < old_idx.len() && #[trigger] old_idx[a] == j;
                            assert(kidx[a] == j);
                        } else {
                            assert(kidx[old_idx.len() as int] == j);
                        }
                    }
                    assert forall|j: int| 0 <= j < i + 1 && is_terminal(old_recs[j].status) implies #[trigger] in_perm(ridx, j) by {
                        if j < i {
                        }
                    }
                }
            }
            proof {
                assert(rest@ =~= old_recs.subrange(i + 1, n as int));
            }
            i = i + 1;
        }
        self.downloads = kept;
        proof {
            let m = old(self)@;
            let target = m.restrict(m.dom().filter(|k: Seq<char>| !is_terminal(m[k].status)));
            assert forall|a: int| 0 <= a < self.downloads@.len() implies (#[trigger] self.downloads@[a]).wf() by {
                assert(self.downloads@[a] == old_recs[kidx[a]]);
            }
            assert forall|k: Seq<char>| #[trigger] self@.contains_key(k) == target.contains_key(k)
                && (self@.contains_key(k) ==> self@[k] == target[k]) by {
                if exists|a: int| has_id(self.downloads@, k, a) {
                    let a = choose|a: int| has_id(self.downloads@, k, a);
                    let j = kidx[a];
                    assert(self.downloads@[a] == old_recs[j]);
                    lemma_lookup(self.downloads@, a);
                    lemma_lookup(old_recs, j);
                } else if m.contains_key(k) && !is_terminal(m[k].status) {
                    let j = choose|j: int| has_id(old_recs, k, j);
                    lemma_lookup(old_recs, j);
                    assert(in_perm(kidx, j));
                    let a = choose|a: int| 0 <= a < kidx.len() && #[trigger] kidx[a] == j;
                    assert(has_id(self.downloads@, k, a));
                }
            }
            assert(self@ =~= target);
            assert forall|a: int| 0 <= a < removed.len() implies old(self)@.contains_key(#[trigger] removed[a].id@)
                && old(self)@[removed[a].id@] == removed[a]@ && is_terminal(removed[a].status) by {
                assert(removed@[a] == old_recs[ridx[a]]);
                assert(0 <= ridx[a] < n);
                lemma_lookup(old_recs, ridx[a]);
            }
            assert forall|a: int| 0 <= a < removed.len() implies is_terminal(#[trigger] removed[a].status) by {
                assert(removed@[a] == old_recs[ridx[a]]);
            }
            assert forall|k: Seq<char>| #[trigger] m.contains_key(k) && is_terminal(m[k].status) implies exists|a: int|
                0 <= a < removed.len() && removed[a].id@ == k by {
                let j = choose|j: int| has_id(old_recs, k, j);
                lemma_lookup(old_recs, j);
                assert(in_perm(ridx, j));
                let a = choose|a: int| 0 <= a < ridx.len() && #[trigger] ridx[a] == j;
                assert(removed@[a] == old_recs[j]);
            }
        }
        removed
    }
}

/// `v` holds, in order, records of `old` taken below index `i` at the
/// positions `idx`, all ended (`term`) or all not.
spec fn drawn_from(v: Seq<DownloadRecord>, idx: Seq<int>, old: Seq<DownloadRecord>, i: int, term: bool) -> bool {
    &&& v.len() == idx.len()
    &&& forall|a: int|
        0 <= a < v.len() ==> 0 <= #[trigger] idx[a] < i && v[a] == old[idx[a]] && is_terminal(
            old[idx[a]].status,
        ) == term
}

/// Every record of `old` below `i` that is ended (`term`) or not is listed.
spec fn covers(idx: Seq<int>, old: Seq<DownloadRecord>, i: int, term: bool) -> bool {
    forall|j: int| 0 <= j < i && is_terminal(old[j].status) == term ==> #[trigger] in_perm(idx, j)
}

/// The ledger a loader builds by adding `recs` one after another to an
/// empty ledger.
pub open spec fn reload(recs: Seq<DownloadRecord>) -> Map<Seq<char>, RecordView>
    decreases recs.len(),
{
    if recs.len() == 0 {
        Map::empty()
    } else {
        reload(recs.drop_last()).insert(recs.last().id@, recs.last()@)
    }
}

proof fn lemma_reload_is_map(recs: Seq<DownloadRecord>)
    requires
        unique_ids(recs),
    ensures
        reload(recs) == ledger_map(recs),
    decreases recs.len(),
{
    if recs.len() == 0 {
        assert forall|k: Seq<char>| !(#[trigger] ledger_map(recs).contains_key(k)) by {}
        assert(ledger_map(recs) =~= Map::<Seq<char>, RecordView>::empty());
    } else {
        let init = recs.drop_last();
        assert forall|i: int, j: int|
            #![trigger init[i].id@, init[j].id@]
            0 <= i < init.len() && 0 <= j < init.len() && init[i].id@ == init[j].id@ implies i == j by {
            assert(recs[i] == init[i] && recs[j] == init[j]);
        }
        lemma_reload_is_map(init);
        assert forall|i: int| 0 <= i < init.len() implies (#[trigger] init[i]).id@ != recs.last().id@ by {
            assert(recs[i] == init[i]);
            assert(recs[recs.len() - 1] == recs.last());
        }
        lemma_append(init, recs.last());
        assert(init.push(recs.last()) =~= recs);
    }
}

/// Loading back a persisted ledger: adding the records of a well-formed
/// ledger one after another, each once and in any order, to an empty ledger
/// restores it, and every one of them passes the loader's check.
pub proof fn lemma_reload_restores(h: DownloadHistory, order: Seq<DownloadRecord>)
    requires
        h.wf(),
        forall|a: int, b: int| 0 <= a < order.len() && 0 <= b < order.len() && a != b ==> #[trigger] order[a] != #[trigger] order[b],
        forall|i: int| 0 <= i < order.len() ==> h.downloads@.contains(#[trigger] order[i]),
        forall|j: int| 0 <= j < h.downloads@.len() ==> order.contains(#[trigger] h.downloads@[j]),
    ensures
        reload(order) == h@,
        forall|i: int| 0 <= i < order.len() ==> (#[trigger] order[i]).wf(),
{
    let d = h.downloads@;
    assert forall|i: int| 0 <= i < order.len() implies (#[trigger] order[i]).wf() by {
        assert(d.contains(order[i]));
    }
    assert forall|a: int, b: int|
        #![trigger order[a].id@, order[b].id@]
        0 <= a < order.len() && 0 <= b < order.len() && order[a].id@ == order[b].id@ implies a == b by {
        assert(d.contains(order[a]));
        assert(d.contains(order[b]));
        let ja = choose|j: int| 0 <= j < d.len() && d[j] == order[a];
        let jb = choose|j: int| 0 <= j < d.len() && d[j] == order[b];
        assert(d[ja].id@ == d[jb].id@);
        assert(ja == jb);
    }
    lemma_reload_is_map(order);
    assert forall|k: Seq<char>| #[trigger] ledger_map(order).contains_key(k) == h@.contains_key(k)
        && (ledger_map(order).contains_key(k) ==> ledger_map(order)[k] == h@[k]) by {
        if exists|i: int| has_id(order, k, i) {
            let i = choose|i: int| has_id(order, k, i);
            lemma_lookup(order, i);
            assert(d.contains(order[i]));
            let j = choose|j: int| 0 <= j < d.len() && d[j] == order[i];
            lemma_lookup(d, j);
        } else if exists|j: int| has_id(d, k, j) {
            let j = choose|j: int| has_id(d, k, j);
            assert(order.contains(d[j]));
            let i = choose|i: int| 0 <= i < order.len() && order[i] == d[j];
            assert(has_id(order, k, i));
        }
    }
    assert(ledger_map(order) =~= h@);
}

/// Every record in a well-formed ledger with a known size has segments that
/// partition `[0, total_size)`, and the bytes they report received add up to
/// at most that size; a record of unknown size reports none.
pub proof fn lemma_ledger_records_valid(h: DownloadHistory, k: Seq<char>)
    requires
        h.wf(),
        h@.contains_key(k),
    ensures
        h@[k].total_size > 0 ==> partitions(h@[k].chunks, h@[k].total_size as nat),
        sum_downloaded(h@[k].chunks) <= h@[k].total_size,
{
    let j = choose|j: int| has_id(h.downloads@, k, j);
    lemma_lookup(h.downloads@, j);
    let r = h@[k];
    assert(h.downloads@[j].wf());
    if r.total_size > 0 {
        lemma_sum_downloaded_le(r.chunks);
        crate::plan::lemma_sum_lens_contiguous(r.chunks);
    } else {
        let c = r.chunks;
        assert(c.drop_last() =~= Seq::<ChunkRecord>::empty());
        assert(sum_downloaded(c.drop_last()) == 0);
    }
}

} // verus!
