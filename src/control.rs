//! The control surface: the job handle shared with the workers, the
//! registry of active jobs, and the state changes each external operation
//! makes.

use std::sync::atomic::{AtomicBool, AtomicU64, Ordering};
use std::sync::Arc;

use vstd::prelude::*;
use vstd::string::*;

use crate::error::EngineError;
use crate::ledger::{
    apply_change, chunked, DownloadHistory, DownloadRecord, DownloadStatus, RecordChange, RecordView,
    new_segments,
};
use crate::plan::ChunkRecord;
use crate::settings::{join, join_path};
use crate::text::{contains_folded, contains_ignoring_case, dec_signed, decimal_signed};

verus! {

/// The in-memory control block of a running job, shared by the control
/// surface, the segment workers and the reporter. The flags and counters
/// change concurrently, so nothing is known of their values here.
pub struct DownloadHandle {
    pub id: String,
    pub cancelled: AtomicBool,
    pub paused: AtomicBool,
    pub chunk_downloaded: Vec<Arc<AtomicU64>>,
    /// Bytes per second; 0 is unlimited.
    pub speed_limit: AtomicU64,
}

impl DownloadHandle {
    /// A handle whose segment counters start at `initial`.
    pub fn new(id: String, initial: &Vec<u64>, speed_limit: u64) -> (r: Self)
        ensures
            r.id@ == id@,
            r.chunk_downloaded.len() == initial.len(),
    {
        let mut counters: Vec<Arc<AtomicU64>> = Vec::new();
        let mut i: usize = 0;
        while i < initial.len()
            invariant
                i <= initial.len(),
                counters.len() == i,
            decreases initial.len() - i,
        {
            counters.push(Arc::new(AtomicU64::new(initial[i])));
            i = i + 1;
        }
        DownloadHandle {
            id,
            cancelled: AtomicBool::new(false),
            paused: AtomicBool::new(false),
            chunk_downloaded: counters,
            speed_limit: AtomicU64::new(speed_limit),
        }
    }

    /// The segment counters as read now.
    pub fn counters(&self) -> (r: Vec<u64>)
        ensures
            r.len() == self.chunk_downloaded.len(),
    {
        let mut r: Vec<u64> = Vec::new();
        let mut i: usize = 0;
        while i < self.chunk_downloaded.len()
            invariant
                i <= self.chunk_downloaded.len(),
                r.len() == i,
            decreases self.chunk_downloaded.len() - i,
        {
            r.push(self.chunk_downloaded[i].load(Ordering::Relaxed));
            i = i + 1;
        }
        r
    }

    pub fn is_cancelled(&self) -> bool {
        self.cancelled.load(Ordering::SeqCst)
    }

    pub fn is_paused(&self) -> bool {
        self.paused.load(Ordering::SeqCst)
    }

    pub fn cancel(&self) {
        self.cancelled.store(true, Ordering::SeqCst);
    }

    pub fn pause(&self) {
        self.paused.store(true, Ordering::SeqCst);
    }

    pub fn resume(&self) {
        self.paused.store(false, Ordering::SeqCst);
    }

    pub fn current_speed_limit(&self) -> u64 {
        self.speed_limit.load(Ordering::Relaxed)
    }

    pub fn set_speed_limit(&self, limit: u64) {
        self.speed_limit.store(limit, Ordering::Relaxed);
    }

    /// Adds `n` received bytes to segment `seg`'s counter.
    pub fn add_progress(&self, seg: usize, n: u64)
        requires
            seg < self.chunk_downloaded.len(),
    {
        self.chunk_downloaded[seg].fetch_add(n, Ordering::Relaxed);
    }
}

pub open spec fn active_ids(handles: Seq<Arc<DownloadHandle>>) -> Set<Seq<char>> {
    Set::new(|k: Seq<char>| exists|i: int| 0 <= i < handles.len() && (#[trigger] handles[i]).id@ == k)
}

/// The handles of the jobs that are running, at most one per id.
pub struct ActiveJobs {
    pub handles: Vec<Arc<DownloadHandle>>,
}

impl View for ActiveJobs {
    type V = Set<Seq<char>>;

    open spec fn view(&self) -> Set<Seq<char>> {
        active_ids(self.handles@)
    }
}

impl ActiveJobs {
    pub fn new() -> (r: Self)
        ensures
            r@ == Set::<Seq<char>>::empty(),
    {
        let r = ActiveJobs { handles: Vec::new() };
        assert(r@ =~= Set::<Seq<char>>::empty());
        r
    }

    fn find(&self, id: &str) -> (r: Option<usize>)
        ensures
            match r {
                Some(i) => i < self.handles.len() && self.handles@[i as int].id@ == id@,
                None => !self@.contains(id@),
            },
    {
        let key = String::from_str(id);
        let mut i: usize = 0;
        while i < self.handles.len()
            invariant
                i <= self.handles.len(),
                key@ == id@,
                forall|j: int| 0 <= j < i ==> (#[trigger] self.handles@[j]).id@ != id@,
            decreases self.handles.len() - i,
        {
            if self.handles[i].id == key {
                return Some(i);
            }
            i = i + 1;
        }
        None
    }

    /// Whether job `id` is running.
    pub fn contains(&self, id: &str) -> (r: bool)
        ensures
            r == self@.contains(id@),
    {
        self.find(id).is_some()
    }

    /// The handle of job `id`, if it is running.
    pub fn get(&self, id: &str) -> (r: Option<Arc<DownloadHandle>>)
        ensures
            r is Some == self@.contains(id@),
            r matches Some(h) ==> h.id@ == id@,
    {
        match self.find(id) {
            Some(i) => Some(self.handles[i].clone()),
            None => None,
        }
    }

    /// Registers `handle`, replacing a handle with the same id.
    pub fn insert(&mut self, handle: Arc<DownloadHandle>)
        ensures
            final(self)@ == old(self)@.insert(handle.id@),
    {
        let ghost old_h = self.handles@;
        match self.find(handle.id.as_str()) {
            Some(i) => {
                self.handles.remove(i);
                self.handles.insert(i, handle);
                proof {
                    assert forall|k: Seq<char>| #[trigger] self@.contains(k) == old(self)@.insert(handle.id@).contains(k) by {
                        if old(self)@.contains(k) {
                            let j = choose|j: int| 0 <= j < old_h.len() && (#[trigger] old_h[j]).id@ == k;
                            if j != i {
                                assert(self.handles@[j] == old_h[j]);
                            } else {
                                assert(self.handles@[i as int] == handle);
                            }
                        }
                        if self@.contains(k) {
                            let j = choose|j: int| 0 <= j < self.handles@.len() && (#[trigger] self.handles@[j]).id@ == k;
                            if j != i {
                                assert(self.handles@[j] == old_h[j]);
                            }
                        }
                    }
                    assert(self@ =~= old(self)@.insert(handle.id@));
                }
            },
            None => {
                self.handles.push(handle);
                proof {
                    assert forall|k: Seq<char>| #[trigger] self@.contains(k) == old(self)@.insert(handle.id@).contains(k) by {
                        if old(self)@.contains(k) {
                            let j = choose|j: int| 0 <= j < old_h.len() && (#[trigger] old_h[j]).id@ == k;
                            assert(self.handles@[j] == old_h[j]);
                        }
                        if k == handle.id@ {
                            assert(self.handles@[old_h.len() as int] == handle);
                        }
                        if self@.contains(k) && k != handle.id@ {
                            let j = choose|j: int| 0 <= j < self.handles@.len() && (#[trigger] self.handles@[j]).id@ == k;
                            assert(j < old_h.len());
                            assert(self.handles@[j] == old_h[j]);
                        }
                    }
                    assert(self@ =~= old(self)@.insert(handle.id@));
                }
            },
        }
    }

    /// Unregisters job `id`.
    pub fn remove(&mut self, id: &str)
        ensures
            final(self)@ == old(self)@.remove(id@),
    {
        let ghost old_h = self.handles@;
        let mut i: usize = 0;
        let key = String::from_str(id);
        while i < self.handles.len()
            invariant
                key@ == id@,
                i <= self.handles.len(),
                forall|j: int| 0 <= j < i ==> (#[trigger] self.handles@[j]).id@ != id@,
                forall|k: Seq<char>| k != id@ ==> (#[trigger] active_ids(self.handles@).contains(k) == active_ids(old_h).contains(k)),
                forall|j: int| 0 <= j < self.handles@.len() ==> active_ids(old_h).contains(#[trigger] self.handles@[j].id@),
            decreases self.handles.len() - i,
        {
            if self.handles[i].id == key {
                let ghost before = self.handles@;
                self.handles.remove(i);
                proof {
                    assert forall|k: Seq<char>| k != id@ implies (#[trigger] active_ids(self.handles@).contains(k) == active_ids(old_h).contains(k)) by {
                        assert(active_ids(before).contains(k) == active_ids(old_h).contains(k));
                        if active_ids(before).contains(k) {
                            let j = choose|j: int| 0 <= j < before.len() && (#[trigger] before[j]).id@ == k;
                            assert(j != i);
                            let j2 = if j < i { j } else { j - 1 };
                            assert(self.handles@[j2] == before[j]);
                            assert(self.handles@[j2].id@ == k);
                            assert(active_ids(self.handles@).contains(k));
                        }
                        if active_ids(self.handles@).contains(k) {
                            let j = choose|j: int| 0 <= j < self.handles@.len() && (#[trigger] self.handles@[j]).id@ == k;
                            let j2 = if j < i { j } else { j + 1 };
                            assert(self.handles@[j] == before[j2]);
                            assert(before[j2].id@ == k);
                            assert(active_ids(before).contains(k));
                        }
                    }
                    assert forall|j: int| 0 <= j < self.handles@.len() implies active_ids(old_h).contains(#[trigger] self.handles@[j].id@) by {
                        if j < i {
                            assert(self.handles@[j] == before[j]);
                        } else {
                            assert(self.handles@[j] == before[j + 1]);
                        }
                    }
                }
            } else {
                i = i + 1;
            }
        }
        proof {
            assert(!self@.contains(id@));
            assert(self@ =~= old(self)@.remove(id@));
        }
    }

    /// Pauses job `id`.
    pub fn pause(&self, id: &str) -> (r: Result<(), EngineError>)
        ensures
            r is Ok == self@.contains(id@),
            r is Err ==> r->Err_0 is NotFound,
    {
        match self.find(id) {
            Some(i) => {
                self.handles[i].pause();
                Ok(())
            },
            None => Err(not_found()),
        }
    }

    /// Lets job `id` go on.
    pub fn resume(&self, id: &str) -> (r: Result<(), EngineError>)
        ensures
            r is Ok == self@.contains(id@),
            r is Err ==> r->Err_0 is NotFound,
    {
        match self.find(id) {
            Some(i) => {
                self.handles[i].resume();
                Ok(())
            },
            None => Err(not_found()),
        }
    }

    /// Cancels job `id`.
    pub fn cancel(&self, id: &str) -> (r: Result<(), EngineError>)
        ensures
            r is Ok == self@.contains(id@),
            r is Err ==> r->Err_0 is NotFound,
    {
        match self.find(id) {
            Some(i) => {
                self.handles[i].cancel();
                Ok(())
            },
            None => Err(not_found()),
        }
    }

    /// Stores a new speed cap into every running job.
    pub fn set_speed_limit(&self, limit: u64) {
        let mut i: usize = 0;
        while i < self.handles.len()
            invariant
                i <= self.handles.len(),
            decreases self.handles.len() - i,
        {
            self.handles[i].set_speed_limit(limit);
            i = i + 1;
        }
    }
}

fn not_found() -> (r: EngineError)
    ensures
        r is NotFound,
{
    EngineError::NotFound(String::from_str("Download not found"))
}

/// The ledger after job `id` is set to status `st` at `now`; an unknown id
/// leaves it as it is.
pub open spec fn with_status(h: Map<Seq<char>, RecordView>, id: Seq<char>, st: DownloadStatus, now: i64) -> Map<
    Seq<char>,
    RecordView,
> {
    if h.contains_key(id) {
        h.insert(id, apply_change(h[id], RecordChange::Status(st), now))
    } else {
        h
    }
}

/// A job's id: its file name and the creation time in milliseconds.
pub open spec fn job_id_spec(filename: Seq<char>, now_millis: i64) -> Seq<char> {
    filename + seq!['_'] + dec_signed(now_millis as int)
}

pub fn job_id(filename: &str, now_millis: i64) -> (r: String)
    ensures
        r@ == job_id_spec(filename@, now_millis),
{
    proof {
        reveal_strlit("_");
    }
    let r = String::from_str(filename).concat("_").concat(decimal_signed(now_millis).as_str());
    proof {
        assert(r@ =~= job_id_spec(filename@, now_millis));
    }
    r
}

/// A job that has just been created and registered.
pub struct StartedJob {
    pub id: String,
    pub file_path: String,
    pub handle: Arc<DownloadHandle>,
    /// Whether the chunked transferor takes it (else the single stream).
    pub chunked: bool,
}

/// Creates the record of a new job (Pending), adds it to the ledger, and
/// registers a handle with one zeroed counter per segment.
pub fn start_download(
    history: &mut DownloadHistory,
    active: &mut ActiveJobs,
    url: String,
    filename: String,
    folder: &str,
    size: u64,
    resumable: bool,
    connections: u64,
    speed_limit: u64,
    now_millis: i64,
    now: i64,
) -> (r: StartedJob)
    requires
        old(history).wf(),
    ensures
        r.id@ == job_id_spec(filename@, now_millis),
        r.file_path@ == join(folder@, filename@),
        r.chunked == chunked(resumable, size),
        r.handle.id@ == r.id@,
        r.handle.chunk_downloaded.len() == new_segments(size, resumable, connections).len(),
        final(history).wf(),
        final(history)@ == old(history)@.insert(
            r.id@,
            RecordView {
                id: r.id@,
                url: url@,
                filename: filename@,
                file_path: r.file_path@,
                total_size: size,
                resumable,
                status: DownloadStatus::Pending,
                num_connections: new_segments(size, resumable, connections).len() as u64,
                chunks: new_segments(size, resumable, connections),
                created_at: now,
                updated_at: now,
            },
        ),
        final(active)@ == old(active)@.insert(r.id@),
{
    let id = job_id(filename.as_str(), now_millis);
    let file_path = join_path(folder, filename.as_str());
    let record = DownloadRecord::new_at(
        id.clone(),
        url,
        filename,
        file_path.clone(),
        size,
        resumable,
        connections,
        now,
    );
    let n = record.chunks.len();
    let zeros: Vec<u64> = zeroed(n);
    history.add_download(record);
    let handle = Arc::new(DownloadHandle::new(id.clone(), &zeros, speed_limit));
    active.insert(handle.clone());
    StartedJob { id, file_path, handle, chunked: resumable && size > 0 }
}

fn zeroed(n: usize) -> (r: Vec<u64>)
    ensures
        r.len() == n,
{
    let mut v: Vec<u64> = Vec::new();
    let mut i: usize = 0;
    while i < n
        invariant
            i <= n,
            v.len() == i,
        decreases n - i,
    {
        v.push(0);
        i = i + 1;
    }
    v
}

/// How a request to resume an interrupted job is answered.
#[derive(Clone, Copy, Debug, PartialEq, Eq, Structural)]
pub enum ResumeVerdict {
    /// The job is running: nothing to do.
    AlreadyActive,
    NotFound,
    /// Only a Paused, Failed or Downloading job resumes.
    WrongStatus,
    /// The server takes no ranges, or the size is unknown.
    NotResumable,
    Resume,
}

pub open spec fn resume_verdict(h: Map<Seq<char>, RecordView>, active: Set<Seq<char>>, id: Seq<char>) -> ResumeVerdict {
    if active.contains(id) {
        ResumeVerdict::AlreadyActive
    } else if !h.contains_key(id) {
        ResumeVerdict::NotFound
    } else if !(h[id].status == DownloadStatus::Paused || h[id].status == DownloadStatus::Failed
        || h[id].status == DownloadStatus::Downloading) {
        ResumeVerdict::WrongStatus
    } else if !chunked(h[id].resumable, h[id].total_size) {
        ResumeVerdict::NotResumable
    } else {
        ResumeVerdict::Resume
    }
}

/// Resume idempotence: once a resume has been granted the job is active, so
/// asking again is answered with "already active" and changes nothing.
pub proof fn lemma_resume_idempotent(h: Map<Seq<char>, RecordView>, active: Set<Seq<char>>, id: Seq<char>)
    requires
        resume_verdict(h, active, id) == ResumeVerdict::Resume,
    ensures
        resume_verdict(h, active.insert(id), id) == ResumeVerdict::AlreadyActive,
{
}

/// What the chunked transferor needs to resume a job.
pub struct ResumeJob {
    pub handle: Arc<DownloadHandle>,
    pub url: String,
    pub file_path: String,
    pub total_size: u64,
    pub num_connections: u64,
    pub chunks: Vec<ChunkRecord>,
}

/// Resumes an interrupted job from its record: a handle whose counters hold
/// the saved per-segment progress is registered, and the job's saved
/// segments are handed back. A job that is already running is left alone.
pub fn resume_interrupted_download(
    history: &DownloadHistory,
    active: &mut ActiveJobs,
    id: &str,
    speed_limit: u64,
) -> (r: Result<Option<ResumeJob>, EngineError>)
    requires
        history.wf(),
    ensures
        ({
            let v = resume_verdict(history@, old(active)@, id@);
            &&& v == ResumeVerdict::AlreadyActive ==> (r matches Ok(None))
            &&& v == ResumeVerdict::NotFound ==> (r matches Err(EngineError::NotFound(_)))
            &&& (v == ResumeVerdict::WrongStatus || v == ResumeVerdict::NotResumable) ==> (r matches Err(
                EngineError::InvalidRequest(_),
            ))
            &&& v == ResumeVerdict::Resume ==> (r matches Ok(Some(job)) && {
                let rec = history@[id@];
                &&& job.handle.id@ == id@
                &&& job.handle.chunk_downloaded.len() == rec.chunks.len()
                &&& job.url@ == rec.url
                &&& job.file_path@ == rec.file_path
                &&& job.total_size == rec.total_size
                &&& job.num_connections == rec.num_connections
                &&& job.chunks@ == rec.chunks
            })
            &&& v == ResumeVerdict::Resume ==> final(active)@ == old(active)@.insert(id@)
            &&& v != ResumeVerdict::Resume ==> final(active)@ == old(active)@
        }),
{
    if active.contains(id) {
        return Ok(None);
    }
    let record = match history.get_download(id) {
        Some(rec) => rec,
        None => {
            return Err(EngineError::NotFound(String::from_str("Download not found in history")));
        },
    };
    if !(record.status == DownloadStatus::Paused || record.status == DownloadStatus::Failed
        || record.status == DownloadStatus::Downloading) {
        return Err(EngineError::InvalidRequest(String::from_str("Download cannot be resumed")));
    }
    if !(record.resumable && record.total_size > 0) {
        return Err(EngineError::InvalidRequest(String::from_str("This download does not support resuming")));
    }
    let mut saved: Vec<u64> = Vec::new();
    let mut chunks: Vec<ChunkRecord> = Vec::new();
    let mut i: usize = 0;
    while i < record.chunks.len()
        invariant
            i <= record.chunks.len(),
            saved.len() == i,
            chunks@ == record.chunks@.subrange(0, i as int),
        decreases record.chunks.len() - i,
    {
        saved.push(record.chunks[i].downloaded);
        chunks.push(record.chunks[i]);
        proof {
            assert(chunks@ =~= record.chunks@.subrange(0, i + 1));
        }
        i = i + 1;
    }
    proof {
        assert(chunks@ =~= record.chunks@);
    }
    let key = String::from_str(id);
    let handle = Arc::new(DownloadHandle::new(key, &saved, speed_limit));
    active.insert(handle.clone());
    Ok(
        Some(
            ResumeJob {
                handle,
                url: record.url.clone(),
                file_path: record.file_path.clone(),
                total_size: record.total_size,
                num_connections: record.num_connections,
                chunks,
            },
        ),
    )
}

/// Pauses running job `id` and records it as Paused.
pub fn pause_download(active: &ActiveJobs, history: &mut DownloadHistory, id: &str, now: i64) -> (r: Result<(), EngineError>)
    requires
        old(history).wf(),
    ensures
        final(history).wf(),
        r is Ok == active@.contains(id@),
        r is Err ==> r->Err_0 is NotFound && final(history)@ == old(history)@,
        r is Ok ==> final(history)@ == with_status(old(history)@, id@, DownloadStatus::Paused, now),
{
    active.pause(id)?;
    history.update_download_at(id, RecordChange::Status(DownloadStatus::Paused), now);
    Ok(())
}

/// Lets running job `id` go on and records it as Downloading.
pub fn resume_download(active: &ActiveJobs, history: &mut DownloadHistory, id: &str, now: i64) -> (r: Result<(), EngineError>)
    requires
        old(history).wf(),
    ensures
        final(history).wf(),
        r is Ok == active@.contains(id@),
        r is Err ==> r->Err_0 is NotFound && final(history)@ == old(history)@,
        r is Ok ==> final(history)@ == with_status(old(history)@, id@, DownloadStatus::Downloading, now),
{
    active.resume(id)?;
    history.update_download_at(id, RecordChange::Status(DownloadStatus::Downloading), now);
    Ok(())
}

/// The status a job ends in: Completed on success, Cancelled when the error
/// mentions "cancelled" in any case, Failed otherwise.
pub open spec fn final_status(result: Result<Seq<char>, Seq<char>>) -> DownloadStatus {
    match result {
        Ok(_) => DownloadStatus::Completed,
        Err(e) => if contains_folded(e, "cancelled"@) {
            DownloadStatus::Cancelled
        } else {
            DownloadStatus::Failed
        },
    }
}

pub open spec fn result_view(result: Result<String, String>) -> Result<Seq<char>, Seq<char>> {
    match result {
        Ok(p) => Ok(p@),
        Err(e) => Err(e@),
    }
}

pub fn finish_status(result: &Result<String, String>) -> (r: DownloadStatus)
    ensures
        r == final_status(result_view(*result)),
{
    match result {
        Ok(_) => DownloadStatus::Completed,
        Err(e) => {
            if contains_ignoring_case(e.as_str(), "cancelled") {
                DownloadStatus::Cancelled
            } else {
                DownloadStatus::Failed
            }
        },
    }
}

/// The `download-error` event.
pub struct DownloadError {
    pub id: String,
    pub error: String,
}

/// At worker exit: the job leaves the active set, its record takes the
/// status its result calls for, and a failure (not a cancellation) yields
/// the error event to send.
pub fn finish_download(
    history: &mut DownloadHistory,
    active: &mut ActiveJobs,
    id: &str,
    result: &Result<String, String>,
    now: i64,
) -> (r: Option<DownloadError>)
    requires
        old(history).wf(),
    ensures
        final(history).wf(),
        final(active)@ == old(active)@.remove(id@),
        final(history)@ == with_status(old(history)@, id@, final_status(result_view(*result)), now),
        r is Some == (final_status(result_view(*result)) == DownloadStatus::Failed),
        r matches Some(e) ==> e.id@ == id@ && result is Err && e.error@ == result->Err_0@,
{
    active.remove(id);
    let status = finish_status(result);
    history.update_download_at(id, RecordChange::Status(status), now);
    match result {
        Err(msg) => {
            if status == DownloadStatus::Failed {
                Some(DownloadError { id: String::from_str(id), error: msg.clone() })
            } else {
                None
            }
        },
        Ok(_) => None,
    }
}

pub open spec fn status_name(s: DownloadStatus) -> Seq<char> {
    match s {
        DownloadStatus::Pending => "Pending"@,
        DownloadStatus::Downloading => "Downloading"@,
        DownloadStatus::Paused => "Paused"@,
        DownloadStatus::Completed => "Completed"@,
        DownloadStatus::Failed => "Failed"@,
        DownloadStatus::Cancelled => "Cancelled"@,
    }
}

pub fn status_text(s: DownloadStatus) -> (r: String)
    ensures
        r@ == status_name(s),
{
    match s {
        DownloadStatus::Pending => String::from_str("Pending"),
        DownloadStatus::Downloading => String::from_str("Downloading"),
        DownloadStatus::Paused => String::from_str("Paused"),
        DownloadStatus::Completed => String::from_str("Completed"),
        DownloadStatus::Failed => String::from_str("Failed"),
        DownloadStatus::Cancelled => String::from_str("Cancelled"),
    }
}

/// A record as the history view shows it.
pub struct DownloadInfo {
    pub id: String,
    pub url: String,
    pub filename: String,
    pub total_size: u64,
    pub downloaded: u64,
    pub status: String,
    pub resumable: bool,
    pub created_at: i64,
}

pub open spec fn describes(info: DownloadInfo, r: RecordView) -> bool {
    &&& info.id@ == r.id
    &&& info.url@ == r.url
    &&& info.filename@ == r.filename
    &&& info.total_size == r.total_size
    &&& info.downloaded == crate::plan::sum_downloaded(r.chunks)
    &&& info.status@ == status_name(r.status)
    &&& info.resumable == r.resumable
    &&& info.created_at == r.created_at
}

/// Every job in the ledger, newest first.
pub fn get_download_history(history: &DownloadHistory) -> (r: Vec<DownloadInfo>)
    requires
        history.wf(),
    ensures
        r.len() == history.downloads.len(),
        forall|a: int, b: int| 0 <= a < b < r.len() ==> r[a].created_at >= r[b].created_at,
        forall|a: int|
            0 <= a < r.len() ==> history@.contains_key(#[trigger] r[a].id@) && describes(r[a], history@[r[a].id@]),
        forall|k: Seq<char>|
            #[trigger] history@.contains_key(k) ==> exists|a: int| 0 <= a < r.len() && r[a].id@ == k,
{
    let all = history.get_all_downloads();
    let mut r: Vec<DownloadInfo> = Vec::new();
    let mut i: usize = 0;
    while i < all.len()
        invariant
            i <= all.len(),
            r.len() == i,
            all.len() == history.downloads.len(),
            history.wf(),
            forall|a: int| 0 <= a < all.len() ==> history@.contains_key(#[trigger] all[a].id@) && history@[all[a].id@] == all[a]@,
            forall|a: int| 0 <= a < i ==> (#[trigger] r[a]).id@ == all[a].id@ && describes(r[a], all[a]@),
        decreases all.len() - i,
    {
        let rec = all[i];
        proof {
            crate::ledger::lemma_ledger_records_valid(*history, rec.id@);
        }
        r.push(
            DownloadInfo {
                id: rec.id.clone(),
                url: rec.url.clone(),
                filename: rec.filename.clone(),
                total_size: rec.total_size,
                downloaded: rec.total_downloaded(),
                status: status_text(rec.status),
                resumable: rec.resumable,
                created_at: rec.created_at,
            },
        );
        i = i + 1;
    }
    proof {
        assert forall|k: Seq<char>| #[trigger] history@.contains_key(k) implies exists|a: int| 0 <= a < r.len() && r[a].id@ == k by {
            let a = choose|a: int| 0 <= a < all.len() && all[a].id@ == k;
            assert(r[a].id@ == k);
        }
    }
    r
}

} // verus!
