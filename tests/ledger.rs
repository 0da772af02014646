use dlm::ledger::{DownloadHistory, DownloadRecord, DownloadStatus, RecordChange};
use dlm::plan::ChunkRecord;

fn record(id: &str, size: u64, resumable: bool, n: u64, now: i64) -> DownloadRecord {
    DownloadRecord::new_at(
        id.to_string(),
        format!("https://example.com/{}", id),
        id.to_string(),
        format!("/tmp/{}", id),
        size,
        resumable,
        n,
        now,
    )
}

#[test]
fn new_record_is_pending_with_plan() {
    let r = record("a.bin", 1000, true, 4, 100);
    assert_eq!(r.status, DownloadStatus::Pending);
    assert_eq!(r.num_connections, 4);
    assert_eq!(r.chunks.len(), 4);
    assert_eq!(r.chunks[3].start, 750);
    assert_eq!(r.chunks[3].end, 999);
    assert_eq!(r.created_at, 100);
    assert_eq!(r.updated_at, 100);
    assert!(r.check_wf());
}

#[test]
fn single_stream_record_has_one_segment() {
    let r = record("s.txt", 11, false, 8, 5);
    assert_eq!(r.chunks.len(), 1);
    assert_eq!(r.num_connections, 1);
    assert_eq!((r.chunks[0].start, r.chunks[0].end), (0, 10));
    assert!(r.check_wf());
}

#[test]
fn unknown_size_record() {
    let r = record("u.txt", 0, true, 8, 5);
    assert_eq!(r.chunks.len(), 1);
    assert_eq!(r.total_downloaded(), 0);
    assert!(r.check_wf());
}

#[test]
fn more_connections_than_bytes() {
    let r = record("tiny", 3, true, 8, 5);
    assert_eq!(r.chunks.len(), 3);
    assert!(r.check_wf());
}

#[test]
fn zero_connections_plans_one_segment() {
    let r = record("z", 10, true, 0, 5);
    assert_eq!(r.chunks.len(), 1);
    assert_eq!(r.chunks[0].end, 9);
}

#[test]
fn total_downloaded_sums_segments() {
    let mut r = record("t", 1000, true, 4, 1);
    r.chunks[0].downloaded = 100;
    r.chunks[2].downloaded = 250;
    assert_eq!(r.total_downloaded(), 350);
}

#[test]
fn total_downloaded_saturates() {
    let mut r = record("t", 1000, true, 2, 1);
    r.chunks[0].downloaded = u64::MAX;
    r.chunks[1].downloaded = 5;
    assert_eq!(r.total_downloaded(), u64::MAX);
}

#[test]
fn malformed_records_are_detected() {
    let mut r = record("m", 1000, true, 4, 1);
    r.chunks[1].start = 251;
    assert!(!r.check_wf());
    let mut r = record("m", 1000, true, 4, 1);
    r.chunks[1].downloaded = 251;
    assert!(!r.check_wf());
    let mut r = record("m", 1000, true, 4, 1);
    r.num_connections = 3;
    assert!(!r.check_wf());
    let mut r = record("m", 1000, true, 4, 1);
    r.chunks[3].end = 1000;
    assert!(!r.check_wf());
}

#[test]
fn add_get_remove() {
    let mut h = DownloadHistory::new();
    h.add_download(record("a", 10, true, 2, 1));
    h.add_download(record("b", 10, true, 2, 2));
    assert_eq!(h.get_download("a").unwrap().created_at, 1);
    assert!(h.get_download("c").is_none());
    h.remove_download("a");
    assert!(h.get_download("a").is_none());
    assert!(h.get_download("b").is_some());
    h.remove_download("missing");
    assert_eq!(h.downloads.len(), 1);
}

#[test]
fn add_replaces_same_id() {
    let mut h = DownloadHistory::new();
    h.add_download(record("a", 10, true, 2, 1));
    h.add_download(record("a", 20, true, 2, 7));
    assert_eq!(h.downloads.len(), 1);
    assert_eq!(h.get_download("a").unwrap().total_size, 20);
}

#[test]
fn take_returns_record() {
    let mut h = DownloadHistory::new();
    h.add_download(record("a", 10, true, 2, 1));
    let r = h.take_download("a").unwrap();
    assert_eq!(r.id, "a");
    assert!(h.take_download("a").is_none());
}

#[test]
fn update_sets_status_and_time() {
    let mut h = DownloadHistory::new();
    h.add_download(record("a", 10, true, 2, 1));
    h.update_download_at("a", RecordChange::Status(DownloadStatus::Downloading), 50);
    let r = h.get_download("a").unwrap();
    assert_eq!(r.status, DownloadStatus::Downloading);
    assert_eq!(r.updated_at, 50);
    assert_eq!(r.created_at, 1);
}

#[test]
fn update_file_changes_names() {
    let mut h = DownloadHistory::new();
    h.add_download(record("v", 0, false, 1, 1));
    h.update_download_at(
        "v",
        RecordChange::File { filename: "clip.mp4".to_string(), file_path: "/d/clip.mp4".to_string() },
        9,
    );
    let r = h.get_download("v").unwrap();
    assert_eq!(r.filename, "clip.mp4");
    assert_eq!(r.file_path, "/d/clip.mp4");
}

#[test]
fn update_unknown_id_changes_nothing() {
    let mut h = DownloadHistory::new();
    h.add_download(record("a", 10, true, 2, 1));
    h.update_download_at("b", RecordChange::Status(DownloadStatus::Failed), 50);
    assert_eq!(h.get_download("a").unwrap().status, DownloadStatus::Pending);
    assert_eq!(h.get_download("a").unwrap().updated_at, 1);
}

#[test]
fn chunk_progress_is_recorded_and_capped() {
    let mut h = DownloadHistory::new();
    h.add_download(record("a", 1000, true, 4, 1));
    h.update_chunk_progress_at("a", 1, 100, 20);
    h.update_chunk_progress_at("a", 2, 5000, 21);
    let r = h.get_download("a").unwrap();
    assert_eq!(r.chunks[1].downloaded, 100);
    assert_eq!(r.chunks[2].downloaded, 250);
    assert_eq!(r.updated_at, 21);
    assert_eq!(r.total_downloaded(), 350);
    assert!(r.check_wf());
}

#[test]
fn chunk_progress_frozen_after_end() {
    let mut h = DownloadHistory::new();
    h.add_download(record("a", 1000, true, 4, 1));
    h.update_chunk_progress_at("a", 0, 10, 2);
    h.update_download_at("a", RecordChange::Status(DownloadStatus::Cancelled), 3);
    h.update_chunk_progress_at("a", 0, 200, 4);
    assert_eq!(h.get_download("a").unwrap().chunks[0].downloaded, 10);
}

#[test]
fn chunk_progress_unknown_segment_ignored() {
    let mut h = DownloadHistory::new();
    h.add_download(record("a", 1000, true, 4, 1));
    h.update_chunk_progress_at("a", 9, 10, 2);
    assert_eq!(h.get_download("a").unwrap().total_downloaded(), 0);
    assert_eq!(h.get_download("a").unwrap().updated_at, 2);
}

#[test]
fn restart_demotes_downloading_to_paused() {
    let mut h = DownloadHistory::new();
    let mut crashed = record("c", 3000, true, 3, 1);
    crashed.status = DownloadStatus::Downloading;
    crashed.chunks[0].downloaded = 500;
    crashed.chunks[1].downloaded = 20;
    crashed.chunks[2].downloaded = 999;
    h.add_download(crashed);
    let mut done = record("d", 10, true, 1, 2);
    done.status = DownloadStatus::Completed;
    h.add_download(done);
    assert!(h.reconcile_after_restart_at(77));
    let c = h.get_download("c").unwrap();
    assert_eq!(c.status, DownloadStatus::Paused);
    assert_eq!(c.updated_at, 77);
    assert_eq!(c.chunks[0].downloaded, 500);
    let d = h.get_download("d").unwrap();
    assert_eq!(d.status, DownloadStatus::Completed);
    assert_eq!(d.updated_at, 2);
    assert!(!h.reconcile_after_restart_at(78));
}

#[test]
fn listing_is_newest_first() {
    let mut h = DownloadHistory::new();
    h.add_download(record("old", 10, true, 1, 10));
    h.add_download(record("new", 10, true, 1, 30));
    h.add_download(record("mid", 10, true, 1, 20));
    let ids: Vec<String> = h.get_all_downloads().iter().map(|r| r.id.clone()).collect();
    assert_eq!(ids, vec!["new", "mid", "old"]);
}

#[test]
fn clearing_keeps_unfinished_jobs() {
    let mut h = DownloadHistory::new();
    for (id, st) in [
        ("p", DownloadStatus::Pending),
        ("d", DownloadStatus::Downloading),
        ("z", DownloadStatus::Paused),
        ("c", DownloadStatus::Completed),
        ("f", DownloadStatus::Failed),
        ("x", DownloadStatus::Cancelled),
    ] {
        let mut r = record(id, 10, true, 1, 1);
        r.status = st;
        h.add_download(r);
    }
    let removed = h.clear_finished();
    let mut gone: Vec<String> = removed.iter().map(|r| r.id.clone()).collect();
    gone.sort();
    assert_eq!(gone, vec!["c", "f", "x"]);
    assert!(h.get_download("p").is_some());
    assert!(h.get_download("d").is_some());
    assert!(h.get_download("z").is_some());
    assert_eq!(h.downloads.len(), 3);
}

#[test]
fn segments_partition_total_in_ledger() {
    let mut h = DownloadHistory::new();
    h.add_download(record("a", 12345, true, 7, 1));
    let r = h.get_download("a").unwrap();
    let chunks: &Vec<ChunkRecord> = &r.chunks;
    assert_eq!(chunks[0].start, 0);
    for w in chunks.windows(2) {
        assert_eq!(w[0].end + 1, w[1].start);
    }
    assert_eq!(chunks[chunks.len() - 1].end, 12344);
    assert!(r.total_downloaded() <= r.total_size);
}

#[test]
fn clock_stamped_updates() {
    let mut h = DownloadHistory::new();
    let r = DownloadRecord::new(
        "k".to_string(),
        "u".to_string(),
        "k".to_string(),
        "/k".to_string(),
        100,
        true,
        2,
    );
    assert_eq!(r.created_at, r.updated_at);
    assert!(r.created_at > 1_600_000_000);
    h.add_download(r);
    h.update_download("k", RecordChange::Status(DownloadStatus::Paused));
    h.update_chunk_progress("k", 0, 7);
    assert!(h.reconcile_after_restart() == false);
    let k = h.get_download("k").unwrap();
    assert_eq!(k.status, DownloadStatus::Paused);
    assert_eq!(k.chunks[0].downloaded, 7);
}

#[test]
fn reloading_records_restores_ledger() {
    let mut h = DownloadHistory::new();
    h.add_download(record("a", 1000, true, 4, 1));
    h.add_download(record("b", 11, false, 8, 2));
    h.add_download(record("c", 0, true, 8, 3));
    h.update_chunk_progress_at("a", 2, 120, 9);
    let mut copy = DownloadHistory::new();
    for r in h.downloads.iter().rev() {
        assert!(r.check_wf());
        copy.add_download(r.clone());
    }
    assert_eq!(copy.downloads.len(), 3);
    for id in ["a", "b", "c"] {
        let x = h.get_download(id).unwrap();
        let y = copy.get_download(id).unwrap();
        assert_eq!(x.total_size, y.total_size);
        assert_eq!(x.status, y.status);
        assert_eq!(x.chunks, y.chunks);
        assert_eq!(x.updated_at, y.updated_at);
    }
}

#[test]
fn probed_size_is_covered_by_plan() {
    for (size, n) in [(1000u64, 4u64), (10_485_760, 8), (7, 32), (1, 1)] {
        let r = record("p", size, true, n, 1);
        let covered: u64 = r.chunks.iter().map(|c| c.end - c.start + 1).sum();
        assert_eq!(covered, size);
    }
}
