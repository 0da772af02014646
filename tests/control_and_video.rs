use dlm::control::{
    finish_download, finish_status, get_download_history, job_id, pause_download, resume_download,
    resume_interrupted_download, start_download, ActiveJobs, DownloadHandle,
};
use dlm::error::EngineError;
use dlm::ledger::{DownloadHistory, DownloadRecord, DownloadStatus};
use dlm::settings::{data_folder_of, join_path, Settings};
use dlm::video::{
    reported_total,
    extract_height, field_absent, fragment_count, is_video_url, progress_fields, ytdlp_args, ytdlp_path_in,
};
use std::sync::Arc;

fn history_with(status: DownloadStatus, resumable: bool, size: u64) -> DownloadHistory {
    let mut h = DownloadHistory::new();
    let mut r = DownloadRecord::new_at(
        "f.bin_1".to_string(),
        "http://h/f.bin".to_string(),
        "f.bin".to_string(),
        "/d/f.bin".to_string(),
        size,
        resumable,
        3,
        1,
    );
    r.status = status;
    if size >= 3 && resumable {
        r.chunks[0].downloaded = r.chunks[0].end - r.chunks[0].start + 1;
        r.chunks[1].downloaded = 7;
    }
    h.add_download(r);
    h
}

#[test]
fn job_ids_embed_time() {
    assert_eq!(job_id("file.zip", 1_700_000_000_123), "file.zip_1700000000123");
    assert_eq!(job_id("a", -5), "a_-5");
}

#[test]
fn start_registers_job() {
    let mut h = DownloadHistory::new();
    let mut a = ActiveJobs::new();
    let job = start_download(
        &mut h,
        &mut a,
        "http://h/f.bin".to_string(),
        "f.bin".to_string(),
        "/home/u/Downloads",
        1000,
        true,
        4,
        0,
        1234,
        1,
    );
    assert_eq!(job.id, "f.bin_1234");
    assert_eq!(job.file_path, "/home/u/Downloads/f.bin");
    assert!(job.chunked);
    assert_eq!(job.handle.chunk_downloaded.len(), 4);
    assert!(a.contains("f.bin_1234"));
    let r = h.get_download("f.bin_1234").unwrap();
    assert_eq!(r.status, DownloadStatus::Pending);
    assert_eq!(r.chunks.len(), 4);
}

#[test]
fn unknown_size_goes_single_stream() {
    let mut h = DownloadHistory::new();
    let mut a = ActiveJobs::new();
    let job = start_download(&mut h, &mut a, "u".to_string(), "hello.txt".to_string(), "/d/", 0, false, 8, 0, 5, 1);
    assert!(!job.chunked);
    assert_eq!(job.file_path, "/d/hello.txt");
    assert_eq!(job.handle.chunk_downloaded.len(), 1);
    let job = start_download(&mut h, &mut a, "u".to_string(), "r.txt".to_string(), "/d", 0, true, 8, 0, 6, 1);
    assert!(!job.chunked);
}

#[test]
fn controls_need_active_job() {
    let mut h = history_with(DownloadStatus::Downloading, true, 3000);
    let a = ActiveJobs::new();
    assert!(matches!(pause_download(&a, &mut h, "f.bin_1", 5), Err(EngineError::NotFound(_))));
    assert!(matches!(resume_download(&a, &mut h, "f.bin_1", 5), Err(EngineError::NotFound(_))));
    assert!(matches!(a.cancel("f.bin_1"), Err(EngineError::NotFound(_))));
    assert_eq!(h.get_download("f.bin_1").unwrap().status, DownloadStatus::Downloading);
}

#[test]
fn pause_then_resume_updates_flags_and_ledger() {
    let mut h = history_with(DownloadStatus::Downloading, true, 3000);
    let mut a = ActiveJobs::new();
    let handle = Arc::new(DownloadHandle::new("f.bin_1".to_string(), &vec![0, 0, 0], 0));
    a.insert(handle.clone());
    assert!(pause_download(&a, &mut h, "f.bin_1", 5).is_ok());
    assert!(handle.is_paused());
    assert_eq!(h.get_download("f.bin_1").unwrap().status, DownloadStatus::Paused);
    assert!(resume_download(&a, &mut h, "f.bin_1", 6).is_ok());
    assert!(!handle.is_paused());
    assert_eq!(h.get_download("f.bin_1").unwrap().status, DownloadStatus::Downloading);
    assert!(a.cancel("f.bin_1").is_ok());
    assert!(handle.is_cancelled());
}

#[test]
fn speed_limit_reaches_every_active_job() {
    let mut a = ActiveJobs::new();
    let h1 = Arc::new(DownloadHandle::new("a".to_string(), &vec![0], 0));
    let h2 = Arc::new(DownloadHandle::new("b".to_string(), &vec![0, 0], 0));
    a.insert(h1.clone());
    a.insert(h2.clone());
    a.set_speed_limit(1_048_576);
    assert_eq!(h1.current_speed_limit(), 1_048_576);
    assert_eq!(h2.current_speed_limit(), 1_048_576);
    a.remove("a");
    assert!(!a.contains("a"));
    assert!(a.contains("b"));
}

#[test]
fn resume_after_crash_uses_saved_progress() {
    let mut h = history_with(DownloadStatus::Downloading, true, 3000);
    assert!(h.reconcile_after_restart_at(9));
    assert_eq!(h.get_download("f.bin_1").unwrap().status, DownloadStatus::Paused);
    let mut a = ActiveJobs::new();
    let job = resume_interrupted_download(&h, &mut a, "f.bin_1", 0).ok().unwrap().unwrap();
    assert_eq!(job.total_size, 3000);
    assert_eq!(job.num_connections, 3);
    assert_eq!(job.chunks[0].downloaded, 1000);
    assert_eq!(job.chunks[1].downloaded, 7);
    assert_eq!(job.handle.counters(), vec![1000, 7, 0]);
    assert!(a.contains("f.bin_1"));
    let reqs = dlm::transfer::pending_requests(&job.chunks);
    assert_eq!(reqs.len(), 2);
    assert_eq!(reqs[0].from, 1007);
    assert_eq!(reqs[1].from, 2000);
}

#[test]
fn second_resume_is_a_no_op() {
    let h = history_with(DownloadStatus::Paused, true, 3000);
    let mut a = ActiveJobs::new();
    assert!(resume_interrupted_download(&h, &mut a, "f.bin_1", 0).ok().unwrap().is_some());
    let again = resume_interrupted_download(&h, &mut a, "f.bin_1", 0);
    assert!(matches!(again, Ok(None)));
    assert_eq!(a.handles.len(), 1);
}

#[test]
fn resume_rejections() {
    let mut a = ActiveJobs::new();
    let h = history_with(DownloadStatus::Paused, true, 3000);
    assert!(matches!(resume_interrupted_download(&h, &mut a, "nope", 0), Err(EngineError::NotFound(_))));
    let h = history_with(DownloadStatus::Completed, true, 3000);
    assert!(matches!(
        resume_interrupted_download(&h, &mut a, "f.bin_1", 0),
        Err(EngineError::InvalidRequest(_))
    ));
    let h = history_with(DownloadStatus::Paused, false, 3000);
    assert!(matches!(
        resume_interrupted_download(&h, &mut a, "f.bin_1", 0),
        Err(EngineError::InvalidRequest(_))
    ));
    let h = history_with(DownloadStatus::Failed, true, 0);
    assert!(matches!(
        resume_interrupted_download(&h, &mut a, "f.bin_1", 0),
        Err(EngineError::InvalidRequest(_))
    ));
    assert!(a.handles.is_empty());
}

#[test]
fn exit_statuses() {
    assert_eq!(finish_status(&Ok("/d/f".to_string())), DownloadStatus::Completed);
    assert_eq!(finish_status(&Err("Download cancelled".to_string())), DownloadStatus::Cancelled);
    assert_eq!(finish_status(&Err("Cancelled".to_string())), DownloadStatus::Cancelled);
    assert_eq!(finish_status(&Err("Chunk 1 HTTP error: 500".to_string())), DownloadStatus::Failed);
}

#[test]
fn cancelled_job_sends_no_error() {
    let mut h = history_with(DownloadStatus::Downloading, true, 3000);
    let mut a = ActiveJobs::new();
    a.insert(Arc::new(DownloadHandle::new("f.bin_1".to_string(), &vec![0, 0, 0], 0)));
    let e = finish_download(&mut h, &mut a, "f.bin_1", &Err("Download cancelled".to_string()), 8);
    assert!(e.is_none());
    assert!(!a.contains("f.bin_1"));
    assert_eq!(h.get_download("f.bin_1").unwrap().status, DownloadStatus::Cancelled);
}

#[test]
fn failed_job_sends_error() {
    let mut h = history_with(DownloadStatus::Downloading, true, 3000);
    let mut a = ActiveJobs::new();
    let e = finish_download(&mut h, &mut a, "f.bin_1", &Err("Write error: disk full".to_string()), 8).unwrap();
    assert_eq!(e.id, "f.bin_1");
    assert_eq!(e.error, "Write error: disk full");
    assert_eq!(h.get_download("f.bin_1").unwrap().status, DownloadStatus::Failed);
    let e = finish_download(&mut h, &mut a, "f.bin_1", &Ok("/d/f.bin".to_string()), 9);
    assert!(e.is_none());
    assert_eq!(h.get_download("f.bin_1").unwrap().status, DownloadStatus::Completed);
}

#[test]
fn history_view_of_records() {
    let h = history_with(DownloadStatus::Paused, true, 3000);
    let list = get_download_history(&h);
    assert_eq!(list.len(), 1);
    assert_eq!(list[0].status, "Paused");
    assert_eq!(list[0].downloaded, 1007);
    assert_eq!(list[0].total_size, 3000);
    assert!(list[0].resumable);
}

#[test]
fn settings_defaults_and_validation() {
    let mut s = Settings::default();
    assert_eq!(s.connections, 8);
    assert_eq!(s.speed_limit, 0);
    assert!(s.download_folder.is_none());
    assert!(matches!(s.set_connections(0), Err(EngineError::InvalidRequest(_))));
    assert!(matches!(s.set_connections(33), Err(EngineError::InvalidRequest(_))));
    assert_eq!(s.connections, 8);
    assert!(s.set_connections(1).is_ok());
    assert!(s.set_connections(32).is_ok());
    assert_eq!(s.connections, 32);
}

#[test]
fn download_folder_fallbacks() {
    let mut s = Settings::default();
    assert_eq!(s.folder_or(Some("/home/u/Downloads".to_string())), "/home/u/Downloads");
    assert_eq!(s.folder_or(None), ".");
    s.download_folder = Some("/data".to_string());
    assert_eq!(s.folder_or(None), "/data");
    assert_eq!(s.get_download_folder(), "/data");
}

#[test]
fn path_joining() {
    assert_eq!(join_path("/a", "b"), "/a/b");
    assert_eq!(join_path("/a/", "b"), "/a/b");
    assert_eq!(join_path("", "b"), "b");
    assert_eq!(data_folder_of(Some("/home/u/.local/share".to_string())), "/home/u/.local/share/dlm");
    assert_eq!(data_folder_of(None), "./dlm");
}

#[test]
fn video_site_urls() {
    assert!(is_video_url("https://www.youtube.com/watch?v=abc"));
    assert!(is_video_url("https://youtu.be/xyz"));
    assert!(is_video_url("https://x.com/someone/status/123"));
    assert!(is_video_url("https://www.instagram.com/reel/abc/"));
    assert!(!is_video_url("https://example.com/file.zip"));
    assert!(!is_video_url("https://youtube.com/about"));
}

#[test]
fn resolution_heights() {
    assert_eq!(extract_height(&Some("1920x1080".to_string())), 1080);
    assert_eq!(extract_height(&Some("720".to_string())), 720);
    assert_eq!(extract_height(&Some("audio only".to_string())), 0);
    assert_eq!(extract_height(&None), 0);
    assert_eq!(extract_height(&Some("1x99999999999".to_string())), 0);
}

#[test]
fn progress_line_fields() {
    let f = progress_fields("DLM: 10.5%|1048576|NA|10485760|524288.0|18").unwrap();
    assert_eq!(f, vec![" 10.5%", "1048576", "NA", "10485760", "524288.0", "18"]);
    assert!(progress_fields("DLM:1|2|3").is_none());
    assert!(progress_fields("[download] 10%").is_none());
    assert_eq!(progress_fields("DLM:|||||").unwrap().len(), 6);
    assert!(field_absent("NA"));
    assert!(field_absent(" NA "));
    assert!(!field_absent("12"));
}

#[test]
fn extractor_arguments() {
    let a = ytdlp_args("best", "/d", fragment_count(8), 2048, "https://youtu.be/x");
    assert_eq!(a[0], "--newline");
    assert_eq!(a[5], "best");
    assert_eq!(a[7], "/d/%(title)s.%(ext)s");
    assert_eq!(a[9], "--concurrent-fragments");
    assert_eq!(a[10], "8");
    assert_eq!(a[11], "--limit-rate");
    assert_eq!(a[12], "2K");
    assert_eq!(a[13], "https://youtu.be/x");
    assert_eq!(a.len(), 14);
    let b = ytdlp_args("22", "/d", fragment_count(1), 0, "u");
    assert_eq!(b.len(), 10);
    assert_eq!(fragment_count(32), 16);
    assert!(a[3].starts_with("download:DLM:"));
}

#[test]
fn extractor_location() {
    assert_eq!(ytdlp_path_in(Some("/home/u/.local/share".to_string())), "/home/u/.local/share/dlm/bin/yt-dlp");
}

#[test]
fn error_messages() {
    assert_eq!(EngineError::Cancelled.message(), "Download cancelled");
    assert_eq!(EngineError::NotFound("Download not found".to_string()).message(), "Download not found");
}

#[test]
fn progress_line_totals() {
    assert_eq!(reported_total(2_000_000, 3_000_000, 10, None), 2_000_000);
    assert_eq!(reported_total(0, 3_000_000, 10, None), 3_000_000);
    assert_eq!(reported_total(0, 0, 10, Some(500_000)), 500_000);
    assert_eq!(reported_total(40_000, 0, 10, Some(900_000)), 900_000);
    assert_eq!(reported_total(200_000, 0, 300_000, Some(600_000)), 600_000);
    assert_eq!(reported_total(200_000, 0, 100_000, Some(600_000)), 200_000);
}

#[test]
fn storage_locations() {
    assert!(dlm::settings::settings_path().ends_with("dlm/settings.json"));
    assert!(dlm::settings::history_path().ends_with("dlm/downloads.json"));
    assert!(dlm::video::get_ytdlp_dir().ends_with("dlm/bin"));
    assert!(dlm::video::get_ytdlp_path().ends_with("dlm/bin/yt-dlp"));
}
