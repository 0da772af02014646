use dlm::error::EngineError;
use dlm::plan::{plan_segments, ChunkRecord};
use dlm::progress::{cancelled_progress, Reporter, StreamMeter};
use dlm::transfer::{
    buffer_action, join_step, pending_requests, range_header, segment_file_name, segment_plan,
    segment_request, segment_status_ok, temp_dir_name, BufferAction, JoinStep, SegmentRequest,
};

#[test]
fn reporter_tick_sums_and_speeds() {
    let chunks = plan_segments(1000, 4);
    let mut r = Reporter::new("job".to_string(), 1000, &chunks);
    assert_eq!(r.chunk_sizes, vec![250, 250, 250, 250]);
    let step = r.tick(false, false, &vec![10, 20, 30, 40]);
    let p = step.progress.unwrap();
    assert_eq!(p.downloaded, 100);
    assert_eq!(p.total, 1000);
    assert_eq!(p.speed, 1000);
    assert_eq!(p.status, "downloading");
    assert_eq!(p.id, "job");
    assert_eq!(p.chunk_progress.len(), 4);
    assert_eq!(p.chunk_progress[2].id, 2);
    assert_eq!(p.chunk_progress[2].downloaded, 30);
    assert_eq!(p.chunk_progress[2].total, 250);
    assert!(!step.checkpoint);
    assert!(!step.done);
    assert_eq!(r.last_total, 100);
}

#[test]
fn reporter_paused_speed_is_zero() {
    let chunks = plan_segments(1000, 2);
    let mut r = Reporter::new("j".to_string(), 1000, &chunks);
    r.tick(false, false, &vec![100, 100]);
    let p = r.tick(false, true, &vec![150, 100]).progress.unwrap();
    assert_eq!(p.speed, 0);
    assert_eq!(p.status, "paused");
    assert_eq!(p.downloaded, 250);
}

#[test]
fn reporter_speed_saturates_on_lower_sample() {
    let chunks = plan_segments(1000, 2);
    let mut r = Reporter::new("j".to_string(), 1000, &chunks);
    r.tick(false, false, &vec![100, 100]);
    let p = r.tick(false, false, &vec![100, 50]).progress.unwrap();
    assert_eq!(p.speed, 0);
}

#[test]
fn reporter_checkpoints_every_tenth_tick() {
    let chunks = plan_segments(1000, 1);
    let mut r = Reporter::new("j".to_string(), 1000, &chunks);
    for i in 1..=9u64 {
        assert!(!r.tick(false, false, &vec![i]).checkpoint);
    }
    assert!(r.tick(false, false, &vec![10]).checkpoint);
    assert_eq!(r.ticks, 0);
    assert!(!r.tick(false, false, &vec![11]).checkpoint);
}

#[test]
fn reporter_stops_when_complete_or_cancelled() {
    let chunks = plan_segments(100, 2);
    let mut r = Reporter::new("j".to_string(), 100, &chunks);
    assert!(r.tick(false, false, &vec![50, 50]).done);
    let mut r = Reporter::new("j".to_string(), 100, &chunks);
    let step = r.tick(true, false, &vec![1, 1]);
    assert!(step.done);
    assert!(step.progress.is_none());
    assert!(!step.checkpoint);
}

#[test]
fn stream_meter_emits_every_interval() {
    let mut m = StreamMeter::new("s".to_string(), 11);
    assert!(m.on_data(5, 20).is_none());
    let p = m.on_data(6, 100).unwrap();
    assert_eq!(p.downloaded, 11);
    assert_eq!(p.speed, 110);
    assert_eq!(p.status, "downloading");
    assert_eq!(p.chunk_progress.len(), 1);
    assert_eq!(p.chunk_progress[0].id, 0);
    assert_eq!(p.chunk_progress[0].total, 11);
    assert_eq!(m.last_downloaded, 11);
}

#[test]
fn stream_meter_paused_and_cancelled() {
    let mut m = StreamMeter::new("s".to_string(), 0);
    m.on_data(7, 0);
    let p = m.paused_progress();
    assert_eq!(p.status, "paused");
    assert_eq!(p.speed, 0);
    assert_eq!(p.downloaded, 7);
    let c = cancelled_progress("s".to_string(), 0);
    assert_eq!(c.status, "cancelled");
    assert_eq!(c.downloaded, 0);
    assert!(c.chunk_progress.is_empty());
}

#[test]
fn temp_layout_names() {
    assert_eq!(temp_dir_name("movie.mp4_1700000000000"), ".dlm_temp_movie.mp4_1700000000000");
    assert_eq!(segment_file_name(0), "seg_0");
    assert_eq!(segment_file_name(31), "seg_31");
}

#[test]
fn range_header_values() {
    assert_eq!(range_header(0, 249), "bytes=0-249");
    assert_eq!(range_header(750, 999), "bytes=750-999");
}

#[test]
fn resumed_segment_requests_start_after_saved_bytes() {
    let c = ChunkRecord { id: 1, start: 250, end: 499, downloaded: 100 };
    assert_eq!(segment_request(&c), Some(SegmentRequest { id: 1, from: 350, to: 499, already: 100 }));
    let whole = ChunkRecord { id: 2, start: 500, end: 749, downloaded: 250 };
    assert_eq!(segment_request(&whole), None);
    let fresh = ChunkRecord { id: 0, start: 0, end: 249, downloaded: 0 };
    assert_eq!(segment_request(&fresh), Some(SegmentRequest { id: 0, from: 0, to: 249, already: 0 }));
}

#[test]
fn only_unfinished_segments_get_workers() {
    let mut chunks = plan_segments(3000, 3);
    chunks[0].downloaded = 1000;
    chunks[1].downloaded = 10;
    let reqs = pending_requests(&chunks);
    assert_eq!(
        reqs,
        vec![
            SegmentRequest { id: 1, from: 1010, to: 1999, already: 10 },
            SegmentRequest { id: 2, from: 2000, to: 2999, already: 0 },
        ]
    );
}

#[test]
fn plan_uses_saved_segments_on_resume() {
    let saved = vec![ChunkRecord { id: 0, start: 0, end: 9, downloaded: 4 }];
    assert_eq!(segment_plan(10, 4, Some(saved.clone())), saved);
    assert_eq!(segment_plan(1000, 4, None), plan_segments(1000, 4));
}

#[test]
fn segment_statuses() {
    assert!(segment_status_ok(200));
    assert!(segment_status_ok(206));
    assert!(!segment_status_ok(416));
    assert!(!segment_status_ok(204));
    assert!(!segment_status_ok(299));
    assert!(!segment_status_ok(301));
}

#[test]
fn buffer_decisions() {
    assert_eq!(buffer_action(true, true), BufferAction::Cancel);
    assert_eq!(buffer_action(true, false), BufferAction::Cancel);
    assert_eq!(buffer_action(false, true), BufferAction::Wait);
    assert_eq!(buffer_action(false, false), BufferAction::Write);
}

#[test]
fn worker_results_settle_job() {
    assert!(matches!(join_step(3, Ok(()), false), JoinStep::Done(3)));
    assert!(matches!(join_step(3, Err(EngineError::Cancelled), true), JoinStep::Ignored));
    match join_step(3, Err(EngineError::Transport("Stream error".to_string())), false) {
        JoinStep::Fail(EngineError::Transport(m)) => assert_eq!(m, "Stream error"),
        _ => panic!("expected failure"),
    }
}
