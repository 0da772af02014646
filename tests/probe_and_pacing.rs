use dlm::error::EngineError;
use dlm::probe::{filename_from_disposition, probe_outcome};
use dlm::text::{contains_ignoring_case, decimal, decimal_signed, parse_u64};
use dlm::throttle::Throttle;

fn some(s: &str) -> Option<String> {
    Some(s.to_string())
}

#[test]
fn small_single_stream_probe() {
    let info = probe_outcome(
        "http://h/hello.txt",
        200,
        "http://h/hello.txt",
        &some("11"),
        &None,
        &None,
    )
    .ok()
    .unwrap();
    assert_eq!(info.size, Some(11));
    assert!(!info.resumable);
    assert_eq!(info.filename, "hello.txt");
    assert_eq!(info.url, "http://h/hello.txt");
}

#[test]
fn chunked_probe_is_resumable() {
    let info = probe_outcome("http://h/f.bin", 200, "http://h/f.bin", &some("1000"), &some("bytes"), &None)
        .ok()
        .unwrap();
    assert_eq!(info.size, Some(1000));
    assert!(info.resumable);
}

#[test]
fn accept_ranges_must_be_exactly_bytes() {
    let info = probe_outcome("http://h/f.bin", 200, "http://h/f.bin", &None, &some("Bytes"), &None)
        .ok()
        .unwrap();
    assert!(!info.resumable);
    assert_eq!(info.size, None);
    let info = probe_outcome("http://h/f.bin", 200, "http://h/f.bin", &None, &some("none"), &None)
        .ok()
        .unwrap();
    assert!(!info.resumable);
}

#[test]
fn non_2xx_probe_fails() {
    let r = probe_outcome("http://h/x", 404, "http://h/x", &None, &None, &None);
    match r {
        Err(EngineError::ProbeFailed(m)) => assert_eq!(m, "HTTP error: 404"),
        _ => panic!("expected ProbeFailed"),
    }
    assert!(probe_outcome("http://h/x", 199, "http://h/x", &None, &None, &None).is_err());
    assert!(probe_outcome("http://h/x", 300, "http://h/x", &None, &None, &None).is_err());
    assert!(probe_outcome("http://h/x", 299, "http://h/x", &None, &None, &None).is_ok());
}

#[test]
fn disposition_name_wins() {
    let info = probe_outcome(
        "http://h/dl?id=3",
        200,
        "http://cdn/files/other.zip",
        &None,
        &None,
        &some("attachment; filename=\"report.pdf\""),
    )
    .ok()
    .unwrap();
    assert_eq!(info.filename, "report.pdf");
}

#[test]
fn final_url_name_then_requested_then_default() {
    let info = probe_outcome("http://h/orig.iso", 200, "http://cdn/final.iso?sig=1", &None, &None, &None)
        .ok()
        .unwrap();
    assert_eq!(info.filename, "final.iso");
    let info = probe_outcome("http://h/orig.iso", 200, "http://cdn/get", &None, &None, &None).ok().unwrap();
    assert_eq!(info.filename, "orig.iso");
    let info = probe_outcome("http://h/get", 200, "http://cdn/get", &None, &None, &None).ok().unwrap();
    assert_eq!(info.filename, "download");
}

#[test]
fn empty_disposition_name_falls_back() {
    let info = probe_outcome(
        "http://h/a.txt",
        200,
        "http://h/a.txt",
        &None,
        &None,
        &some("attachment; filename=\"\""),
    )
    .ok()
    .unwrap();
    assert_eq!(info.filename, "a.txt");
}

#[test]
fn disposition_parameter_forms() {
    assert_eq!(filename_from_disposition("attachment; filename=plain.txt"), some("plain.txt"));
    assert_eq!(filename_from_disposition("inline"), None);
    assert_eq!(
        filename_from_disposition("attachment; filename=\"a.txt\"; size=3"),
        some("a.txt\"; size=3")
    );
    assert_eq!(filename_from_disposition("filename=one filename=two"), some("one "));
}

#[test]
fn content_length_parsing() {
    assert_eq!(parse_u64("0"), Some(0));
    assert_eq!(parse_u64("+5"), Some(5));
    assert_eq!(parse_u64("18446744073709551615"), Some(u64::MAX));
    assert_eq!(parse_u64("18446744073709551616"), None);
    assert_eq!(parse_u64(""), None);
    assert_eq!(parse_u64("+"), None);
    assert_eq!(parse_u64("-1"), None);
    assert_eq!(parse_u64(" 1"), None);
    assert_eq!(parse_u64("12a"), None);
}

#[test]
fn probe_with_unparsable_length() {
    let info = probe_outcome("http://h/a.txt", 200, "http://h/a.txt", &some("abc"), &None, &None).ok().unwrap();
    assert_eq!(info.size, None);
}

#[test]
fn decimal_rendering() {
    assert_eq!(decimal(0), "0");
    assert_eq!(decimal(1048576), "1048576");
    assert_eq!(decimal(u64::MAX), "18446744073709551615");
    assert_eq!(decimal_signed(-42), "-42");
    assert_eq!(decimal_signed(i64::MIN), "-9223372036854775808");
    assert_eq!(decimal_signed(7), "7");
}

#[test]
fn case_insensitive_search() {
    assert!(contains_ignoring_case("Download cancelled", "cancelled"));
    assert!(contains_ignoring_case("CANCELLED by user", "cancelled"));
    assert!(contains_ignoring_case("Cancelled", "cancelled"));
    assert!(!contains_ignoring_case("Chunk 2 HTTP error: 500", "cancelled"));
    assert!(!contains_ignoring_case("cancel", "cancelled"));
}

#[test]
fn unlimited_pacing_never_waits() {
    let mut t = Throttle::new();
    assert_eq!(t.pace(65536, 0, 4, 0), 0);
    assert_eq!(t.window_bytes, 0);
}

#[test]
fn pacing_delay_for_one_mebibyte_cap() {
    let mut t = Throttle::new();
    // 1 MiB/s over 4 segments: 262144 B/s each. 1,000,000 bytes should take
    // 3.814697265 s; one second has passed.
    assert_eq!(t.pace(1_000_000, 1_048_576, 4, 1_000_000_000), 2814);
    assert_eq!(t.window_bytes, 1_000_000);
}

#[test]
fn short_delays_are_skipped() {
    let mut t = Throttle::new();
    // 1000 bytes at 100,000 B/s should take 10 ms; 6 ms have passed.
    assert_eq!(t.pace(1000, 100_000, 1, 6_000_000), 0);
    // 2000 bytes should take 20 ms; 6 ms have passed.
    assert_eq!(t.pace(1000, 100_000, 1, 6_000_000), 14);
}

#[test]
fn no_delay_when_behind_budget() {
    let mut t = Throttle::new();
    assert_eq!(t.pace(100, 1000, 1, 500_000_000), 0);
}

#[test]
fn cap_below_segment_count_gives_one_byte_share() {
    let mut t = Throttle::new();
    // Share of 1 B/s: 2 bytes take 2 s.
    assert_eq!(t.pace(2, 3, 4, 0), 2000);
}

#[test]
fn window_rolls_after_a_second() {
    let mut t = Throttle::new();
    t.pace(500, 1000, 1, 0);
    assert!(!t.roll_window(999_999_999));
    assert_eq!(t.window_bytes, 500);
    assert!(t.roll_window(1_000_000_000));
    assert_eq!(t.window_bytes, 0);
}

#[test]
fn budget_holds_after_pause() {
    // After the pause, bytes fit share * (elapsed + pause + 6 ms).
    for (bytes, share, elapsed) in [(1_000_000u64, 262_144u64, 1_000_000_000u64), (70_000, 65_536, 3_000_000), (5, 1, 0)] {
        let mut t = Throttle::new();
        let d = t.pace(bytes, share, 1, elapsed);
        let lhs = bytes as u128 * 1_000_000_000;
        let rhs = share as u128 * (elapsed as u128 + d as u128 * 1_000_000 + 6_000_000);
        assert!(lhs < rhs);
    }
}

#[test]
fn paced_trace_stays_within_share_plus_one_buffer() {
    // One segment with a 100,000 B/s share receiving 20,000-byte buffers,
    // each after the pause the pacer asked for.
    let share = 100_000u64;
    let mut t = Throttle::new();
    let mut now: u64 = 0;
    for _ in 0..20 {
        let d = t.pace(20_000, share, 1, now);
        let lhs = t.window_bytes as u128 * 1_000_000_000;
        let rhs = share as u128 * (now as u128 + 6_000_000) + 20_000u128 * 1_000_000_000;
        assert!(lhs < rhs);
        now += d * 1_000_000;
    }
}
