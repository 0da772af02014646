use dlm::extractor::{already_downloaded_file, announces_merge, destination_of, merge_target_of, trim};
use dlm::formats::{select_formats, FormatKey};

fn fmt(res: Option<&str>, v: Option<&str>, a: Option<&str>, size: Option<u64>, approx: Option<u64>) -> FormatKey {
    FormatKey {
        resolution: res.map(|s| s.to_string()),
        vcodec: v.map(|s| s.to_string()),
        acodec: a.map(|s| s.to_string()),
        filesize: size,
        filesize_approx: approx,
    }
}

#[test]
fn destination_lines() {
    assert_eq!(
        destination_of("[download] Destination: /d/My Video.f137.mp4\r"),
        Some("/d/My Video.f137.mp4".to_string())
    );
    assert_eq!(destination_of("[download] 10% of 5MiB"), None);
}

#[test]
fn merge_lines() {
    let line = "[Merger] Merging formats into \"/d/My Video.mp4\"";
    assert_eq!(merge_target_of(line), Some("/d/My Video.mp4".to_string()));
    assert!(announces_merge(line));
    assert!(announces_merge("[Merger] done"));
    assert!(!announces_merge("[download] 100%"));
    assert_eq!(merge_target_of("[Merger] Merging formats into \"\""), None);
    assert_eq!(merge_target_of("[download] into the void"), None);
}

#[test]
fn already_downloaded_lines() {
    assert_eq!(
        already_downloaded_file("[download] /d/clip.webm has already been downloaded"),
        Some("/d/clip.webm".to_string())
    );
    assert_eq!(already_downloaded_file("[download] /d/clip.txt has already been downloaded"), None);
    assert_eq!(already_downloaded_file("[download] /d/clip.mp4 is ready"), None);
}

#[test]
fn trimming_white_space() {
    assert_eq!(trim("  a b \t\n"), "a b");
    assert_eq!(trim("\u{3000}x\u{a0}"), "x");
    assert_eq!(trim("   "), "");
}

#[test]
fn formats_one_per_group_largest_first_by_height() {
    let formats = vec![
        fmt(Some("640x360"), Some("avc1"), Some("mp4a"), Some(100), None),
        fmt(Some("1920x1080"), Some("avc1"), Some("none"), None, Some(900)),
        fmt(Some("1920x1080"), Some("vp9"), Some("none"), Some(1200), None),
        fmt(Some("640x360"), Some("vp9"), Some("opus"), Some(80), None),
        fmt(Some("audio only"), Some("none"), Some("opus"), Some(30), None),
        fmt(None, Some("avc1"), Some("mp4a"), Some(5000), None),
        fmt(Some("1280x720"), Some("none"), Some("none"), Some(10), None),
        fmt(Some("1280x720"), Some("avc1"), Some("mp4a"), Some(400), None),
    ];
    assert_eq!(select_formats(&formats), vec![2, 7, 0, 4]);
}

#[test]
fn formats_equal_sizes_keep_first() {
    let formats = vec![
        fmt(Some("1280x720"), Some("avc1"), Some("mp4a"), Some(400), None),
        fmt(Some("1280x720"), Some("vp9"), Some("opus"), Some(400), None),
    ];
    assert_eq!(select_formats(&formats), vec![0]);
}

#[test]
fn formats_empty() {
    assert!(select_formats(&Vec::new()).is_empty());
}
