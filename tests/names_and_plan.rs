use dlm::names::{check_file_exists, extract_filename_from_url, generate_unique_filename};
use dlm::plan::{plan_segments, ChunkRecord};
use dlm::transfer::merge_order;

fn names(list: &[&str]) -> Vec<String> {
    list.iter().map(|s| s.to_string()).collect()
}

#[test]
fn filename_from_url_strips_query() {
    assert_eq!(
        extract_filename_from_url("https://example.com/files/archive.tar.gz?token=abc/def"),
        Some("archive.tar.gz".to_string())
    );
}

#[test]
fn filename_from_url_needs_a_dot() {
    assert_eq!(extract_filename_from_url("https://example.com/files/readme"), None);
    assert_eq!(extract_filename_from_url("https://example.com/files/"), None);
    assert_eq!(extract_filename_from_url(""), None);
}

#[test]
fn filename_from_url_without_slash() {
    assert_eq!(extract_filename_from_url("file.bin"), Some("file.bin".to_string()));
}

#[test]
fn unique_name_takes_lowest_free_number() {
    let existing = names(&["movie.mp4", "movie (1).mp4", "movie (3).mp4"]);
    assert_eq!(generate_unique_filename(&existing, "movie.mp4"), "movie (2).mp4");
}

#[test]
fn unique_name_without_extension() {
    let existing = names(&["README"]);
    assert_eq!(generate_unique_filename(&existing, "README"), "README (1)");
}

#[test]
fn unique_name_splits_at_final_dot() {
    let existing = names(&["a.tar.gz"]);
    assert_eq!(generate_unique_filename(&existing, "a.tar.gz"), "a.tar (1).gz");
}

#[test]
fn unique_name_trailing_dot_drops_suffix() {
    let existing = names(&["notes."]);
    assert_eq!(generate_unique_filename(&existing, "notes."), "notes (1)");
}

#[test]
fn unique_name_is_deterministic() {
    let existing = names(&["x.bin", "x (1).bin"]);
    let a = generate_unique_filename(&existing, "x.bin");
    let b = generate_unique_filename(&existing, "x.bin");
    assert_eq!(a, b);
    assert_eq!(a, "x (2).bin");
}

#[test]
fn unique_name_keeps_free_name() {
    let existing = names(&["movie (1).mp4", "other.mp4"]);
    assert_eq!(generate_unique_filename(&existing, "movie.mp4"), "movie.mp4");
    assert_eq!(generate_unique_filename(&Vec::new(), "README"), "README");
}

#[test]
fn free_name_is_kept() {
    let existing = names(&["other.txt"]);
    let info = check_file_exists(&existing, "report.txt");
    assert!(!info.exists);
    assert_eq!(info.suggested_name, "report.txt");
}

#[test]
fn taken_name_gets_suggestion() {
    let existing = names(&["report.txt"]);
    let info = check_file_exists(&existing, "report.txt");
    assert!(info.exists);
    assert_eq!(info.suggested_name, "report (1).txt");
}

#[test]
fn empty_folder_keeps_name() {
    let info = check_file_exists(&Vec::new(), "a.txt");
    assert!(!info.exists);
    assert_eq!(info.suggested_name, "a.txt");
}

fn ranges(v: &[ChunkRecord]) -> Vec<(u64, u64, u64)> {
    v.iter().map(|c| (c.id, c.start, c.end)).collect()
}

#[test]
fn chunked_four_way_plan() {
    let p = plan_segments(1000, 4);
    assert_eq!(ranges(&p), vec![(0, 0, 249), (1, 250, 499), (2, 500, 749), (3, 750, 999)]);
    assert!(p.iter().all(|c| c.downloaded == 0));
}

#[test]
fn last_segment_absorbs_remainder() {
    let p = plan_segments(10, 3);
    assert_eq!(ranges(&p), vec![(0, 0, 2), (1, 3, 5), (2, 6, 9)]);
}

#[test]
fn plan_sizes_sum_to_total() {
    for n in 1..=32u64 {
        for s in [n, n + 1, 97, 1000, 10_485_760] {
            if s < n {
                continue;
            }
            let p = plan_segments(s, n);
            assert_eq!(p.len() as u64, n);
            let sizes: Vec<u64> = p.iter().map(|c| c.end - c.start + 1).collect();
            assert_eq!(sizes.iter().sum::<u64>(), s);
            for sz in &sizes[..sizes.len() - 1] {
                assert_eq!(*sz, s / n);
            }
            assert!(sizes[sizes.len() - 1] - s / n <= n - 1);
        }
    }
}

#[test]
fn single_connection_plan() {
    let p = plan_segments(11, 1);
    assert_eq!(ranges(&p), vec![(0, 0, 10)]);
}

#[test]
fn one_byte_per_segment_plan() {
    let p = plan_segments(4, 4);
    assert_eq!(ranges(&p), vec![(0, 0, 0), (1, 1, 1), (2, 2, 2), (3, 3, 3)]);
}

#[test]
fn largest_size_plan() {
    let p = plan_segments(u64::MAX, 2);
    assert_eq!(p[0].start, 0);
    assert_eq!(p[1].end, u64::MAX - 1);
    assert_eq!(p[0].end + 1, p[1].start);
}

#[test]
fn merge_order_is_ascending_and_complete() {
    let finished = vec![false, true, false, true];
    let on_disk = vec![true, false, true, false];
    assert_eq!(merge_order(&finished, &on_disk), vec![0, 1, 2, 3]);
}

#[test]
fn merge_order_skips_missing_segments() {
    let finished = vec![true, false, false];
    let on_disk = vec![false, false, true];
    assert_eq!(merge_order(&finished, &on_disk), vec![0, 2]);
}

#[test]
fn merged_segments_reassemble_resource() {
    let resource: Vec<u8> = (0..1000u32).map(|i| (i % 251) as u8).collect();
    let plan = plan_segments(1000, 4);
    let files: Vec<Vec<u8>> = plan
        .iter()
        .map(|c| resource[c.start as usize..=c.end as usize].to_vec())
        .collect();
    let order = merge_order(&vec![true; 4], &vec![false; 4]);
    let mut merged = Vec::new();
    for id in order {
        merged.extend_from_slice(&files[id as usize]);
    }
    assert_eq!(merged, resource);
}
