use dedup::audit::has_size_mismatch;
use dedup::cleanup::{files_to_delete, is_preferred_entry, starts_with_bytes, TELEGRAM_DIR};
use dedup::entry::{compare_bytes, FileEntry};
use dedup::paths::make_output_path;
use dedup::stats::{summarize, RunStats};
use std::cmp::Ordering;

fn entry(path: &str, size: u64, checksum: &str) -> FileEntry {
    FileEntry { path: path.to_string(), size, checksum: checksum.to_string() }
}

fn telegram(name: &str) -> String {
    format!("{}{}", TELEGRAM_DIR, name)
}

#[test]
fn telegram_copies_are_not_preferred() {
    assert!(!is_preferred_entry(&entry(&telegram("pic.jpg"), 1, "x")));
    assert!(is_preferred_entry(&entry("/home/u/pic.jpg", 1, "x")));
    let folder_itself = TELEGRAM_DIR.trim_end_matches('/');
    assert!(is_preferred_entry(&entry(folder_itself, 1, "x")));
}

#[test]
fn delete_telegram_copies_when_another_is_kept() {
    let group = vec![
        entry(&telegram("a.jpg"), 1, "x"),
        entry("/data/photos/a.jpg", 1, "x"),
        entry(&telegram("b/a.jpg"), 1, "x"),
    ];
    assert_eq!(files_to_delete(&group), Some(vec![0, 2]));
}

#[test]
fn no_decision_without_preferred_copy() {
    let group = vec![entry(&telegram("a.jpg"), 1, "x"), entry(&telegram("b.jpg"), 1, "x")];
    assert_eq!(files_to_delete(&group), None);
    assert_eq!(files_to_delete(&Vec::new()), None);
}

#[test]
fn nothing_to_delete_when_all_preferred() {
    let group = vec![entry("/a/x", 1, "x"), entry("/b/x", 1, "x")];
    assert_eq!(files_to_delete(&group), Some(vec![]));
}

#[test]
fn prefix_test_on_bytes() {
    assert!(starts_with_bytes(b"abc", b"ab"));
    assert!(starts_with_bytes(b"abc", b""));
    assert!(!starts_with_bytes(b"ab", b"abc"));
    assert!(!starts_with_bytes(b"abd", b"abc"));
}

#[test]
fn byte_order_compare() {
    assert_eq!(compare_bytes(b"a", b"b"), Ordering::Less);
    assert_eq!(compare_bytes(b"ab", b"a"), Ordering::Greater);
    assert_eq!(compare_bytes(b"", b""), Ordering::Equal);
    assert_eq!(compare_bytes(b"Z", b"a"), Ordering::Less);
}

#[test]
fn output_path_beside_input() {
    assert_eq!(make_output_path("data/duplicates.json"), "data/duplicates_sorted.json");
    assert_eq!(make_output_path("dups"), "dups_sorted.json");
    assert_eq!(make_output_path("/tmp/a.tar.gz"), "/tmp/a.tar_sorted.gz");
    assert_eq!(make_output_path(""), "output_sorted.json");
}

#[test]
fn summary_counts_files_and_savings() {
    let groups = vec![
        vec![entry("a", 100, "x"), entry("b", 100, "x"), entry("c", 100, "x")],
        vec![entry("d", 7, "y"), entry("e", 7, "y")],
    ];
    let s = summarize(&groups).unwrap();
    assert_eq!(s.duplicate_files, 5);
    assert_eq!(s.groups, 2);
    assert_eq!(s.potential_savings, 207);
    let none = summarize(&Vec::new()).unwrap();
    assert_eq!((none.duplicate_files, none.groups, none.potential_savings), (0, 0, 0));
}

#[test]
fn summary_overflow_is_none() {
    let groups = vec![vec![entry("a", u64::MAX, "x"), entry("b", u64::MAX, "x"), entry("c", u64::MAX, "x")]];
    assert!(summarize(&groups).is_none());
}

#[test]
fn progress_every_hundred_files() {
    let mut stats = RunStats::new();
    let mut due = Vec::new();
    for i in 0..250u64 {
        if stats.record(i) {
            due.push(stats.files);
        }
    }
    assert_eq!(due, vec![100, 200]);
    assert_eq!(stats.files, 250);
    assert_eq!(stats.bytes, 249 * 250 / 2);
}

#[test]
fn byte_counter_saturates() {
    let mut stats = RunStats { files: 3, bytes: u64::MAX - 1 };
    stats.record(5);
    assert_eq!(stats.bytes, u64::MAX);
    assert_eq!(stats.files, 4);
}

#[test]
fn audit_flags_digest_with_two_sizes() {
    assert!(has_size_mismatch(&vec![entry("a", 1, "h"), entry("b", 2, "h")]));
    assert!(!has_size_mismatch(&vec![entry("a", 1, "h"), entry("b", 1, "h")]));
    assert!(!has_size_mismatch(&vec![entry("a", 1, "h"), entry("b", 2, "g")]));
    assert!(!has_size_mismatch(&Vec::new()));
}
