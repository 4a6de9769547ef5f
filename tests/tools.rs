use dedup::choice::{parse_choice, parse_position, Choice};
use dedup::entry::FileEntry;
use dedup::remote::{
    delete_url, delete_urls, encode_path, find_in, is_dated_screenshot, is_kept_screenshot,
    screenshot_deletions, SCREENSHOT_DIR,
};
use dedup::resolve::{auto_keep, in_one_directory, keep_deletions, next_open, parent_dir};

fn file(path: &str) -> FileEntry {
    FileEntry { path: path.to_string(), size: 1, checksum: "x".to_string() }
}

const BASE: &str = "https://cloud.example/remote.php/dav/files/trwa";
const TELEGRAM: &str =
    "/var/lib/docker/volumes/nextcloud_aio_nextcloud_data/_data/trwa/files/SofortUpload/Telegram/";

#[test]
fn choice_letters_and_numbers() {
    assert_eq!(parse_choice("s", 3), Some(Choice::Skip));
    assert_eq!(parse_choice("  C \n", 3), Some(Choice::Cancel));
    assert_eq!(parse_choice("S", 3), Some(Choice::Skip));
    assert_eq!(parse_choice("2", 3), Some(Choice::Pick(2)));
    assert_eq!(parse_choice(" 3\n", 3), Some(Choice::Pick(3)));
    assert_eq!(parse_choice("+1", 3), Some(Choice::Pick(1)));
}

#[test]
fn choice_out_of_range_or_garbage() {
    assert_eq!(parse_choice("0", 3), None);
    assert_eq!(parse_choice("4", 3), None);
    assert_eq!(parse_choice("", 3), None);
    assert_eq!(parse_choice("x", 3), None);
    assert_eq!(parse_choice("-1", 3), None);
    assert_eq!(parse_choice("1a", 3), None);
    assert_eq!(parse_choice("+", 3), None);
    assert_eq!(parse_choice("99999999999999999999999999", 3), None);
}

#[test]
fn position_parse_exact() {
    assert_eq!(parse_position(b"17", 20), Some(17));
    assert_eq!(parse_position(b"017", 20), Some(17));
    assert_eq!(parse_position(b"21", 20), None);
    assert_eq!(parse_position(b"", 20), None);
}

#[test]
fn find_marker_positions() {
    assert_eq!(find_in(b"abcabc", b"bc", 0), Some(1));
    assert_eq!(find_in(b"abcabc", b"bc", 2), Some(4));
    assert_eq!(find_in(b"abc", b"x", 0), None);
    assert_eq!(find_in(b"ab", b"abc", 0), None);
}

#[test]
fn segments_percent_encoded() {
    assert_eq!(encode_path(b"Photos/My pic.jpg"), b"Photos/My%20pic.jpg".to_vec());
    assert_eq!(encode_path(b"a~b/c-d_e.f"), b"a~b/c-d_e.f".to_vec());
    assert_eq!(encode_path("Bücher/ä".as_bytes()), b"B%C3%BCcher/%C3%A4".to_vec());
    assert_eq!(encode_path(b"a//b/"), b"a//b/".to_vec());
}

#[test]
fn url_for_server_path() {
    let f = file("/data/_data/trwa/files/Photos/a b.jpg");
    assert_eq!(delete_url(&f, BASE), Some(format!("{}/Photos/a%20b.jpg", BASE).into_bytes()));
    assert_eq!(delete_url(&file("/home/u/a.jpg"), BASE), None);
}

#[test]
fn urls_for_telegram_copies() {
    let groups = vec![
        vec![
            file(&format!("{}x y.jpg", TELEGRAM)),
            file("/var/lib/docker/volumes/nextcloud_aio_nextcloud_data/_data/trwa/files/Photos/x.jpg"),
        ],
        vec![file(&format!("{}only.jpg", TELEGRAM))],
    ];
    let urls = delete_urls(&groups, BASE);
    assert_eq!(urls, vec![format!("{}/SofortUpload/Telegram/x%20y.jpg", BASE).into_bytes()]);
}

#[test]
fn dated_screenshots() {
    let good = format!("{}2023/07/20230714_120000.png", SCREENSHOT_DIR);
    let short = format!("{}2023/07/2023.png", SCREENSHOT_DIR);
    let wrong_month = format!("{}2023/07/20230814.png", SCREENSHOT_DIR);
    let long_year = format!("{}20233/07/20233070.png", SCREENSHOT_DIR);
    assert!(is_dated_screenshot(&good));
    assert!(!is_dated_screenshot(&short));
    assert!(!is_dated_screenshot(&wrong_month));
    assert!(!is_dated_screenshot("/home/u/2023/07/20230714.png"));
    assert!(!is_dated_screenshot(&long_year));
    assert!(is_kept_screenshot(&long_year) == false);
    assert!(is_kept_screenshot(&good));
}

#[test]
fn screenshot_group_deletions() {
    let good = format!("{}2023/07/20230714_120000.png", SCREENSHOT_DIR);
    let group = vec![file("/elsewhere/a.png"), file(&good), file("/other/b.png")];
    assert_eq!(screenshot_deletions(&group), Some(vec![0, 2]));
    assert_eq!(screenshot_deletions(&vec![file("/a"), file("/b")]), None);
}

#[test]
fn same_directory_groups() {
    assert!(in_one_directory(&vec![file("/a/x"), file("/a/y")]));
    assert!(!in_one_directory(&vec![file("/a/x"), file("/b/x")]));
    assert!(!in_one_directory(&Vec::new()));
}

#[test]
fn automatic_keep_directory() {
    let group = vec![file("/a/x"), file("/b/x"), file("/c/x")];
    assert_eq!(auto_keep(&group, &vec!["/b".to_string()]), Some("/b".to_string()));
    assert_eq!(auto_keep(&group, &vec!["/b".to_string(), "/c".to_string()]), None);
    assert_eq!(auto_keep(&group, &vec!["/z".to_string()]), None);
}

#[test]
fn deletions_outside_kept_directory() {
    let group = vec![file("/keep/x"), file("/other/x"), file("/keeper/x"), file("/keep/sub/x")];
    assert_eq!(keep_deletions(&group, "/keep"), Some(vec![1, 2]));
    assert_eq!(keep_deletions(&group, "/none"), None);
}

#[test]
fn next_open_group_and_parent() {
    assert_eq!(next_open(&vec![true, false, true, false], 0), Some(1));
    assert_eq!(next_open(&vec![true, false, true, false], 2), Some(3));
    assert_eq!(next_open(&vec![true, true], 0), None);
    assert_eq!(parent_dir("/a/b/c.txt"), Some("/a/b".to_string()));
    assert_eq!(parent_dir("/"), None);
}
