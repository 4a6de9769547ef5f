use dedup::digest::record_of;
use dedup::entry::FileEntry;
use dedup::report::{build_report, find_duplicates, sort_inventory};
use dedup::scan::{collect_outcomes, HashError};

fn entry(path: &str, size: u64, checksum: &str) -> FileEntry {
    FileEntry { path: path.to_string(), size, checksum: checksum.to_string() }
}

fn paths(v: &[FileEntry]) -> Vec<String> {
    v.iter().map(|e| e.path.clone()).collect()
}

#[test]
fn three_files_one_group() {
    let a = record_of("root/a.bin".to_string(), b"0123456789");
    let b = record_of("root/b.bin".to_string(), b"0123456789");
    let c = record_of("root/c.bin".to_string(), b"abcdefghij");
    assert_eq!(a.size, 10);
    assert_eq!(c.size, 10);
    let report = build_report(vec![c.clone(), b.clone(), a.clone()]);
    assert_eq!(report.inventory.len(), 3);
    assert_eq!(paths(&report.inventory), vec!["root/a.bin", "root/b.bin", "root/c.bin"]);
    assert_eq!(report.duplicates.len(), 1);
    assert_eq!(report.duplicates[0], vec![a, b]);
    assert!(report.duplicates.iter().all(|g| !g.contains(&c)));
}

#[test]
fn empty_root_gives_empty_report() {
    let report = build_report(Vec::new());
    assert!(report.inventory.is_empty());
    assert!(report.duplicates.is_empty());
}

#[test]
fn unreadable_file_is_left_out() {
    let a = record_of("r/a".to_string(), b"same");
    let b = record_of("r/b".to_string(), b"same");
    let outcomes = vec![
        Ok(a.clone()),
        Err(HashError { path: "r/gone".to_string(), cause: "permission denied".to_string() }),
        Ok(b.clone()),
    ];
    let (records, errors) = collect_outcomes(&outcomes);
    assert_eq!(records, vec![a.clone(), b.clone()]);
    assert_eq!(errors.len(), 1);
    assert_eq!(errors[0].path, "r/gone");
    let report = build_report(records);
    assert_eq!(paths(&report.inventory), vec!["r/a", "r/b"]);
    assert_eq!(report.duplicates, vec![vec![a, b]]);
}

#[test]
fn equal_size_different_content_not_grouped() {
    let a = record_of("x/a".to_string(), b"aaaa");
    let b = record_of("x/b".to_string(), b"bbbb");
    assert_eq!(a.size, b.size);
    assert_ne!(a.checksum, b.checksum);
    let report = build_report(vec![a, b]);
    assert_eq!(report.inventory.len(), 2);
    assert!(report.duplicates.is_empty());
}

#[test]
fn equal_digest_different_size_not_grouped() {
    let report = build_report(vec![entry("p/a", 10, "ab12"), entry("p/b", 9, "ab12")]);
    assert_eq!(report.inventory.len(), 2);
    assert!(report.duplicates.is_empty());
}

#[test]
fn digest_of_known_inputs() {
    let e = record_of("abc.txt".to_string(), b"abc");
    assert_eq!(e.path, "abc.txt");
    assert_eq!(e.size, 3);
    assert_eq!(e.checksum, "ba7816bf8f01cfea414140de5dae2223b00361a396177a9cb410ff61f20015ad");
    let empty = record_of("empty".to_string(), b"");
    assert_eq!(empty.size, 0);
    assert_eq!(empty.checksum, "e3b0c44298fc1c149afbf4c8996fb92427ae41e4649b934ca495991b7852b855");
}

#[test]
fn inventory_sorted_by_path_bytes() {
    let inv = sort_inventory(vec![
        entry("ab", 1, "x"),
        entry("a", 2, "y"),
        entry("B", 3, "z"),
        entry("a/c", 4, "w"),
        entry("\u{e9}", 5, "v"),
    ]);
    assert_eq!(paths(&inv), vec!["B", "a", "a/c", "ab", "\u{e9}"]);
}

#[test]
fn groups_ordered_largest_first_then_digest() {
    let records = vec![
        entry("s/1", 5, "bb"),
        entry("s/2", 5, "bb"),
        entry("l/1", 100, "cc"),
        entry("l/2", 100, "cc"),
        entry("t/1", 5, "aa"),
        entry("t/2", 5, "aa"),
        entry("u/1", 7, "dd"),
    ];
    let report = build_report(records);
    let keys: Vec<(u64, String)> =
        report.duplicates.iter().map(|g| (g[0].size, g[0].checksum.clone())).collect();
    assert_eq!(
        keys,
        vec![(100, "cc".to_string()), (5, "aa".to_string()), (5, "bb".to_string())]
    );
    assert_eq!(paths(&report.duplicates[0]), vec!["l/1", "l/2"]);
    assert_eq!(paths(&report.duplicates[1]), vec!["t/1", "t/2"]);
}

#[test]
fn same_records_in_any_order_same_report() {
    let records = vec![
        entry("d/3", 4, "k1"),
        entry("d/1", 4, "k1"),
        entry("d/2", 8, "k2"),
        entry("d/4", 8, "k2"),
        entry("d/5", 8, "k3"),
    ];
    let mut reversed = records.clone();
    reversed.reverse();
    let r1 = build_report(records);
    let r2 = build_report(reversed);
    assert_eq!(r1.inventory, r2.inventory);
    assert_eq!(r1.duplicates, r2.duplicates);
}

#[test]
fn group_members_share_size_and_digest() {
    let report = build_report(vec![
        entry("m/a", 3, "q"),
        entry("m/b", 3, "q"),
        entry("m/c", 3, "r"),
        entry("m/d", 3, "r"),
        entry("m/e", 3, "r"),
    ]);
    assert_eq!(report.duplicates.len(), 2);
    for g in &report.duplicates {
        assert!(g.len() >= 2);
        assert!(g.iter().all(|e| e.size == g[0].size && e.checksum == g[0].checksum));
    }
    let k0 = (report.duplicates[0][0].size, report.duplicates[0][0].checksum.clone());
    let k1 = (report.duplicates[1][0].size, report.duplicates[1][0].checksum.clone());
    assert_ne!(k0, k1);
    assert_eq!(report.duplicates[1].len(), 3);
}

#[test]
fn every_record_once_in_inventory_and_at_most_one_group() {
    let records = vec![
        entry("z/a", 1, "h"),
        entry("z/b", 1, "h"),
        entry("z/c", 2, "h"),
        entry("z/d", 1, "h"),
    ];
    let report = build_report(records.clone());
    assert_eq!(report.inventory.len(), records.len());
    for r in &records {
        assert_eq!(report.inventory.iter().filter(|e| *e == r).count(), 1);
        assert!(report.duplicates.iter().filter(|g| g.contains(r)).count() <= 1);
    }
    assert_eq!(paths(&report.duplicates[0]), vec!["z/a", "z/b", "z/d"]);
}

#[test]
fn unique_key_only_in_inventory() {
    let lone = entry("only/one", 42, "feed");
    let report = build_report(vec![entry("o/a", 1, "x"), lone.clone(), entry("o/b", 1, "x")]);
    assert!(report.inventory.contains(&lone));
    assert!(report.duplicates.iter().all(|g| !g.contains(&lone)));
}

#[test]
fn regrouping_inventory_gives_same_groups() {
    let report = build_report(vec![
        entry("g/b", 6, "s"),
        entry("g/a", 6, "s"),
        entry("g/c", 9, "t"),
        entry("g/d", 9, "t"),
        entry("g/e", 1, "u"),
    ]);
    let again = build_report(report.inventory.clone());
    assert_eq!(again.inventory, report.inventory);
    assert_eq!(again.duplicates, report.duplicates);
    assert_eq!(find_duplicates(&report.inventory), report.duplicates);
}

#[test]
fn same_path_breaks_ties_by_size_then_digest() {
    let inv = sort_inventory(vec![entry("p", 2, "a"), entry("p", 1, "b"), entry("p", 1, "a")]);
    assert_eq!(inv, vec![entry("p", 1, "a"), entry("p", 1, "b"), entry("p", 2, "a")]);
}

#[test]
fn digest_is_sixty_four_hex_digits() {
    let e = record_of("bin".to_string(), &[0u8, 255, 17, 42]);
    assert_eq!(e.checksum.len(), 64);
    assert!(e.checksum.chars().all(|c| c.is_ascii_digit() || ('a'..='f').contains(&c)));
    assert_eq!(e.size, 4);
}

#[test]
fn audit_quiet_on_core_groups() {
    let report = build_report(vec![
        entry("q/a", 3, "h"),
        entry("q/b", 3, "h"),
        entry("q/c", 4, "h"),
        entry("q/d", 4, "h"),
    ]);
    assert_eq!(report.duplicates.len(), 2);
    assert!(report.duplicates.iter().all(|g| !dedup::audit::has_size_mismatch(g)));
}
