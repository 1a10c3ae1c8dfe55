use std::collections::BTreeMap;

use rollout::manager::LogManager;
use rollout::naming::{log_filename, log_index};
use rollout::rotator::{find_newline, split_point, Decision, Rotator};

fn names(list: &[&str]) -> Vec<String> {
    list.iter().map(|s| s.to_string()).collect()
}

/// A directory held in memory: the rotated files by name, and `current`.
struct Dir {
    files: BTreeMap<String, Vec<u8>>,
    current: Vec<u8>,
    rotations: usize,
}

impl Dir {
    fn apply(&mut self, decision: Decision, chunk: &[u8]) {
        match decision {
            Decision::Keep => self.current.extend_from_slice(chunk),
            Decision::Rotate { split, rotation } => {
                self.current.extend_from_slice(&chunk[..split]);
                let done = std::mem::take(&mut self.current);
                self.files.insert(rotation.target, done);
                for name in rotation.removed {
                    self.files.remove(&name);
                }
                self.rotations += 1;
                self.current.extend_from_slice(&chunk[split..]);
            }
            Decision::OutOfIndices => panic!("out of indices"),
        }
    }
}

fn run(prefix: &str, existing: &[&str], threshold: u64, keep: u32, current: &[u8], chunks: &[&[u8]]) -> Dir {
    let manager = LogManager::new(prefix.to_string(), &names(existing));
    let mut rotator = Rotator::new(manager, threshold, keep, current.len() as u64);
    let mut dir = Dir { files: BTreeMap::new(), current: current.to_vec(), rotations: 0 };
    for chunk in chunks {
        let d = rotator.on_read(chunk);
        dir.apply(d, chunk);
    }
    dir
}

#[test]
fn scan_keeps_only_matching_names() {
    let m = LogManager::new(
        "app.".to_string(),
        &names(&["app.1.log", "app.2.log", "other.log", "app.log"]),
    );
    assert_eq!(m.log_indices(), vec![1, 2]);
}

#[test]
fn scan_sorts_and_rejects_malformed_middles() {
    let m = LogManager::new(
        "app.".to_string(),
        &names(&[
            "app.10.log", "app.3.log", "app.+4.log", "app.x.log", "app..log", "app.5.txt",
            "app.4294967296.log", "xapp.6.log", "app.7.log.bak", "current", "",
        ]),
    );
    assert_eq!(m.log_indices(), vec![3, 10]);
}

#[test]
fn scan_counts_an_index_once() {
    let m = LogManager::new("p".to_string(), &names(&["p01.log", "p1.log", "p2.log"]));
    assert_eq!(m.log_indices(), vec![1, 2]);
}

#[test]
fn log_index_parses_strictly() {
    assert_eq!(log_index("log.12.log", "log."), Some(12));
    assert_eq!(log_index("log.0.log", "log."), Some(0));
    assert_eq!(log_index("log.4294967295.log", "log."), Some(u32::MAX));
    assert_eq!(log_index("log.4294967296.log", "log."), None);
    assert_eq!(log_index("log.1a.log", "log."), None);
    assert_eq!(log_index("log..log", "log."), None);
    assert_eq!(log_index("log.log", "log."), None);
    assert_eq!(log_index("log.1.lag", "log."), None);
    assert_eq!(log_index("lug.1.log", "log."), None);
    assert_eq!(log_index("7.log", ""), Some(7));
}

#[test]
fn filename_is_not_padded() {
    assert_eq!(log_filename("log.", 1), "log.1.log");
    assert_eq!(log_filename("app-", 1234), "app-1234.log");
    assert_eq!(log_filename("", 0), "0.log");
    assert_eq!(log_filename("x", u32::MAX), "x4294967295.log");
    let m = LogManager::new("log.".to_string(), &Vec::new());
    assert_eq!(m.filename(42), "log.42.log");
}

#[test]
fn next_index_starts_at_one_and_counts_up() {
    let mut m = LogManager::new("log.".to_string(), &Vec::new());
    assert!(m.has_next_index());
    assert_eq!(m.next_index(), 1);
    assert_eq!(m.next_index(), 2);
    assert_eq!(m.log_indices(), vec![1, 2]);
}

#[test]
fn next_index_continues_after_the_largest_and_leaves_gaps() {
    let mut m = LogManager::new("log.".to_string(), &names(&["log.2.log", "log.9.log"]));
    assert_eq!(m.next_index(), 10);
    assert_eq!(m.next_logfile(), "log.11.log");
    assert_eq!(m.log_indices(), vec![2, 9, 10, 11]);
}

#[test]
fn next_index_is_unavailable_at_the_top() {
    let m = LogManager::new("log.".to_string(), &names(&["log.4294967295.log"]));
    assert!(!m.has_next_index());
}

#[test]
fn cleanup_old_keeps_the_newest() {
    let mut m = LogManager::new(
        "p".to_string(),
        &names(&["p1.log", "p2.log", "p3.log", "p4.log"]),
    );
    let removed = m.cleanup_old(2);
    assert_eq!(removed, names(&["p1.log", "p2.log"]));
    assert_eq!(m.log_indices(), vec![3, 4]);
}

#[test]
fn cleanup_old_with_room_removes_nothing() {
    let mut m = LogManager::new("p".to_string(), &names(&["p1.log", "p2.log"]));
    assert!(m.cleanup_old(5).is_empty());
    assert_eq!(m.log_indices(), vec![1, 2]);
}

#[test]
fn cleanup_old_zero_keeps_nothing() {
    let mut m = LogManager::new("p".to_string(), &names(&["p1.log", "p2.log"]));
    assert_eq!(m.cleanup_old(0), names(&["p1.log", "p2.log"]));
    assert!(m.log_indices().is_empty());
}

#[test]
fn find_newline_finds_the_first() {
    assert_eq!(find_newline(b"ab\ncd\n"), Some(2));
    assert_eq!(find_newline(b"abcd"), None);
    assert_eq!(find_newline(b""), None);
    assert_eq!(find_newline(b"\n"), Some(0));
}

#[test]
fn split_point_waits_for_threshold_and_newline() {
    assert_eq!(split_point(0, 10, b"abc\ndef"), None);
    assert_eq!(split_point(5, 10, b"ab\ncd"), Some(3));
    assert_eq!(split_point(5, 10, b"abcde"), None);
    assert_eq!(split_point(20, 10, b"x\n"), Some(2));
    assert_eq!(split_point(u64::MAX, 10, b"\nx"), Some(1));
    assert_eq!(split_point(0, 0, b""), None);
}

#[test]
fn one_newline_rotates_once_after_it() {
    let input: &[u8] = b"hello world\nsecond half";
    let dir = run("log.", &[], 8, 5, b"", &[input]);
    assert_eq!(dir.rotations, 1);
    assert_eq!(dir.files.get("log.1.log").unwrap(), b"hello world\n");
    assert_eq!(dir.current, b"second half");
    let mut all = dir.files.get("log.1.log").unwrap().clone();
    all.extend_from_slice(&dir.current);
    assert_eq!(all, input);
}

#[test]
fn one_newline_with_existing_current() {
    let dir = run("log.", &[], 8, 5, b"old-", &[b"ab\ncdefghijk"]);
    assert_eq!(dir.files.get("log.1.log").unwrap(), b"old-ab\n");
    assert_eq!(dir.current, b"cdefghijk");
}

#[test]
fn no_newline_defers_rotation() {
    let manager = LogManager::new("log.".to_string(), &Vec::new());
    let mut r = Rotator::new(manager, 4, 5, 0);
    assert!(matches!(r.on_read(b"abcdef"), Decision::Keep));
    assert_eq!(r.current_size(), 6);
    assert!(matches!(r.on_read(b"ghi"), Decision::Keep));
    assert_eq!(r.current_size(), 9);
    match r.on_read(b"jk\nlm\nn") {
        Decision::Rotate { split, rotation } => {
            assert_eq!(split, 3);
            assert_eq!(rotation.target, "log.1.log");
            assert!(rotation.removed.is_empty());
        }
        _ => panic!("expected a rotation"),
    }
    assert_eq!(r.current_size(), 4);
    assert_eq!(r.log_manager().log_indices(), vec![1]);
}

#[test]
fn below_threshold_counts_bytes() {
    let manager = LogManager::new("log.".to_string(), &Vec::new());
    let mut r = Rotator::new(manager, 100, 5, 10);
    assert!(matches!(r.on_read(b"a\nb\n"), Decision::Keep));
    assert_eq!(r.current_size(), 14);
}

#[test]
fn count_saturates() {
    let manager = LogManager::new("log.".to_string(), &Vec::new());
    let mut r = Rotator::new(manager, u64::MAX, 5, u64::MAX - 1);
    assert!(matches!(r.on_read(b"abc"), Decision::Keep));
    assert_eq!(r.current_size(), u64::MAX);
}

#[test]
fn rotate_on_start_skips_empty_current() {
    let manager = LogManager::new("log.".to_string(), &Vec::new());
    let mut r = Rotator::new(manager, 10, 5, 0);
    assert!(matches!(r.on_start(true), Decision::Keep));
    assert!(r.log_manager().log_indices().is_empty());
}

#[test]
fn rotate_on_start_rotates_non_empty_current() {
    let manager = LogManager::new("log.".to_string(), &names(&["log.3.log"]));
    let mut r = Rotator::new(manager, 10, 5, 7);
    match r.on_start(true) {
        Decision::Rotate { split, rotation } => {
            assert_eq!(split, 0);
            assert_eq!(rotation.target, "log.4.log");
        }
        _ => panic!("expected a rotation"),
    }
    assert_eq!(r.current_size(), 0);
    assert_eq!(r.log_manager().log_indices(), vec![3, 4]);
}

#[test]
fn no_rotate_on_start_without_the_option() {
    let manager = LogManager::new("log.".to_string(), &Vec::new());
    let mut r = Rotator::new(manager, 10, 5, 7);
    assert!(matches!(r.on_start(false), Decision::Keep));
    assert_eq!(r.current_size(), 7);
}

#[test]
fn out_of_indices_is_reported() {
    let manager = LogManager::new("log.".to_string(), &names(&["log.4294967295.log"]));
    let mut r = Rotator::new(manager, 1, 5, 0);
    assert!(matches!(r.on_read(b"a\n"), Decision::OutOfIndices));
    assert_eq!(r.current_size(), 0);
    assert!(matches!(r.on_start(true), Decision::Keep));
}

#[test]
fn retention_removes_the_oldest_on_rotation() {
    let manager = LogManager::new("p".to_string(), &names(&["p1.log", "p2.log"]));
    let mut r = Rotator::new(manager, 1, 2, 0);
    match r.on_read(b"x\n") {
        Decision::Rotate { split, rotation } => {
            assert_eq!(split, 2);
            assert_eq!(rotation.target, "p3.log");
            assert_eq!(rotation.removed, names(&["p1.log"]));
        }
        _ => panic!("expected a rotation"),
    }
    assert_eq!(r.log_manager().log_indices(), vec![2, 3]);
}

#[test]
fn end_to_end_one_read() {
    let input: &[u8] = b"aaaaa\nbbbbb\nccccc\n";
    let dir = run("log.", &[], 10, 2, b"", &[input]);
    assert!(dir.files.len() <= 2);
    assert_eq!(dir.files.get("log.1.log").unwrap(), b"aaaaa\n");
    assert_eq!(dir.current, b"bbbbb\nccccc\n");
    let mut all: Vec<u8> = Vec::new();
    for content in dir.files.values() {
        assert_eq!(content.last(), Some(&b'\n'));
        all.extend_from_slice(content);
    }
    all.extend_from_slice(&dir.current);
    assert_eq!(all, input);
}

#[test]
fn end_to_end_line_by_line() {
    let input: &[u8] = b"aaaaa\nbbbbb\nccccc\n";
    let dir = run("log.", &[], 10, 2, b"", &[b"aaaaa\n", b"bbbbb\n", b"ccccc\n"]);
    assert!(dir.files.len() <= 2);
    assert_eq!(dir.files.get("log.1.log").unwrap(), b"aaaaa\nbbbbb\n");
    assert_eq!(dir.current, b"ccccc\n");
    let mut all: Vec<u8> = Vec::new();
    for content in dir.files.values() {
        all.extend_from_slice(content);
    }
    all.extend_from_slice(&dir.current);
    assert_eq!(all, input);
}

#[test]
fn end_to_end_retention_drops_oldest() {
    let chunks: [&[u8]; 5] = [b"a\n", b"b\n", b"c\n", b"d\n", b"e"];
    let dir = run("log.", &[], 1, 2, b"", &chunks);
    assert_eq!(dir.rotations, 4);
    let kept: Vec<&String> = dir.files.keys().collect();
    assert_eq!(kept, vec!["log.3.log", "log.4.log"]);
    assert_eq!(dir.files.get("log.3.log").unwrap(), b"c\n");
    assert_eq!(dir.files.get("log.4.log").unwrap(), b"d\n");
    assert_eq!(dir.current, b"e");
}

#[test]
fn composed_names_are_recognised() {
    for (prefix, n) in [("log.", 0u32), ("log.", 1), ("a-", 907), ("", u32::MAX)] {
        assert_eq!(log_index(&log_filename(prefix, n), prefix), Some(n));
    }
}
