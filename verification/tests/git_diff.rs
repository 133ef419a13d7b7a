//! Reading what git prints.

use trail::git::diff::{
    can_sum, count_lines, parse_numstat, parse_status_v2, untracked_stats, ChangeKind, FileStat, LineStats,
};
use trail::git::{file_log_args, git_failure, numstat_args, status_args, unified_args};
use trail::map::TextMap;

#[test]
fn parses_status_v2_entries() {
    let raw = b"1 .M N... 100644 100644 100644 abc def src/a.rs\0\
                1 A. N... 000000 100644 100644 000 111 src/new.rs\0\
                2 R. N... 100644 100644 100644 aaa bbb R100 src/b.rs\0src/old.rs\0\
                ? notes.txt\0";
    let entries = parse_status_v2(raw);
    assert_eq!(entries.len(), 4);
    assert_eq!(entries[0].unstaged, Some(ChangeKind::Modified));
    assert_eq!(entries[0].staged, None);
    assert_eq!(entries[1].staged, Some(ChangeKind::Added));
    assert_eq!(entries[2].staged, Some(ChangeKind::Renamed));
    assert_eq!(entries[2].orig_path.as_deref(), Some("src/old.rs"));
    assert!(entries[3].untracked);
    assert_eq!(entries[3].path, String::from("notes.txt"));
}

#[test]
fn parses_numstat_with_renames_and_binary() {
    let raw = b"3\t1\tsrc/a.rs\x00-\t-\timg.png\x005\t0\t\x00old.rs\x00new.rs\x00";
    let stats = parse_numstat(raw);
    assert_eq!(stats.len(), 3);
    assert_eq!(stats[0].additions, Some(3));
    assert!(stats[1].is_binary());
    assert_eq!(stats[2].path, String::from("new.rs"));
    assert_eq!(stats[2].old_path.as_deref(), Some("old.rs"));
}

#[test]
fn effective_kinds_and_labels() {
    let entries = parse_status_v2(
        b"1 AM N... 0 0 0 a b both.rs\0u UU N... 1 2 3 4 a b c conflict.rs\01 .T N... 0 0 0 a b link\0! ignored\0# branch\0",
    );
    assert_eq!(entries.len(), 3);
    assert_eq!(entries[0].effective_kind(), ChangeKind::Added);
    assert_eq!(entries[1].effective_kind(), ChangeKind::Conflicted);
    assert_eq!(entries[1].path, "conflict.rs");
    assert_eq!(entries[2].effective_kind(), ChangeKind::TypeChanged);
    assert_eq!(entries[2].effective_kind().label(), "Type changed");
}

#[test]
fn lossy_text_replaces_what_is_no_utf8() {
    let entries = parse_status_v2(b"? caf\xc3\xa9\0? bad\xff\0");
    assert_eq!(entries[0].path, "café");
    assert_eq!(entries[1].path, "bad\u{fffd}");
}

#[test]
fn lines_are_counted_as_git_counts_them() {
    assert_eq!(count_lines(b""), Some(0));
    assert_eq!(count_lines(b"a\nb\n"), Some(2));
    assert_eq!(count_lines(b"a\nb"), Some(2));
    assert_eq!(count_lines(b"a\0b"), None);
}

#[test]
fn untracked_files_are_all_additions() {
    let entries = parse_status_v2(b"? a.txt\0? b.bin\01 .M N... 0 0 0 a b c.rs\0");
    let mut contents = TextMap::new();
    contents.insert("a.txt".to_string(), b"x\ny\n".to_vec());
    contents.insert("b.bin".to_string(), b"\0".to_vec());
    let stats = untracked_stats(&entries, &contents);
    assert_eq!(stats.len(), 2);
    assert_eq!((stats[0].additions, stats[0].deletions), (Some(2), Some(0)));
    assert!(stats[1].is_binary());
}

fn stat(additions: u64, deletions: u64) -> FileStat {
    FileStat {
        path: "f".into(),
        old_path: None,
        additions: Some(additions),
        deletions: Some(deletions),
    }
}

#[test]
fn line_statistics_add_up() {
    let a = vec![stat(1, 2), stat(3, 4)];
    let b = vec![stat(10, 0)];
    let both: Vec<FileStat> = a.iter().chain(b.iter()).cloned().collect();
    let mut total = LineStats::sum(&a);
    assert_eq!((total.additions, total.deletions), (4, 6));
    total.add(&b[0]);
    assert_eq!(total, LineStats::sum(&both));
    assert_eq!(total.to_string(), "+14 -6");
    assert_eq!(LineStats::from_counts(Some(2), None).to_string(), "+2");
    assert_eq!(LineStats::from_counts(None, Some(3)).to_string(), "-3");
}

#[test]
fn what_git_is_asked() {
    assert_eq!(status_args()[0], "status");
    assert!(status_args().contains(&"--porcelain=v2".to_string()));
    assert!(numstat_args("HEAD", &vec!["a.rs".to_string()]).contains(&"HEAD".to_string()));
    assert_eq!(unified_args("HEAD", "a.rs").last().unwrap(), "a.rs");
    assert!(file_log_args("a.rs", 20).contains(&"20".to_string()));
}

#[test]
fn a_failing_git_is_reported() {
    let args = vec!["diff".to_string()];
    assert_eq!(
        git_failure("/r", &args, b" fatal: bad revision \n").to_string(),
        "git diff failed: fatal: bad revision"
    );
    assert_eq!(
        git_failure("/r", &args, b"error: Permission denied").to_string(),
        "permission denied while reading /r"
    );
}

#[test]
fn sums_that_do_not_fit_are_told() {
    assert!(can_sum(&Vec::new()));
    assert!(can_sum(&vec![stat(u64::MAX, 0), stat(0, 1)]));
    assert!(!can_sum(&vec![stat(u64::MAX, 0), stat(1, 0)]));
    assert!(!can_sum(&vec![stat(0, u64::MAX), stat(0, 1)]));
}
