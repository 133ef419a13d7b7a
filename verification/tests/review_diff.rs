//! Diffs of contents.

use trail::review;
use trail::map::TextMap;
use trail::review::assemble::can_compare;
use trail::review::diff::{count_lines, is_binary, is_diffable, is_matchable, line_stats, render_hunks, unified_diff};

#[test]
fn review_unified_diff_has_headers_and_hunks() {
    let out = review::unified_diff(
        "a.rs",
        None,
        Some(b"one\ntwo\nthree\n"),
        Some(b"one\n2\nthree\n"),
    );
    assert!(
        out.starts_with("--- a/a.rs\n+++ b/a.rs\n@@ -1,3 +1,3 @@\n one\n-two\n+2\n three\n"),
        "{out}"
    );
    let created = review::unified_diff("n.rs", None, None, Some(b"new\n"));
    assert!(
        created.starts_with("--- /dev/null\n+++ b/n.rs\n"),
        "{created}"
    );
    assert!(created.contains("+new\n"));
    let deleted = review::unified_diff("d.rs", None, Some(b"old\n"), None);
    assert!(deleted.contains("+++ /dev/null\n"));
    assert!(deleted.contains("-old\n"));
    let renamed = review::unified_diff(
        "new.rs",
        Some("old.rs"),
        Some(b"x\n"),
        Some(b"x\n"),
    );
    assert!(renamed.starts_with("--- a/old.rs\n+++ b/new.rs\n"));
    assert!(
        !renamed.contains("@@"),
        "identical content has no hunks: {renamed}"
    );
    let binary = review::unified_diff("b.bin", None, Some(b"\0\x01"), Some(b"\0\x02"));
    assert!(binary.contains("Binary files differ"));
    let no_newline = review::unified_diff("a", None, Some(b"x"), Some(b"y"));
    assert!(no_newline.contains("\\ No newline at end of file"));
}

#[test]
fn review_line_stats_count_hunk_sizes() {
    let s = line_stats(b"a\nb\nc\n", b"a\nc\nd\ne\n");
    assert_eq!(s.deletions, 1);
    assert_eq!(s.additions, 2);
}

#[test]
fn diff_unified_diff_has_headers_and_hunks() {
    let out = unified_diff(
        "a.rs",
        None,
        Some(b"one\ntwo\nthree\n"),
        Some(b"one\n2\nthree\n"),
    );
    assert!(
        out.starts_with("--- a/a.rs\n+++ b/a.rs\n@@ -1,3 +1,3 @@\n one\n-two\n+2\n three\n"),
        "{out}"
    );
    let created = unified_diff("n.rs", None, None, Some(b"new\n"));
    assert!(
        created.starts_with("--- /dev/null\n+++ b/n.rs\n"),
        "{created}"
    );
    assert!(created.contains("+new\n"));
    let deleted = unified_diff("d.rs", None, Some(b"old\n"), None);
    assert!(deleted.contains("+++ /dev/null\n"));
    assert!(deleted.contains("-old\n"));
    let renamed = unified_diff(
        "new.rs",
        Some("old.rs"),
        Some(b"x\n"),
        Some(b"x\n"),
    );
    assert!(renamed.starts_with("--- a/old.rs\n+++ b/new.rs\n"));
    assert!(
        !renamed.contains("@@"),
        "identical content has no hunks: {renamed}"
    );
    let binary = unified_diff("b.bin", None, Some(b"\0\x01"), Some(b"\0\x02"));
    assert!(binary.contains("Binary files differ"));
    let no_newline = unified_diff("a", None, Some(b"x"), Some(b"y"));
    assert!(no_newline.contains("\\ No newline at end of file"));
}

#[test]
fn diff_line_stats_count_hunk_sizes() {
    let s = line_stats(b"a\nb\nc\n", b"a\nc\nd\ne\n");
    assert_eq!(s.deletions, 1);
    assert_eq!(s.additions, 2);
}

#[test]
fn binary_content_holds_a_zero_byte_near_its_start() {
    assert!(is_binary(b"a\0b"));
    assert!(!is_binary(b"text"));
    assert!(!is_binary(b""));
}

#[test]
fn hunks_add_up_to_line_statistics() {
    let s = count_lines(&vec![(0, 2, 0, 5), (7, 7, 10, 11)]);
    assert_eq!((s.additions, s.deletions), (6, 2));
    let s = line_stats(b"", b"x\ny\n");
    assert_eq!((s.additions, s.deletions), (2, 0));
}

#[test]
fn hunks_are_rendered_line_by_line() {
    assert_eq!(render_hunks(b"", b""), "");
}

#[test]
fn ordinary_content_can_be_compared() {
    assert!(is_diffable(b"", b""));
    assert!(is_diffable(b"one\ntwo", b"one\n"));
    assert!(is_matchable(b"one\ntwo"));
    let mut blobs = TextMap::new();
    assert!(can_compare(&blobs));
    blobs.insert("h".to_string(), b"one\n".to_vec());
    assert!(can_compare(&blobs));
}

#[test]
fn a_missing_line_feed_is_said() {
    assert_eq!(
        unified_diff("a", None, Some(b"x"), Some(b"y\n")),
        "--- a/a\n+++ b/a\n@@ -1,1 +1,1 @@\n-x\n\\ No newline at end of file\n+y\n"
    );
}

#[test]
fn line_statistics_balance() {
    let cases: [(&[u8], &[u8], i64); 4] = [
        (b"a\nb\nc\n", b"a\nc\nd\ne\n", 1),
        (b"", b"x", 1),
        (b"x\ny", b"", -2),
        (b"same\n", b"same\n", 0),
    ];
    for (before, after, grown) in cases {
        let s = line_stats(before, after);
        assert_eq!(s.additions as i64 - s.deletions as i64, grown);
    }
    let s = line_stats(b"same\nlines\n", b"same\nlines\n");
    assert_eq!((s.additions, s.deletions), (0, 0));
}

#[test]
fn equal_contents_give_the_headers_alone() {
    let text: &[u8] = b"a\nb\nno line feed at the end";
    assert_eq!(
        unified_diff("n.rs", Some("o.rs"), Some(text), Some(text)),
        "--- a/o.rs\n+++ b/n.rs\n"
    );
    assert_eq!(
        unified_diff("n.rs", None, None, Some(b"")),
        "--- /dev/null\n+++ b/n.rs\n"
    );
    assert_eq!(
        unified_diff("n.rs", None, Some(b"\0"), Some(b"\0")),
        "--- a/n.rs\n+++ b/n.rs\nBinary files differ\n"
    );
}
