//! Folding raw events into checkpoints.

use trail::recorder::checkpoint::{
    build_checkpoints, debounce, ChangeKind, CommitBoundary, BULK_THRESHOLD, DEBOUNCE, WINDOW,
};
use trail::recorder::store::{RawEvent, RawEventKind, Record, SessionEnd};
use trail::time::Timestamp;

fn t(secs: i64, millis: i64) -> Timestamp {
    Timestamp::new(1_700_000_000 + secs, (millis * 1_000_000) as u32)
}

fn ev(
    secs: i64,
    millis: i64,
    path: &str,
    kind: RawEventKind,
    before: Option<&str>,
    after: Option<&str>,
) -> Record {
    Record::Event(RawEvent {
        timestamp: t(secs, millis),
        path: path.to_string(),
        kind,
        from_path: None,
        before_hash: before.map(String::from),
        after_hash: after.map(String::from),
    })
}

#[test]
fn debounce_folds_bursts_on_the_same_file() {
    let records = vec![
        ev(0, 0, "a.rs", RawEventKind::Modified, Some("h0"), Some("h1")),
        ev(
            0,
            200,
            "a.rs",
            RawEventKind::Modified,
            Some("h1"),
            Some("h2"),
        ),
        ev(
            0,
            400,
            "a.rs",
            RawEventKind::Modified,
            Some("h2"),
            Some("h3"),
        ),
    ];
    let cps = build_checkpoints("s", &records);
    assert_eq!(cps.len(), 1);
    assert_eq!(cps[0].changes.len(), 1);
    let c = &cps[0].changes[0];
    assert_eq!(c.edits, 3);
    assert_eq!(c.before_hash.as_deref(), Some("h0"));
    assert_eq!(c.after_hash.as_deref(), Some("h3"));
    assert_eq!(cps[0].id, "s.1");
}

#[test]
fn repeated_edits_beyond_debounce_still_fold_within_a_checkpoint() {
    let records = vec![
        ev(0, 0, "a.rs", RawEventKind::Modified, Some("h0"), Some("h1")),
        ev(5, 0, "a.rs", RawEventKind::Modified, Some("h1"), Some("h2")),
        ev(12, 0, "b.rs", RawEventKind::Created, None, Some("x")),
        ev(
            20,
            0,
            "a.rs",
            RawEventKind::Modified,
            Some("h2"),
            Some("h3"),
        ),
    ];
    let cps = build_checkpoints("s", &records);
    assert_eq!(cps.len(), 1);
    assert_eq!(cps[0].changes.len(), 2);
    let a = cps[0]
        .changes
        .iter()
        .find(|c| c.path == "a.rs")
        .unwrap();
    assert_eq!(a.edits, 3);
    assert_eq!(a.after_hash.as_deref(), Some("h3"));
    assert_eq!(cps[0].started_at, t(0, 0));
    assert_eq!(cps[0].ended_at, t(20, 0));
}

#[test]
fn a_gap_longer_than_the_window_starts_a_new_checkpoint() {
    let records = vec![
        ev(0, 0, "a.rs", RawEventKind::Modified, Some("h0"), Some("h1")),
        ev(
            31,
            0,
            "a.rs",
            RawEventKind::Modified,
            Some("h1"),
            Some("h2"),
        ),
    ];
    let cps = build_checkpoints("s", &records);
    assert_eq!(cps.len(), 2);
    assert_eq!(cps[1].id, "s.2");
    assert_eq!(cps[1].changes[0].before_hash.as_deref(), Some("h1"));
}

#[test]
fn a_commit_closes_the_open_checkpoint() {
    let records = vec![
        ev(0, 0, "a.rs", RawEventKind::Modified, Some("h0"), Some("h1")),
        Record::Commit {
            timestamp: t(1, 0),
            from_head: "aaa".into(),
            to_head: "bbb".into(),
        },
        ev(2, 0, "a.rs", RawEventKind::Modified, Some("h1"), Some("h2")),
        Record::End(SessionEnd {
            ended_at: t(3, 0),
            events: 2,
        }),
    ];
    let cps = build_checkpoints("s", &records);
    assert_eq!(cps.len(), 2);
    assert!(cps[0].ended_at.before(&t(1, 0)));
    assert!(t(1, 0).before(&cps[1].started_at));
    assert_eq!(
        cps[0].boundary,
        Some(CommitBoundary {
            from_head: "aaa".into(),
            to_head: "bbb".into()
        })
    );
    assert_eq!(cps[1].boundary, None, "nothing was committed after it");
}

#[test]
fn every_checkpoint_before_a_commit_gets_its_boundary() {
    let records = vec![
        ev(0, 0, "a.rs", RawEventKind::Modified, Some("h0"), Some("h1")),
        ev(
            40,
            0,
            "a.rs",
            RawEventKind::Modified,
            Some("h1"),
            Some("h2"),
        ),
        Record::Commit {
            timestamp: t(41, 0),
            from_head: "aaa".into(),
            to_head: "bbb".into(),
        },
        ev(
            42,
            0,
            "a.rs",
            RawEventKind::Modified,
            Some("h2"),
            Some("h3"),
        ),
        Record::Commit {
            timestamp: t(43, 0),
            from_head: "bbb".into(),
            to_head: "ccc".into(),
        },
    ];
    let cps = build_checkpoints("s", &records);
    let to: Vec<Option<&str>> = cps
        .iter()
        .map(|c| c.boundary.as_ref().map(|b| b.to_head.as_str()))
        .collect();
    assert_eq!(to, vec![Some("bbb"), Some("bbb"), Some("ccc")]);
}

#[test]
fn bulk_flag_and_create_delete_cancel() {
    let mut records = Vec::new();
    for i in 0..(BULK_THRESHOLD + 1) {
        records.push(ev(
            0,
            i as i64,
            &format!("f{i}.rs"),
            RawEventKind::Modified,
            Some("a"),
            Some("b"),
        ));
    }
    records.push(ev(1, 0, "tmp", RawEventKind::Created, None, Some("t")));
    records.push(ev(2, 0, "tmp", RawEventKind::Deleted, Some("t"), None));
    let cps = build_checkpoints("s", &records);
    assert_eq!(cps.len(), 1);
    assert!(cps[0].bulk);
    assert_eq!(cps[0].changes.len(), BULK_THRESHOLD + 1);
    assert!(!cps[0].changes.iter().any(|c| c.path == "tmp"));

    let small = build_checkpoints("s", &records[..3]);
    assert!(!small[0].bulk);
}

#[test]
fn kinds_fold_sensibly() {
    let records = vec![
        ev(0, 0, "n.rs", RawEventKind::Created, None, Some("a")),
        ev(1, 0, "n.rs", RawEventKind::Modified, Some("a"), Some("b")),
        ev(2, 0, "m.rs", RawEventKind::Modified, Some("a"), Some("b")),
        ev(3, 0, "m.rs", RawEventKind::Deleted, Some("b"), None),
    ];
    let cps = build_checkpoints("s", &records);
    let n = cps[0]
        .changes
        .iter()
        .find(|c| c.path == "n.rs")
        .unwrap();
    assert_eq!(n.kind, ChangeKind::Created);
    assert_eq!(n.after_hash.as_deref(), Some("b"));
    let m = cps[0]
        .changes
        .iter()
        .find(|c| c.path == "m.rs")
        .unwrap();
    assert_eq!(m.kind, ChangeKind::Deleted);
}

#[test]
fn the_limits_of_debouncing_and_grouping() {
    assert_eq!(DEBOUNCE, 500_000_000);
    assert_eq!(WINDOW, 30_000_000_000);
    let edit = |secs: i64, millis: i64| {
        ev(
            secs,
            millis,
            "a.rs",
            RawEventKind::Modified,
            Some("x"),
            Some("y"),
        )
    };
    // Exactly on a limit still belongs together.
    assert_eq!(build_checkpoints("s", &[edit(0, 0), edit(30, 0)]).len(), 1);
    assert_eq!(build_checkpoints("s", &[edit(0, 0), edit(30, 1)]).len(), 2);
    assert!(build_checkpoints("s", &[]).is_empty());
}

#[test]
fn marks_of_kinds() {
    assert_eq!(ChangeKind::Created.mark(), "+");
    assert_eq!(ChangeKind::Modified.mark(), "~");
    assert_eq!(ChangeKind::Deleted.mark(), "-");
    assert_eq!(ChangeKind::from(RawEventKind::Renamed), ChangeKind::Renamed);
}

#[test]
fn a_file_deleted_and_created_again_was_modified() {
    let records = vec![
        ev(0, 0, "a.rs", RawEventKind::Deleted, Some("x"), None),
        ev(0, 100, "a.rs", RawEventKind::Created, None, Some("y")),
    ];
    let cps = build_checkpoints("s", &records);
    assert_eq!(cps[0].changes[0].kind, ChangeKind::Modified);
    assert_eq!(cps[0].changes[0].edits, 2);
}

#[test]
fn events_closer_than_half_a_second_are_one_edit() {
    let at = |millis: i64| match ev(
        0,
        millis,
        "a.rs",
        RawEventKind::Modified,
        Some("x"),
        Some("y"),
    ) {
        Record::Event(e) => e,
        _ => unreachable!(),
    };
    let (first, close, far) = (at(0), at(499), at(500));
    assert_eq!(debounce(&vec![&first, &close]).len(), 1);
    assert_eq!(debounce(&vec![&first, &close])[0].edits, 2);
    assert_eq!(debounce(&vec![&first, &far]).len(), 2);
    // Both end up in one checkpoint, as one change of two edits.
    let cps = build_checkpoints("s", &[Record::Event(first), Record::Event(far)]);
    assert_eq!(cps.len(), 1);
    assert_eq!(cps[0].changes[0].edits, 2);
}
