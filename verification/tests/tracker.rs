//! Deciding what became a change, and what a recording leads to.

use trail::map::PathMap;
use trail::recorder::session::{
    banner, batch_order, describe, is_over, recordable, Action, Observation, Recorder, Seen,
};
use trail::recorder::snapshot::{blob_to_read, ref_name, SnapshotStore};
use trail::recorder::store::{
    is_session_path, list_sessions, new_session_id, session_dir, session_path, RawEvent,
    RawEventKind, Record, SessionEnd, SessionFile,
};
use trail::recorder::{blob_id, build_header, Options, Tracker};
use trail::time::{Timestamp, Zone};
use trail::git::repository::{HeadState, Repo};
use trail::git::worktree::{WorktreeInfo, WorktreeKind};

fn now() -> Timestamp {
    Timestamp::new(1_700_000_000, 0)
}

fn tracker() -> Tracker {
    let mut baseline = PathMap::new();
    baseline.insert("src/a.rs".to_string(), "h1".to_string());
    Tracker::new(baseline)
}

#[test]
fn unchanged_content_is_not_an_event() {
    let mut t = tracker();
    assert!(t
        .observe("src/a.rs", Some("h1".into()), now())
        .is_none());
}

#[test]
fn modification_uses_index_as_before() {
    let mut t = tracker();
    let e = t
        .observe("src/a.rs", Some("h2".into()), now())
        .unwrap();
    assert_eq!(e.kind, RawEventKind::Modified);
    assert_eq!(e.before_hash.as_deref(), Some("h1"));
    assert_eq!(e.after_hash.as_deref(), Some("h2"));
    // Same content again: deduplicated.
    assert!(t
        .observe("src/a.rs", Some("h2".into()), now())
        .is_none());
    // Back to the index content: still a modification, not silence.
    let e = t
        .observe("src/a.rs", Some("h1".into()), now())
        .unwrap();
    assert_eq!(e.before_hash.as_deref(), Some("h2"));
}

#[test]
fn create_then_delete() {
    let mut t = tracker();
    let e = t
        .observe("new.txt", Some("x".into()), now())
        .unwrap();
    assert_eq!(e.kind, RawEventKind::Created);
    assert!(e.before_hash.is_none());
    let e = t.observe("new.txt", None, now()).unwrap();
    assert_eq!(e.kind, RawEventKind::Deleted);
    assert!(e.after_hash.is_none());
    // Notification for a path that never existed (e.g. temp file already gone).
    assert!(t
        .observe("ghost.tmp", None, now())
        .is_none());
}

#[test]
fn rename_is_detected_by_content() {
    let mut t = tracker();
    let events = t.observe_batch(
        vec![
            ("src/a.rs".to_string(), None),
            ("src/b.rs".to_string(), Some("h1".into())),
            ("other.txt".to_string(), Some("zz".into())),
        ],
        now(),
    );
    assert_eq!(events.len(), 2);
    let renamed = events
        .iter()
        .find(|e| e.kind == RawEventKind::Renamed)
        .unwrap();
    assert_eq!(renamed.path, "src/b.rs".to_string());
    assert_eq!(renamed.from_path.as_deref(), Some("src/a.rs"));
    assert_eq!(renamed.before_hash.as_deref(), Some("h1"));
    assert_eq!(renamed.after_hash.as_deref(), Some("h1"));
    assert!(events
        .iter()
        .any(|e| e.kind == RawEventKind::Created && e.path == "other.txt"));
}

#[test]
fn ambiguous_renames_stay_separate() {
    let mut baseline = PathMap::new();
    baseline.insert("a".to_string(), "same".to_string());
    baseline.insert("b".to_string(), "same".to_string());
    let mut t = Tracker::new(baseline);
    let events = t.observe_batch(
        vec![
            ("a".to_string(), None),
            ("b".to_string(), None),
            ("c".to_string(), Some("same".into())),
        ],
        now(),
    );
    assert_eq!(events.len(), 3);
    assert!(events.iter().all(|e| e.kind != RawEventKind::Renamed));
}

fn utc() -> Zone {
    Zone {
        offsets: Vec::new(),
    }
}

fn repo() -> Repo {
    Repo::new(
        WorktreeInfo {
            root: "/r".into(),
            git_dir: "/r/.git".into(),
            common_dir: "/r/.git".into(),
            kind: WorktreeKind::Main,
            id: None,
            sibling_count: 0,
        },
        HeadState::Branch {
            name: "feature".into(),
        },
        "a".repeat(40),
        false,
    )
}

#[test]
fn blob_ids_are_those_of_git() {
    assert_eq!(
        blob_id(b"hello\n").unwrap(),
        "ce013625030ba8dba906f756967f9e9ca394464a"
    );
    assert_eq!(
        blob_id(b"").unwrap(),
        "e69de29bb2d1d6434b8b29ae775ad8c2e48c5391"
    );
}

#[test]
fn only_object_ids_are_looked_up() {
    let id = "ce013625030ba8dba906f756967f9e9ca394464a";
    assert_eq!(blob_to_read(id).as_deref(), Some(id));
    assert_eq!(
        blob_to_read("CE013625030ba8dba906f756967f9e9ca394464a").as_deref(),
        Some(id)
    );
    assert_eq!(blob_to_read("h1"), None);
    assert_eq!(blob_to_read("zz013625030ba8dba906f756967f9e9ca394464a"), None);
}

#[test]
fn a_new_baseline_keeps_what_was_observed() {
    let mut t = tracker();
    t.observe("src/a.rs", Some("h2".into()), now());
    let mut baseline = PathMap::new();
    baseline.insert("src/a.rs".to_string(), "h9".to_string());
    t.reset_baseline(baseline);
    assert!(t.observe("src/a.rs", Some("h2".into()), now()).is_none());
}

#[test]
fn a_step_records_movements_events_and_snapshots() {
    let index = vec![("src/a.rs".to_string(), "h1".to_string())];
    let mut r = Recorder::new(index, "aaaaaaaaaa".to_string(), false, "s");
    let seen = Seen {
        head: Some("bbbbbbbbbb".to_string()),
        index: None,
        files: vec![Observation {
            path: "src/a.rs".to_string(),
            content: Some(b"hello\n".to_vec()),
            ignored: false,
            directory: false,
        }],
    };
    assert!(r.head_moved("bbbbbbbbbb"));
    let actions = r.step(&seen, now(), &utc());
    assert_eq!(actions.len(), 5);
    assert_eq!(
        actions[0],
        Action::Write(Record::Commit {
            timestamp: now(),
            from_head: "aaaaaaaaaa".into(),
            to_head: "bbbbbbbbbb".into()
        })
    );
    assert_eq!(
        actions[1],
        Action::Say("22:13:20  HEAD moved to bbbbbbb".to_string())
    );
    assert!(matches!(&actions[2], Action::Write(Record::Event(e)) if e.kind == RawEventKind::Modified));
    assert_eq!(actions[3], Action::Store(b"hello\n".to_vec()));
    assert!(matches!(
        &actions[2],
        Action::Write(Record::Event(e)) if e.after_hash == blob_id(b"hello\n")
    ));
    assert_eq!(
        actions[4],
        Action::Say("22:13:20  modified src/a.rs".to_string())
    );
    // The same batch again is silence.
    assert!(r.step(&seen, now(), &utc()).is_empty());
    let end = r.finish(now(), "/log");
    assert_eq!(end[0], Action::Protect(r.snapshots.clone()));
    assert_eq!(r.snapshots.blobs, vec![blob_id(b"hello\n").unwrap()]);
    assert_eq!(
        end[1],
        Action::Write(Record::End(SessionEnd {
            ended_at: now(),
            events: 1
        }))
    );
    assert_eq!(
        end[3],
        Action::Say("Recorded 1 change to /log".to_string())
    );
    assert_eq!(
        end[4],
        Action::Say("Snapshots: 1 blob kept under refs/trail/sessions/s".to_string())
    );
}

#[test]
fn a_quiet_recording_says_nothing() {
    let mut r = Recorder::new(Vec::new(), "a".to_string(), true, "s");
    let seen = Seen {
        head: Some("b".to_string()),
        index: Some(Vec::new()),
        files: vec![Observation {
            path: "n".to_string(),
            content: Some(b"x".to_vec()),
            ignored: false,
            directory: false,
        }],
    };
    let actions = r.step(&seen, now(), &utc());
    assert!(!actions.is_empty());
    assert!(actions.iter().all(|a| !matches!(a, Action::Say(_))));
    assert!(r
        .finish(now(), "/log")
        .iter()
        .all(|a| !matches!(a, Action::Say(_))));
}

#[test]
fn snapshots_are_protected_in_time() {
    let mut s = SnapshotStore::new("s");
    assert!(!s.protect());
    for i in 0..25 {
        assert!(!s.needs_protection());
        assert!(s.store(&format!("{i:040}"), 1));
    }
    assert!(s.needs_protection());
    assert!(s.protect());
    assert!(!s.needs_protection());
    assert_eq!(s.blob_count(), 25);
    assert_eq!(s.message(), "trail snapshots for session s (25 blobs)");
    assert!(!s.store("big", 8 * 1024 * 1024 + 1));
    assert!(s.store(&format!("{:040}", 3), 1));
    assert_eq!(s.blob_count(), 25);
    assert_eq!(ref_name("s"), "refs/trail/sessions/s");
}

#[test]
fn what_is_never_recorded() {
    let r = repo();
    assert_eq!(recordable(&r, "/r/src/a.rs").as_deref(), Some("src/a.rs"));
    assert_eq!(recordable(&r, "/r/.git/index"), None);
    assert_eq!(recordable(&r, "/r"), None);
    assert_eq!(recordable(&r, "/elsewhere/a"), None);
    assert_eq!(
        batch_order(&vec!["b".to_string(), "a/z".to_string(), "b".to_string()]),
        vec!["a/z", "b"]
    );
}

#[test]
fn when_a_recording_ends() {
    let opts = |stop_after: Option<u64>| Options {
        stop_after,
        quiet: false,
        base: None,
    };
    assert!(is_over(true, 0, &opts(None)));
    assert!(!is_over(false, 1_000_000, &opts(None)));
    assert!(!is_over(false, 1, &opts(Some(2))));
    assert!(is_over(false, 2, &opts(Some(2))));
}

#[test]
fn headers_name_where_they_were_recorded() {
    let h = build_header(&repo(), "id", Some("m".to_string()), now());
    assert_eq!(h.version, 1);
    assert_eq!(h.repository_root, "/r");
    assert_eq!(h.worktree_id, "main");
    assert_eq!(h.branch.as_deref(), Some("feature"));
    assert_eq!(h.base_commit.as_deref(), Some("m"));
    assert_eq!(h.start_head, Some("a".repeat(40)));
    let text = banner(&repo(), "id", "/log");
    assert!(text.contains("Recording development trail..."));
    assert!(text.contains("Session\n  id\n  /log\n"));
}

#[test]
fn events_are_described() {
    let e = RawEvent {
        timestamp: now(),
        path: "b".into(),
        kind: RawEventKind::Renamed,
        from_path: Some("a".into()),
        before_hash: None,
        after_hash: None,
    };
    let plus_one = Zone {
        offsets: vec![(0, 3600)],
    };
    assert_eq!(describe(&e, &utc()), "22:13:20  renamed a -> b");
    assert_eq!(describe(&e, &plus_one), "23:13:20  renamed a -> b");
}

#[test]
fn session_files_are_named_and_found() {
    assert_eq!(new_session_id(&now(), 0x1c02), "20231114-221320-c02");
    let dir = session_dir("/r/.git", "main");
    assert_eq!(dir, "/r/.git/trail/worktrees/main/sessions");
    let path = session_path(&dir, "id");
    assert_eq!(path, "/r/.git/trail/worktrees/main/sessions/session-id.jsonl");
    assert!(is_session_path(&path));
    assert!(!is_session_path("/r/notes.txt"));
}

#[test]
fn sessions_are_listed_oldest_first() {
    let header = |id: &str, at: i64| {
        let mut h = build_header(&repo(), id, None, Timestamp::new(at, 0));
        h.branch = None;
        Record::Session(h)
    };
    let move_head = Record::Commit {
        timestamp: Timestamp::new(30, 0),
        from_head: "a".into(),
        to_head: "b".into(),
    };
    let sessions = list_sessions(vec![
        ("late".to_string(), vec![header("l", 20), move_head.clone()]),
        ("torn".to_string(), vec![move_head]),
        ("early".to_string(), vec![header("e", 10)]),
    ]);
    let ids: Vec<&str> = sessions.iter().map(|s| s.path.as_str()).collect();
    assert_eq!(ids, vec!["early", "late"]);
    assert_eq!(sessions[1].commits, 1);
    assert_eq!(sessions[1].last_activity(), Timestamp::new(30, 0));
    assert_eq!(sessions[0].last_activity(), Timestamp::new(10, 0));
    assert!(SessionFile::load("x", Vec::new()).is_none());
}

#[test]
fn ignored_files_and_directories_are_skipped() {
    let mut r = Recorder::new(Vec::new(), "a".to_string(), true, "s");
    let file = |path: &str, ignored: bool, directory: bool| Observation {
        path: path.to_string(),
        content: Some(b"x".to_vec()),
        ignored,
        directory,
    };
    let seen = Seen {
        head: None,
        index: None,
        files: vec![
            file("target/out.txt", true, false),
            file("src", false, true),
            file("a.rs", false, false),
        ],
    };
    let actions = r.step(&seen, now(), &utc());
    let paths: Vec<String> = actions
        .iter()
        .filter_map(|a| match a {
            Action::Write(Record::Event(e)) => Some(e.path.clone()),
            _ => None,
        })
        .collect();
    assert_eq!(paths, vec!["a.rs"]);
}

#[test]
fn a_protection_lists_what_was_stored_by_then() {
    let mut r = Recorder::new(Vec::new(), "a".to_string(), true, "s");
    let seen = |head: &str, path: &str, data: &[u8]| Seen {
        head: Some(head.to_string()),
        index: None,
        files: vec![Observation {
            path: path.to_string(),
            content: Some(data.to_vec()),
            ignored: false,
            directory: false,
        }],
    };
    r.step(&seen("a", "one", b"1"), now(), &utc());
    let actions = r.step(&seen("b", "two", b"2"), now(), &utc());
    let ledgers: Vec<&SnapshotStore> = actions
        .iter()
        .filter_map(|a| match a {
            Action::Protect(ledger) => Some(ledger),
            _ => None,
        })
        .collect();
    assert_eq!(ledgers.len(), 1);
    assert_eq!(ledgers[0].blobs, vec![blob_id(b"1").unwrap()]);
    assert_eq!(
        ledgers[0].message(),
        "trail snapshots for session s (1 blobs)"
    );
    assert_eq!(r.snapshots.blob_count(), 2);
}
