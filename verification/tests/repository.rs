//! A repository with a base commit, a feature branch with one commit, and a
//! working tree that has a change of every kind.

use trail::display::terminal::{
    render_changes, render_diff, render_history, render_inspect, render_sessions, render_status,
    render_trail, render_worktrees, Style,
};
use trail::edit::open::{no_snapshot, open_at, open_file, restored_file, scratch_path, OpenStep};
use trail::edit::Document;
use trail::error::TrailError;
use trail::git::baseline::{anchor, last_push, Anchor, Baseline, BaselineKind, SinceSpec};
use trail::git::diff::{
    parse_numstat, parse_status_v2, untracked_stats, ChangeKind, FileStat, StatusEntry,
};
use trail::git::history::{
    commits_between, file_commits, CommitFile, CommitInfo, ReflogLine, TreeChange, WalkedCommit,
};
use trail::git::repository::{
    base_lookups, discover_failure, first_found, found_base, repo_name, BaseRef, HeadState, Repo,
};
use trail::git::worktree::{WorktreeInfo, WorktreeKind};
use trail::map::TextMap;
use trail::recorder::metadata::{CheckpointMeta, Metadata, Move};
use trail::recorder::store::{
    RawEvent, RawEventKind, Record, SessionFile, SessionHeader, FORMAT_VERSION,
};
use trail::time::{Timestamp, Zone};
use trail::trail::builder::{
    build_changes, build_diff, build_inspect, build_sessions, build_status, build_trail, context,
    Scope, TrailFacts,
};
use trail::trail::event::{Attachment, Confidence, EventSource, TrailEvent, TrailEventType};
use trail::trail::reports::{inspect_path, FileFacts, FoundSession};
use trail::trail::worktrees::{
    build_worktrees, last_head, recorded_in, recorded_worktrees, removed_head, removed_worktrees,
    resolve_worktree, ExistingWorktree, RemovedTip, WorktreeChoice, WorktreeState,
};
use trail::trail::{RepositoryContext, Trail};

const START: i64 = 1_700_000_000;

fn at(secs: i64) -> Timestamp {
    Timestamp::new(START + secs, 0)
}

fn plain() -> Style {
    Style { enabled: false }
}

fn utc() -> Zone {
    Zone {
        offsets: Vec::new(),
    }
}

fn repo() -> Repo {
    Repo::new(
        WorktreeInfo {
            root: "/home/me/my-project".into(),
            git_dir: "/home/me/my-project/.git".into(),
            common_dir: "/home/me/my-project/.git".into(),
            kind: WorktreeKind::Main,
            id: None,
            sibling_count: 0,
        },
        HeadState::Branch {
            name: "feature".into(),
        },
        "f".repeat(40),
        false,
    )
}

fn base() -> BaseRef {
    repo()
        .resolve_base(
            None,
            Some(("main".into(), "b".repeat(40))),
            Some("b".repeat(40)),
        )
        .unwrap()
}

fn baseline() -> Baseline {
    let since = SinceSpec::parse(None);
    let anchor = anchor(&since, &base(), None, None, None).unwrap();
    repo()
        .resolve_baseline(
            &since,
            anchor,
            Some(("b".repeat(40), "bbbbbbb".into())),
            "bbbbbbb".into(),
        )
        .unwrap()
}

fn repository() -> RepositoryContext {
    context(&repo(), &base(), &baseline(), "bbbbbbb")
}

fn status() -> Vec<StatusEntry> {
    parse_status_v2(
        b"1 M. N... 100644 100644 100644 a b README.md\0\
          1 D. N... 100644 000000 000000 a 0 src/gone.rs\0\
          1 .M N... 100644 100644 100644 a a src/lib.rs\0\
          1 A. N... 000000 100644 100644 0 b src/new.rs\0\
          2 R. N... 100644 100644 100644 a a R100 src/renamed.rs\0src/old.rs\0\
          ? notes.txt\0",
    )
}

fn untracked() -> Vec<FileStat> {
    let mut contents = TextMap::new();
    contents.insert("notes.txt".to_string(), b"untracked\n".to_vec());
    untracked_stats(&status(), &contents)
}

fn head_stats() -> Vec<FileStat> {
    let mut stats = parse_numstat(
        b"1\t0\tREADME.md\x000\t1\tsrc/gone.rs\x001\t0\tsrc/lib.rs\x001\t0\tsrc/new.rs\x000\t0\t\x00src/old.rs\x00src/renamed.rs\x00",
    );
    stats.extend(untracked());
    stats
}

fn base_stats() -> Vec<FileStat> {
    let mut stats = parse_numstat(
        b"1\t0\tREADME.md\x001\t0\tsrc/feature.rs\x000\t1\tsrc/gone.rs\x001\t0\tsrc/lib.rs\x001\t0\tsrc/new.rs\x000\t0\t\x00src/old.rs\x00src/renamed.rs\x00",
    );
    stats.extend(untracked());
    stats
}

fn commits() -> Vec<CommitInfo> {
    commits_between(&vec![WalkedCommit {
        id: "f".repeat(40),
        short_id: Some("fffffff".into()),
        subject: Some("add feature module".into()),
        message: b"add feature module\n".to_vec(),
        author: Some("Test".into()),
        secs: START + 100,
        author_secs: START + 100,
        parents: vec!["b".repeat(40)],
        changes: vec![
            TreeChange {
                file: CommitFile {
                    path: "src".into(),
                    old_path: None,
                    kind: ChangeKind::Modified,
                    before_id: None,
                    after_id: None,
                },
                is_tree: true,
            },
            TreeChange {
                file: CommitFile {
                    path: "src/feature.rs".into(),
                    old_path: None,
                    kind: ChangeKind::Added,
                    before_id: None,
                    after_id: Some("e".repeat(40)),
                },
                is_tree: false,
            },
        ],
    }])
}

fn facts() -> TrailFacts {
    let mut modified = TextMap::new();
    for path in ["README.md", "src/lib.rs", "src/new.rs", "notes.txt"] {
        modified.insert(path.to_string(), at(200));
    }
    TrailFacts {
        short_merge_base: "bbbbbbb".into(),
        entries: status(),
        commits: commits(),
        head_stats: head_stats(),
        base_stats: base_stats(),
        modified,
        sessions: Vec::new(),
        metadata: Metadata::default(),
        identities: TextMap::new(),
        reflog: vec![
            ReflogLine {
                secs: START + 100,
                previous_id: "b".repeat(40),
                new_id: "f".repeat(40),
                message: "commit: add feature module".into(),
            },
            ReflogLine {
                secs: START + 50,
                previous_id: "b".repeat(40),
                new_id: "b".repeat(40),
                message: "checkout: moving from main to feature".into(),
            },
            ReflogLine {
                secs: START - 50,
                previous_id: "a".repeat(40),
                new_id: "b".repeat(40),
                message: "reset: too early".into(),
            },
        ],
        since: at(0),
    }
}

fn trail_of(facts: &TrailFacts, scope: Scope) -> Trail {
    build_trail(&repo(), &base(), &baseline(), scope, facts)
}

#[test]
fn a_trail_shows_commits_and_the_working_tree() {
    let out = render_trail(&trail_of(&facts(), Scope::Overview), &plain(), &utc());
    assert!(out.contains("Development Trail"));
    assert!(out.contains("Worktree\n  feature"));
    assert!(out.contains("Base\n  main"));
    assert!(out.contains("add feature module"));
    assert!(out.contains("Modified src/lib.rs"));
    assert!(out.contains("Added src/new.rs"));
    assert!(out.contains("Added notes.txt"));
    assert!(out.contains("Deleted src/gone.rs"));
    assert!(out.contains("Renamed src/old.rs -> src/renamed.rs"));
    assert!(out.contains("7 changes\n7 files changed\n+5 -1\n"));
    assert!(out.contains("2023-11-14\n22:15  Committed fffffff add feature module (1 file)\n"));
}

#[test]
fn status_distinguishes_every_kind() {
    let report = build_status(repository(), status(), &head_stats(), 1);
    let out = render_status(&report);
    assert!(out.contains("Branch: feature"));
    assert!(out.contains("Base: main"));
    assert!(out.contains("Modified: 2"));
    assert!(out.contains("Added: 1"));
    assert!(out.contains("Deleted: 1"));
    assert!(out.contains("Renamed: 1"));
    assert!(out.contains("Untracked: 1"));
    assert!(out.contains("Staged: 4"));
    assert!(out.contains("Unstaged: 1"));

    let find = |p: &str| report.entries.iter().find(|e| e.path == p).unwrap().clone();
    assert_eq!(find("src/lib.rs").unstaged, Some(ChangeKind::Modified));
    assert!(find("src/lib.rs").staged.is_none());
    assert_eq!(find("README.md").staged, Some(ChangeKind::Modified));
    assert!(find("README.md").unstaged.is_none());
    assert_eq!(find("src/new.rs").staged, Some(ChangeKind::Added));
    assert_eq!(find("src/gone.rs").staged, Some(ChangeKind::Deleted));
    assert_eq!(find("src/renamed.rs").staged, Some(ChangeKind::Renamed));
    assert_eq!(find("src/renamed.rs").orig_path.as_deref(), Some("src/old.rs"));
    assert_eq!(find("notes.txt").untracked, true);
    assert_eq!(report.counts.staged, 4);
    assert_eq!(report.counts.unstaged, 1);
    assert_eq!(report.stats.additions, 4); // lib +1, README +1, new +1, notes +1
    assert_eq!(report.stats.deletions, 1); // gone -1
}

#[test]
fn modified_added_deleted_renamed_appear_as_events() {
    let trail = trail_of(&facts(), Scope::Overview);
    let of = |ty: TrailEventType, path: &str| -> TrailEvent {
        trail
            .events
            .iter()
            .find(|e| e.event_type == ty && e.files[0] == path)
            .unwrap_or_else(|| panic!("missing {ty:?} {path}"))
            .clone()
    };
    assert_eq!(of(TrailEventType::FileModified, "src/lib.rs").staged, Some(false));
    assert_eq!(of(TrailEventType::FileModified, "README.md").staged, Some(true));
    assert_eq!(
        of(TrailEventType::FileAdded, "src/new.rs").confidence,
        Confidence::Inferred
    );
    assert!(of(TrailEventType::FileDeleted, "src/gone.rs").timestamp.is_none());
    of(
        TrailEventType::FileRenamed {
            from: "src/old.rs".into(),
        },
        "src/renamed.rs",
    );
    assert!(of(TrailEventType::FileAdded, "notes.txt").staged.is_none());
    let commit = trail
        .events
        .iter()
        .find(|e| matches!(e.event_type, TrailEventType::Commit { .. }))
        .unwrap();
    assert_eq!(commit.confidence, Confidence::Exact);
    assert_eq!(commit.source, EventSource::GitCommit);
    assert!(matches!(
        &commit.event_type,
        TrailEventType::Commit { summary, .. } if summary == "add feature module"
    ));
    assert_eq!(commit.files[0], "src/feature.rs");
    assert_eq!(trail.summary.changes, 7);
}

#[test]
fn diff_groups_by_directory_and_counts_lines() {
    let report = build_diff(repository(), &base_stats());
    let out = render_diff(&report, &plain());
    assert!(out.contains("src\n────"));
    assert!(out.contains(".\n────"));
    assert!(out.contains("src/feature.rs\n  +1"));
    assert!(out.contains("notes.txt\n  +1"));
    assert!(out.contains("src/old.rs -> src/renamed.rs"));
    assert_eq!(report.files_changed, 7);
    assert_eq!(report.stats.additions, 5);
    assert_eq!(report.stats.deletions, 1);
}

fn file_facts(log: &str, exists: bool) -> FileFacts {
    FileFacts {
        entries: status(),
        exists,
        commits: file_commits(log.as_bytes()),
        untracked_stats: untracked(),
        head_stats: head_stats(),
        base_stats: base_stats(),
        on_branch: vec!["f".repeat(40)],
        modified: Some(at(200)),
    }
}

fn inspect(cwd: &str, file: &str, log: &str, exists: bool) -> Result<String, TrailError> {
    let rel = inspect_path(&repo(), cwd, file);
    build_inspect(repository(), rel, &file_facts(log, exists))
        .map(|report| render_inspect(&report, &plain(), &utc()))
}

#[test]
fn inspect_reports_status_diff_and_commits() {
    let root = "/home/me/my-project";
    let lib_log = format!(
        "{}\x1fbbbbbbb\x1f{}\x1fadd b\n{}\x1faaaaaaa\x1f{}\x1finitial commit\n",
        "b".repeat(40),
        START,
        "a".repeat(40),
        START - 60
    );
    let out = inspect(root, "src/lib.rs", &lib_log, true).unwrap();
    assert!(out.contains("src/lib.rs"));
    assert!(out.contains("Modified (unstaged)"));
    assert!(out.contains("+1  vs HEAD"));
    assert!(out.contains("+1  vs main"));
    assert!(out.contains("add b"));
    assert!(out.contains("initial commit"));

    let feature_log = format!(
        "{}\x1ffffffff\x1f{}\x1fadd feature module\n",
        "f".repeat(40),
        START + 100
    );
    let out = inspect(root, "src/feature.rs", &feature_log, true).unwrap();
    assert!(out.contains("* ") && out.contains("add feature module"));
    assert!(out.contains("no uncommitted changes"));

    let out = inspect(root, "notes.txt", "", true).unwrap();
    assert!(out.contains("Untracked"));

    // Relative path from a subdirectory.
    let out = inspect("/home/me/my-project/src", "lib.rs", &lib_log, true).unwrap();
    assert!(out.contains("Modified (unstaged)"));

    let out = inspect(root, "does/not/exist.rs", "", false);
    assert!(out.is_err());
    assert!(out.unwrap_err().to_string().contains("not tracked"));
}

#[test]
fn history_includes_reflog_and_tags() {
    let mut trail = trail_of(&facts(), Scope::Detailed);
    let out = render_history(&trail, &plain(), &utc());
    assert!(out.contains("Development Trail (detailed)"));
    assert!(out.contains("HEAD checkout: moving from main to feature"));
    assert!(out.contains("[+1, unstaged, time from mtime]"));
    assert!(out.contains("[+1, untracked, time from mtime]"));
    assert!(out.contains("         src/feature.rs"));
    let reflog = trail
        .events
        .iter()
        .find(|e| matches!(e.event_type, TrailEventType::RefUpdate { .. }))
        .expect("reflog event");
    assert_eq!(reflog.source, EventSource::GitReflog);
    assert!(matches!(
        &reflog.event_type,
        TrailEventType::RefUpdate { action, .. } if action == "checkout"
    ));
    assert!(!out.contains("too early"));

    trail.truncate_to_latest(2);
    assert_eq!(trail.events.len(), 2);
}

fn header(session: &str, worktree: &str, branch: &str, started: i64) -> Record {
    Record::Session(SessionHeader {
        version: FORMAT_VERSION,
        session_id: session.into(),
        repository_root: "/home/me/my-project".into(),
        worktree_id: worktree.into(),
        worktree_path: format!("/home/me/{worktree}"),
        branch: Some(branch.into()),
        base_commit: None,
        start_head: Some("b".repeat(40)),
        started_at: at(started),
    })
}

fn edit(secs: i64, path: &str, before: Option<&str>, after: Option<&str>) -> Record {
    Record::Event(RawEvent {
        timestamp: at(secs),
        path: path.into(),
        kind: if before.is_none() {
            RawEventKind::Created
        } else if after.is_none() {
            RawEventKind::Deleted
        } else {
            RawEventKind::Modified
        },
        from_path: None,
        before_hash: before.map(String::from),
        after_hash: after.map(String::from),
    })
}

/// Work on `src/lib.rs`, then on `src/feature.rs`, which is committed, then on
/// `src/lib.rs` again.
fn session() -> SessionFile {
    SessionFile::load(
        "/s.jsonl",
        vec![
            header("s", "main", "feature", 10),
            edit(20, "src/lib.rs", Some("l0"), Some("l1")),
            edit(90, "src/feature.rs", None, Some("f1")),
            Record::Commit {
                timestamp: at(101),
                from_head: "b".repeat(40),
                to_head: "f".repeat(40),
            },
            edit(120, "src/lib.rs", Some("l1"), Some("l2")),
        ],
    )
    .unwrap()
}

fn recorded() -> TrailFacts {
    let mut f = facts();
    f.sessions.push(session());
    f
}

fn checkpoints(trail: &Trail) -> Vec<(String, Option<String>, Option<Attachment>)> {
    trail
        .events
        .iter()
        .filter_map(|e| match &e.event_type {
            TrailEventType::Checkpoint {
                id,
                commit,
                attachment,
                ..
            } => Some((id.clone(), commit.clone(), *attachment)),
            _ => None,
        })
        .collect()
}

#[test]
fn checkpoints_replace_guesses_and_belong_to_commits() {
    let trail = trail_of(&recorded(), Scope::Overview);
    let commit = Some("f".repeat(40));
    assert_eq!(
        checkpoints(&trail),
        vec![
            ("s.1".into(), commit.clone(), Some(Attachment::Recorded)),
            ("s.2".into(), commit, Some(Attachment::Recorded)),
            ("s.3".into(), None, None),
        ]
    );
    assert!(!trail
        .events
        .iter()
        .any(|e| e.event_type == TrailEventType::FileModified && e.files[0] == "src/lib.rs"));
    assert_eq!(trail.summary.checkpoints, 3);
    assert_eq!(trail.summary.uncommitted_checkpoints, 1);
    // Chronological, with what has no time at the end.
    let times: Vec<Option<Timestamp>> = trail.events.iter().map(|e| e.timestamp).collect();
    for w in times.windows(2) {
        match (w[0], w[1]) {
            (Some(a), Some(b)) => assert!(!b.before(&a)),
            (None, Some(_)) => panic!("undated before dated"),
            _ => {}
        }
    }
}

#[test]
fn sessions_of_other_branches_do_not_count() {
    let mut f = facts();
    let mut other = session();
    other.header.branch = Some("main".into());
    f.sessions.push(other);
    assert!(checkpoints(&trail_of(&f, Scope::Overview)).is_empty());
}

#[test]
fn a_chosen_order_permutes_the_listed_checkpoints() {
    let mut f = recorded();
    f.metadata.order = vec!["s.3".into(), "s.1".into()];
    let ids: Vec<String> = checkpoints(&trail_of(&f, Scope::Overview))
        .into_iter()
        .map(|c| c.0)
        .collect();
    assert_eq!(ids, vec!["s.3", "s.2", "s.1"]);
}

#[test]
fn hidden_checkpoints_leave_the_text_but_not_the_trail() {
    let mut f = recorded();
    f.metadata.checkpoints.insert(
        "s.2".into(),
        CheckpointMeta {
            title: None,
            hidden: true,
            annotation: None,
        },
    );
    let trail = trail_of(&f, Scope::Overview);
    assert_eq!(checkpoints(&trail).len(), 3);
    assert_eq!(trail.summary.checkpoints, 2);
    let out = render_history(&trail, &plain(), &utc());
    assert!(out.contains("s.1") && !out.contains("s.2"));
}

#[test]
fn an_unedited_buffer_reads_back_as_the_document() {
    let trail = trail_of(&recorded(), Scope::Overview);
    let document = Document::from_trail(&trail);
    let text = document.render(&trail);
    assert!(text.starts_with("# trail://feature\n"));
    assert!(text.contains("# commit fffffff  add feature module\n"));
    assert_eq!(trail::edit::parse(&text).unwrap(), document.blocks);
}

#[test]
fn a_file_is_restored_as_it_was() {
    let trail = trail_of(&recorded(), Scope::Overview);
    assert_eq!(open_at(&trail, "src/lib.rs", "s.1").unwrap(), "l1");
    assert_eq!(open_at(&trail, "src/lib.rs", "s.2").unwrap(), "l1");
    assert_eq!(open_at(&trail, "src/lib.rs", "s.3").unwrap(), "l2");
    assert_eq!(
        open_at(&trail, "src/lib.rs", "x.1").unwrap_err().to_string(),
        "snapshot unavailable: unknown checkpoint x.1 on this branch (see `trail history`)"
    );
    assert!(open_at(&trail, "src/feature.rs", "s.1")
        .unwrap_err()
        .to_string()
        .contains("was not recorded in or before checkpoint s.1"));
    assert!(no_snapshot("a", "s.1").to_string().contains("larger than 8 MiB"));
    assert_eq!(restored_file("a/b.1", 7, "src/lib.rs"), "trail-a_b.1-7-lib.rs");
    assert_eq!(scratch_path("feature/x y", 7), "trail-edit-feature_x_y-7.trail");
}

#[test]
fn a_deleted_file_cannot_be_restored() {
    let mut f = facts();
    let mut s = session();
    s.records.push(edit(125, "src/lib.rs", Some("l2"), None));
    f.sessions.push(s);
    let trail = trail_of(&f, Scope::Overview);
    assert!(open_at(&trail, "src/lib.rs", "s.3")
        .unwrap_err()
        .to_string()
        .contains("had been deleted by checkpoint s.3"));
}

#[test]
fn only_files_that_are_there_can_be_opened() {
    assert_eq!(open_file("a", true, false), Ok(OpenStep::Edit));
    assert_eq!(open_file("a", true, true), Ok(OpenStep::Print));
    assert_eq!(
        open_file("a", false, true),
        Err(TrailError::FileNotFound("a".into()))
    );
}

#[test]
fn sessions_and_changes_are_reported() {
    let report = build_sessions(
        "my-project",
        &vec![FoundSession {
            file: session(),
            worktree_exists: false,
            snapshots: true,
        }],
    );
    assert_eq!(report.sessions[0].checkpoints, 3);
    assert_eq!(report.sessions[0].last_activity, at(120));
    let out = render_sessions(&report, &plain(), &utc());
    assert!(out.contains("Development Sessions"));
    assert!(out.contains("feature  (worktree removed)"));
    assert!(out.contains("3 checkpoints"));

    let report = build_changes(repository(), commits(), &status(), &base_stats(), 3);
    let out = render_changes(&report, &plain());
    assert!(out.contains("Changes since base main (bbbbbbb)"));
    assert!(out.contains("Commits\n  fffffff add feature module\n"));
    assert!(out.contains("  ~ src/lib.rs\n      +1  unstaged\n"));
    assert!(out.contains("  + src/feature.rs\n      +1  committed\n"));
    assert!(out.contains("  + notes.txt\n      +1  untracked\n"));
    assert!(out.contains("1 commit, 3 checkpoints\n7 files changed, +5 -1"));
}

fn existing(id: &str, branch: &str) -> ExistingWorktree {
    ExistingWorktree {
        id: id.into(),
        path: format!("/home/me/{id}"),
        kind: if id == "main" {
            WorktreeKind::Main
        } else {
            WorktreeKind::Linked
        },
        on_disk: true,
        state: Some(WorktreeState {
            branch: Some(branch.into()),
            head: "f".repeat(40),
            commits: Some(0),
        }),
    }
}

#[test]
fn worktrees_are_listed_existing_ones_first() {
    let mut gone = session();
    gone.header.worktree_id = "agent-wt".into();
    gone.header.branch = Some("agent/payments".into());
    let sessions = vec![session(), gone];
    let here = vec![existing("main", "main")];
    assert_eq!(recorded_worktrees(&sessions), vec!["agent-wt", "main"]);
    assert_eq!(removed_worktrees(&sessions, &here), vec!["agent-wt"]);
    assert_eq!(last_head(&sessions[1]), Some("f".repeat(40)));
    assert_eq!(recorded_in(&sessions, "agent-wt").unwrap().checkpoints, 3);
    assert!(recorded_in(&sessions, "nowhere").is_none());
    let report = build_worktrees(
        "my-project",
        "main",
        &here,
        &sessions,
        &vec![Some(RemovedTip {
            head: "f".repeat(40),
            commits: Some(4),
        })],
    );
    assert_eq!(report.worktrees.len(), 2);
    assert!(report.worktrees[0].current && report.worktrees[0].exists);
    assert!(!report.worktrees[1].exists);
    let out = render_worktrees(&report, &plain());
    assert!(out.contains("main  (current)\n"));
    assert!(out.contains("agent-wt  (removed)\n"));
    assert!(out.contains("  branch: agent/payments\n  4 commits\n  3 checkpoints\n"));
}

#[test]
fn a_worktree_is_selected_by_id_or_branch() {
    let mut gone = session();
    gone.header.worktree_id = "agent-wt".into();
    gone.header.branch = Some("topic".into());
    let sessions = vec![gone];
    let here = vec![existing("main", "feature"), existing("other", "main")];
    let pick = |selector: &str| resolve_worktree("main", &here, &sessions, selector);
    assert_eq!(pick(" feature "), Ok(WorktreeChoice::Current));
    assert_eq!(
        pick("other"),
        Ok(WorktreeChoice::Existing("/home/me/other".into()))
    );
    // An id always works, even where it is also the name of a branch.
    assert_eq!(pick("main"), Ok(WorktreeChoice::Current));
    assert_eq!(
        pick("topic"),
        Ok(WorktreeChoice::Removed("agent-wt".into()))
    );
    assert!(pick("nope")
        .unwrap_err()
        .to_string()
        .contains("no worktree with id or branch 'nope'"));
    let twice = vec![existing("a", "topic"), existing("b", "topic")];
    assert!(resolve_worktree("main", &twice, &Vec::new(), "topic")
        .unwrap_err()
        .to_string()
        .contains("'topic' matches several worktrees: a, b"));
    let mut lost = existing("lost", "x");
    lost.on_disk = false;
    assert!(resolve_worktree("main", &vec![lost], &Vec::new(), "lost")
        .unwrap_err()
        .to_string()
        .contains("is missing from disk and has no recorded history"));
}

#[test]
fn the_tip_of_a_removed_worktree() {
    let tip = |rec: Option<&str>, branch: Option<&str>, part: bool| {
        removed_head("w", rec.map(String::from), branch.map(String::from), part)
    };
    assert_eq!(tip(Some("r"), Some("b"), true), Ok("b".into()));
    assert_eq!(tip(Some("r"), Some("b"), false), Ok("r".into()));
    assert_eq!(tip(None, Some("b"), false), Ok("b".into()));
    assert!(tip(None, None, false).is_err());
}

#[test]
fn base_branches_are_looked_up_in_order() {
    let refs: Vec<String> = base_lookups(None).into_iter().map(|r| r.0).collect();
    assert_eq!(refs[0], "refs/heads/main");
    assert_eq!(refs[4], "refs/heads/master");
    assert_eq!(
        base_lookups(Some("dev"))[2],
        ("refs/remotes/origin/dev".to_string(), "origin/dev".to_string())
    );
    let r = repo();
    assert_eq!(
        r.resolve_base(Some("nope"), None, None).unwrap_err().to_string(),
        "base branch 'nope' was not found\n  hint: pass --base <branch> (a local branch or origin/<branch>)"
    );
    assert_eq!(
        r.resolve_base(None, None, None),
        Err(TrailError::NoBaseBranch)
    );
    let cut = Repo {
        is_shallow: true,
        ..repo()
    };
    assert!(cut
        .resolve_base(None, Some(("main".into(), "b".into())), None)
        .unwrap_err()
        .to_string()
        .contains("shallow clone"));
    assert!(r
        .resolve_base(Some("dev"), Some(("dev".into(), "d".into())), Some("m".into()))
        .unwrap()
        .explicit);
}

#[test]
fn baselines_are_chosen_in_order() {
    let pushed = || Some(("origin/feature".to_string(), "p".to_string()));
    let upstream = || Some(("origin/feature".to_string(), "u".to_string()));
    let auto = SinceSpec::parse(Some("auto"));
    let pick = |since: &SinceSpec, p, u, r| anchor(since, &base(), p, u, r);
    let label = |a: Result<Anchor, TrailError>| a.unwrap().label;
    assert_eq!(
        label(pick(&auto, pushed(), upstream(), None)),
        "last push to origin/feature"
    );
    assert_eq!(
        label(pick(&auto, None, upstream(), None)),
        "upstream origin/feature"
    );
    assert_eq!(label(pick(&auto, None, None, None)), "base main");
    let rev = SinceSpec::parse(Some(" v1.0 "));
    assert_eq!(rev, SinceSpec::Rev("v1.0".into()));
    assert_eq!(
        label(pick(&rev, None, None, Some(("c".into(), "ccccccc".into())))),
        "commit ccccccc"
    );
    assert!(pick(&rev, None, None, None)
        .unwrap_err()
        .to_string()
        .contains("'v1.0' is not a known revision"));
    assert!(pick(&SinceSpec::Push, None, upstream(), None)
        .unwrap_err()
        .to_string()
        .contains("no push of this branch is recorded in the reflog"));
    assert!(pick(&SinceSpec::Upstream, pushed(), None, None)
        .unwrap_err()
        .to_string()
        .contains("this branch has no upstream"));
    let lost = repo().resolve_baseline(
        &rev,
        Anchor {
            kind: BaselineKind::Commit,
            label: "commit ccccccc".into(),
            commit: "c".into(),
        },
        None,
        "ccccccc".into(),
    );
    assert!(lost
        .unwrap_err()
        .to_string()
        .contains("commit ccccccc (ccccccc) shares no history with HEAD"));
    assert_eq!(
        last_push(&vec![
            (b"fetch".to_vec(), "1".to_string()),
            (b"update by push".to_vec(), "2".to_string()),
            (b"update by push".to_vec(), "3".to_string()),
        ]),
        Some("2".to_string())
    );
    assert_eq!(last_push(&Vec::new()), None);
}

#[test]
fn heads_are_read() {
    let read = |unborn, id: Option<&str>, detached, branch: Option<&str>| {
        HeadState::read(
            unborn,
            id.map(String::from),
            detached,
            "abc1234".into(),
            branch.map(String::from),
        )
    };
    let (head, id) = read(false, Some("id"), false, Some("feature")).unwrap();
    assert_eq!((head.label().as_str(), id.as_str()), ("feature", "id"));
    assert_eq!(head.branch_name(), Some("feature"));
    let (head, _) = read(false, Some("id"), true, None).unwrap();
    assert_eq!(head.label(), "(detached HEAD at abc1234)");
    assert_eq!(head.branch_name(), None);
    assert_eq!(
        read(true, Some("id"), false, None),
        Err(TrailError::EmptyRepository)
    );
    assert_eq!(read(false, None, false, None), Err(TrailError::EmptyRepository));
}

#[test]
fn repositories_are_named_after_their_directory() {
    assert_eq!(repo_name("/home/me/my-project/.git"), "my-project");
    assert_eq!(repo_name("/srv/my-project.git"), "my-project");
    assert!(discover_failure("/x", "Io(PermissionDenied)")
        .to_string()
        .contains("permission denied"));
    assert!(discover_failure("/x", "NoGitRepository")
        .to_string()
        .contains("not inside a Git repository"));
}

#[test]
fn worktree_facts() {
    let ids = || Ok(vec!["a".to_string(), "b".to_string()]);
    let w = WorktreeInfo::from_repo(
        Some("/r".into()),
        "/r/.git".into(),
        "/r/x/../.git",
        Some(true),
        None,
        ids(),
    )
    .unwrap();
    assert_eq!((w.common_dir.as_str(), w.sibling_count), ("/r/.git", 2));
    let w = WorktreeInfo::from_repo(
        Some("/a".into()),
        "/r/.git/worktrees/a".into(),
        "/r/.git",
        Some(false),
        Some("a".into()),
        ids(),
    )
    .unwrap();
    assert_eq!((w.kind, w.sibling_count), (WorktreeKind::Linked, 2));
    let fail = |root: Option<&str>, main, ids| {
        WorktreeInfo::from_repo(root.map(String::from), "/g".into(), "/g", main, None, ids)
            .unwrap_err()
            .to_string()
    };
    assert!(fail(None, Some(true), ids()).contains("bare repository"));
    assert!(fail(Some("/r"), None, ids()).contains("gix reported no worktree"));
    assert!(fail(Some("/r"), Some(true), Err("io".to_string())).contains("cannot list worktrees: io"));
}

#[test]
fn a_removed_worktree_is_rebuilt() {
    let gone = repo().for_removed_worktree("agent-wt", "/gone", Some("topic"), "c".into(), "ccc".into());
    assert!(!gone.live);
    assert_eq!(gone.worktree_id(), "agent-wt");
    assert_eq!(gone.workdir(), "/gone");
    assert_eq!(gone.head.label(), "topic");
    let detached = repo().for_removed_worktree("w", "/gone", None, "c".into(), "ccc".into());
    assert_eq!(detached.head.label(), "(detached HEAD at ccc)");
}

#[test]
fn commits_come_oldest_first_with_what_could_be_read() {
    let walked = |id: &str, subject: Option<&str>| WalkedCommit {
        id: id.repeat(40),
        short_id: None,
        subject: subject.map(String::from),
        message: b"first line\nsecond\n".to_vec(),
        author: None,
        secs: i64::MAX,
        author_secs: START,
        parents: Vec::new(),
        changes: Vec::new(),
    };
    let commits = commits_between(&vec![walked("b", None), walked("a", Some("s"))]);
    assert_eq!(commits[0].summary, "s");
    assert_eq!(commits[1].summary, "first line");
    assert_eq!(commits[1].short_id, "bbbbbbb");
    assert_eq!(commits[1].author, "");
    assert_eq!(commits[1].time, Timestamp::new(0, 0), "no such time");
    assert_eq!(commits[1].author_time, at(0));
    assert_eq!(commits[1].first_parent, None);
}

#[test]
fn paths_are_taken_relative_to_the_repository() {
    let r = repo();
    let root = "/home/me/my-project";
    assert_eq!(r.relative_path(root, "src/../a.rs"), Ok("a.rs".to_string()));
    assert_eq!(
        r.relative_path("/home/me/my-project/src", "lib.rs"),
        Ok("src/lib.rs".to_string())
    );
    assert_eq!(
        r.relative_path("/elsewhere", "src/lib.rs"),
        Ok("src/lib.rs".to_string())
    );
    assert_eq!(
        r.relative_path("/", "/home/me/my-project/x"),
        Ok("x".to_string())
    );
}

#[test]
fn works_in_a_linked_worktree() {
    let info = |root: &str, main: bool, id: Option<&str>| {
        WorktreeInfo::from_repo(
            Some(root.to_string()),
            "/tmp/repo/.git".to_string(),
            "/tmp/repo/.git",
            Some(main),
            id.map(String::from),
            Ok(vec!["linked-wt".to_string()]),
        )
        .unwrap()
    };
    let on = |worktree: WorktreeInfo, branch: &str| {
        Repo::new(
            worktree,
            HeadState::Branch {
                name: branch.to_string(),
            },
            "f".repeat(40),
            false,
        )
    };
    let wt = "/tmp/linked-wt";
    let linked = on(info(wt, false, Some("linked-wt")), "wt-branch");
    let entries = parse_status_v2(
        b"1 .M N... 100644 100644 100644 a a src/lib.rs\x00\
          1 A. N... 000000 100644 100644 0 b wt-only.txt\0",
    );
    let ctx = context(&linked, &base(), &baseline(), "bbbbbbb");
    let report = build_status(ctx, entries.clone(), &Vec::new(), 0);
    assert_eq!(report.repository.worktree.kind, WorktreeKind::Linked);
    assert_eq!(report.repository.head.branch_name(), Some("wt-branch"));
    assert_eq!(report.repository.base, "main");
    assert_eq!(report.counts.modified, 1);
    assert_eq!(report.counts.added, 1);
    assert_eq!(report.repository.worktree.root, wt);

    // The main worktree is untouched by the linked one.
    let main = on(info("/tmp/repo", true, None), "feature");
    let ctx = context(&main, &base(), &baseline(), "bbbbbbb");
    let report = build_status(ctx, Vec::new(), &Vec::new(), 1);
    assert_eq!(report.repository.worktree.kind, WorktreeKind::Main);
    assert_eq!(report.counts.modified, 0);
    assert_eq!(report.counts.added, 0);

    let mut f = facts();
    f.entries = entries;
    let trail = build_trail(&linked, &base(), &baseline(), Scope::Overview, &f);
    let out = render_trail(&trail, &plain(), &utc());
    assert!(out.contains("linked worktree"));
    assert!(out.contains("Modified src/lib.rs"));
    assert!(out.contains("Added wt-only.txt"));
}

#[test]
fn errors_outside_a_repository() {
    let out = discover_failure("/tmp/x", "NoGitRepository { path: \"/tmp/x\" }").to_string();
    assert!(out.contains("not inside a Git repository"));
    assert!(!out.contains("panicked"));
}

#[test]
fn errors_are_human_readable_for_edge_cases() {
    // Empty repository
    let out = HeadState::read(true, None, false, String::new(), Some("main".into()))
        .unwrap_err()
        .to_string();
    assert!(out.contains("no commits yet"));

    // Bare repository
    let out = WorktreeInfo::from_repo(None, "/b".into(), "/b", None, None, Ok(Vec::new()))
        .unwrap_err()
        .to_string();
    assert!(out.contains("bare repository"));

    // Detached HEAD is reported, not fatal.
    let (head, id) =
        HeadState::read(false, Some("f".repeat(40)), true, "fffffff".into(), None).unwrap();
    let detached = Repo::new(repo().worktree, head, id, false);
    let ctx = context(&detached, &base(), &baseline(), "bbbbbbb");
    let out = render_status(&build_status(ctx, Vec::new(), &Vec::new(), 1));
    assert!(out.contains("detached HEAD at"));

    // Base branch that does not share history.
    let out = repo()
        .resolve_base(None, Some(("main".into(), "b".repeat(40))), None)
        .unwrap_err()
        .to_string();
    assert!(out.contains("no common ancestor"));
}

#[test]
fn falls_back_to_master_and_origin_head() {
    let refs = base_lookups(None);
    let exists = |name: &str| -> Vec<Option<String>> {
        refs.iter()
            .map(|(full, _)| (full == name).then_some("c".to_string()))
            .collect()
    };
    let remote = || Some(("origin/trunk".to_string(), "t".to_string()));
    let master = first_found(&refs, &exists("refs/heads/master"));
    assert_eq!(master, Some(("master".to_string(), "c".to_string())));
    assert_eq!(found_base(None, master.clone(), remote()), master);

    // No main/master: use refs/remotes/origin/HEAD.
    let none = first_found(&refs, &exists("refs/heads/trunk"));
    assert_eq!(none, None);
    let found = found_base(None, none, remote());
    let base = repo().resolve_base(None, found, Some("m".into())).unwrap();
    assert_eq!(base.name, "origin/trunk");

    // Nothing to detect at all, or something else was asked for.
    let nothing = found_base(None, None, None);
    assert!(repo()
        .resolve_base(None, nothing, None)
        .unwrap_err()
        .to_string()
        .contains("could not detect a base branch"));
    assert_eq!(found_base(Some("nope"), None, remote()), None);
}

#[test]
fn a_file_is_restored_as_of_the_end_of_the_checkpoint() {
    // Another session starts earlier and ends later than the first checkpoint.
    let mut f = recorded();
    let other = SessionFile::load(
        "/o.jsonl",
        vec![
            header("o", "main", "feature", 14),
            edit(15, "src/lib.rs", Some("l0"), Some("o1")),
            edit(40, "src/lib.rs", Some("o1"), Some("o2")),
        ],
    )
    .unwrap();
    f.sessions.push(other);
    let trail = trail_of(&f, Scope::Overview);
    assert_eq!(open_at(&trail, "src/lib.rs", "s.1").unwrap(), "l1");
    assert_eq!(open_at(&trail, "src/lib.rs", "o.1").unwrap(), "o2");
    assert_eq!(open_at(&trail, "src/lib.rs", "s.2").unwrap(), "o2");

    // A later change that was moved into a checkpoint does not move its end.
    let mut f = recorded();
    f.metadata.moves.push(Move {
        from: "s.3".into(),
        path: "src/lib.rs".into(),
        to: "s.1".into(),
    });
    let trail = trail_of(&f, Scope::Overview);
    assert_eq!(open_at(&trail, "src/lib.rs", "s.1").unwrap(), "l1");
}

#[test]
fn a_file_moved_into_a_checkpoint_is_restored_there() {
    let mut f = recorded();
    let late = SessionFile::load(
        "/t.jsonl",
        vec![
            header("t", "main", "feature", 900),
            edit(910, "late.rs", None, Some("n1")),
            edit(911, "gone.rs", Some("g0"), None),
        ],
    )
    .unwrap();
    f.sessions.push(late);
    for path in ["late.rs", "gone.rs"] {
        let trail = trail_of(&f, Scope::Overview);
        assert_eq!(
            open_at(&trail, path, "s.1").unwrap_err().to_string(),
            format!("snapshot unavailable: {path} was not recorded in or before checkpoint s.1")
        );
        f.metadata.moves.push(Move {
            from: "t.1".into(),
            path: path.into(),
            to: "s.1".into(),
        });
    }
    let trail = trail_of(&f, Scope::Overview);
    assert_eq!(open_at(&trail, "late.rs", "s.1").unwrap(), "n1");
    assert_eq!(open_at(&trail, "late.rs", "s.2").unwrap(), "n1");
    assert_eq!(
        open_at(&trail, "gone.rs", "s.1").unwrap_err().to_string(),
        "snapshot unavailable: gone.rs had been deleted by checkpoint s.1"
    );
}
