//! How a worktree came to be: commits, checkpoints and their diffs.

use trail::display::terminal::{
    render_review, render_review_checkpoint, render_review_file, render_section, Style,
};
use trail::error::TrailError;
use trail::git::baseline::{Baseline, BaselineKind};
use trail::git::diff::{parse_numstat, parse_status_v2, ChangeKind};
use trail::git::history::{CommitFile, CommitInfo};
use trail::git::repository::{HeadState, Repo};
use trail::git::worktree::{WorktreeInfo, WorktreeKind};
use trail::map::TextMap;
use trail::recorder::checkpoint::{self, FileChange};
use trail::review::assemble::{fits, WorkState};
use trail::review::select::{file_to_read, files_to_read, WorkContents};
use trail::review::{
    build, commit_review, diff_for, file_diff, section_of_commit, select, working_tree_file_diff,
    DiffTarget, ReviewSection, Selected, WorktreeReview,
};
use trail::time::{Timestamp, Zone};
use trail::trail::event::{Attachment, Confidence, EventSource, TrailEvent, TrailEventType};
use trail::trail::{RepositoryContext, Trail, TrailSummary};

fn at(secs: i64) -> Timestamp {
    Timestamp::new(1_700_000_000 + secs, 0)
}

fn worktree() -> WorktreeInfo {
    WorktreeInfo {
        root: "/r".into(),
        git_dir: "/r/.git".into(),
        common_dir: "/r/.git".into(),
        kind: WorktreeKind::Main,
        id: None,
        sibling_count: 0,
    }
}

fn head() -> HeadState {
    HeadState::Branch {
        name: "feature".into(),
    }
}

fn repo() -> Repo {
    Repo::new(worktree(), head(), id('c'), false)
}

fn id(c: char) -> String {
    c.to_string().repeat(40)
}

fn change(path: &str, before: Option<&str>, after: Option<&str>) -> FileChange {
    FileChange {
        origin: "s".into(),
        path: path.into(),
        kind: checkpoint::ChangeKind::Modified,
        from_path: None,
        before_hash: before.map(String::from),
        after_hash: after.map(String::from),
        first_seen: at(0),
        last_seen: at(5),
        edits: 1,
    }
}

fn event(timestamp: Option<Timestamp>, event_type: TrailEventType) -> TrailEvent {
    TrailEvent {
        timestamp,
        event_type,
        files: Vec::new(),
        source: EventSource::TrailRecorder,
        confidence: Confidence::Exact,
        stats: None,
        staged: None,
    }
}

fn commit(c: char, summary: &str, secs: i64) -> TrailEvent {
    event(
        Some(at(secs)),
        TrailEventType::Commit {
            id: id(c),
            short_id: c.to_string().repeat(7),
            summary: summary.into(),
            author: "Hinata".into(),
            is_merge: false,
        },
    )
}

fn worked(
    name: &str,
    secs: i64,
    title: Option<&str>,
    hidden: bool,
    commit: Option<char>,
    changes: Vec<FileChange>,
) -> TrailEvent {
    event(
        Some(at(secs)),
        TrailEventType::Checkpoint {
            id: name.into(),
            session_id: "s".into(),
            title: title.map(String::from),
            annotation: None,
            bulk: false,
            hidden,
            boundary: None,
            commit: commit.map(id),
            attachment: commit.map(|_| Attachment::Inferred),
            changes,
        },
    )
}

fn trail() -> Trail {
    Trail {
        repository: RepositoryContext {
            name: "my-project".into(),
            head: head(),
            base: "main".into(),
            merge_base: "aaaaaaa".into(),
            since: Baseline {
                kind: BaselineKind::BaseBranch,
                label: "base main".into(),
                commit: id('a'),
                start: id('a'),
                short_commit: "aaaaaaa".into(),
                short_start: "aaaaaaa".into(),
                explicit: false,
            },
            worktree: worktree(),
            shallow: false,
        },
        events: vec![
            worked(
                "s.1",
                1,
                Some("Schema"),
                false,
                Some('b'),
                vec![change("a.rs", Some("h0"), Some("h1"))],
            ),
            worked(
                "s.2",
                2,
                None,
                true,
                Some('b'),
                vec![change("a.rs", Some("h1"), Some("h2"))],
            ),
            commit('b', "Add model", 10),
            commit('c', "Add API", 20),
            worked(
                "s.3",
                30,
                None,
                false,
                None,
                vec![change("a.rs", Some("h1"), Some("pruned"))],
            ),
        ],
        summary: TrailSummary::default(),
    }
}

fn info(c: char, parent: char, summary: &str, files: Vec<CommitFile>) -> CommitInfo {
    CommitInfo {
        id: id(c),
        short_id: c.to_string().repeat(7),
        summary: summary.into(),
        author: "Hinata".into(),
        time: at(10),
        author_time: at(10),
        parent_count: 1,
        first_parent: Some(id(parent)),
        files,
    }
}

fn infos() -> Vec<CommitInfo> {
    vec![
        info(
            'b',
            'a',
            "Add model",
            vec![CommitFile {
                path: "a.rs".into(),
                old_path: None,
                kind: ChangeKind::Modified,
                before_id: Some("h0".into()),
                after_id: Some("h1".into()),
            }],
        ),
        info('c', 'b', "Add API", Vec::new()),
    ]
}

fn blobs() -> TextMap<Vec<u8>> {
    let mut m = TextMap::new();
    m.insert("h0".to_string(), b"one\n".to_vec());
    m.insert("h1".to_string(), b"one\ntwo\n".to_vec());
    m.insert("h2".to_string(), b"two\n".to_vec());
    m
}

fn work() -> WorkState {
    WorkState {
        entries: parse_status_v2(b"1 .M N... 0 0 0 a b a.rs\0? n.txt\0"),
        stats: parse_numstat(b"3\t1\ta.rs\0"),
        untracked: parse_numstat(b"1\t0\tn.txt\0"),
    }
}

fn contents() -> WorkContents {
    let mut disk = TextMap::new();
    disk.insert("n.txt".to_string(), b"note\n".to_vec());
    let mut unified = TextMap::new();
    unified.insert("a.rs".to_string(), b"diff --git a/a.rs b/a.rs\n".to_vec());
    WorkContents {
        live: true,
        contents: disk,
        unified,
    }
}

fn review() -> WorktreeReview {
    build(&repo(), &trail(), &infos(), &blobs(), &work(), true)
}

#[test]
fn sections_are_commits_and_then_the_working_tree() {
    let r = review();
    assert_eq!(r.version, 2);
    assert_eq!(r.sections.len(), 3);
    assert_eq!(r.sections[0].heading(), "bbbbbbb Add model");
    assert_eq!(r.sections[1].heading(), "ccccccc Add API");
    assert_eq!(r.sections[2].heading(), "Working tree");
    for (i, s) in r.sections.iter().enumerate() {
        assert_eq!(s.number(), i + 1);
    }
    assert!(r.worktree.exists && r.worktree.current);
    assert_eq!(r.summary.commits, 2);
    // The hidden checkpoint is left out; the others are there once.
    let labels: Vec<&str> = r.checkpoints.iter().map(|c| c.label.as_str()).collect();
    assert_eq!(labels, vec!["1.1", "3.1"]);
    assert_eq!(r.summary.checkpoints, 2);
    assert_eq!(r.summary.uncommitted_checkpoints, 1);
    let first = &r.sections[0].checkpoints()[0];
    assert_eq!(first.id, "s.1");
    assert_eq!((first.stats.additions, first.stats.deletions), (1, 0));
    assert!(!r.sections[2].checkpoints()[0].files[0].snapshot);
    assert!(r.sections[1].checkpoints().is_empty());
    assert_eq!(r.sections[0].as_commit().unwrap().diff_parent, Some("a".repeat(40)));
}

#[test]
fn selectors_name_sections_checkpoints_and_commits() {
    let r = review();
    let name = |s: &str| match select(&r, s) {
        Ok(Selected::Section(x)) => x.heading(),
        Ok(Selected::Checkpoint(c)) => c.id.clone(),
        Err(e) => e.to_string(),
    };
    assert_eq!(name("1"), "bbbbbbb Add model");
    assert_eq!(name("3"), "Working tree");
    assert_eq!(name("1.1"), "s.1");
    assert_eq!(name("s.3"), "s.3");
    assert_eq!(name("cccc"), "ccccccc Add API");
    for bad in ["4", "0", "1.9", "zzzz", ""] {
        assert!(
            matches!(select(&r, bad), Err(TrailError::InvalidSelection(_))),
            "{bad}"
        );
    }
    assert_eq!(
        section_of_commit(&r, &id('c')).map(|c| c.number),
        Some(2)
    );
    assert!(section_of_commit(&r, &id('z')).is_none());
    assert_eq!(section_of_commit(&r, "bbb").map(|c| c.number), Some(1));
    assert!(section_of_commit(&r, "").is_none(), "two commits start so");
}

#[test]
fn ambiguous_commit_prefixes_are_an_error() {
    let mut t = trail();
    t.events[3] = commit('b', "Twin", 20);
    if let TrailEventType::Commit { id, .. } = &mut t.events[3].event_type {
        *id = format!("{}c", "b".repeat(39));
    }
    let mut all = infos();
    all[1].id = format!("{}c", "b".repeat(39));
    let r = build(&repo(), &t, &all, &blobs(), &work(), true);
    assert!(select(&r, "bbbb").is_err());
    assert!(select(&r, &id('b')).is_ok());
}

#[test]
fn commit_diffs_and_checkpoint_diffs() {
    let r = review();
    let of = |t: DiffTarget| diff_for(&r, &t, &blobs(), &contents());
    let expected = "--- a/a.rs\n+++ b/a.rs\n@@ -1,1 +1,2 @@\n one\n+two\n";
    assert_eq!(of(DiffTarget::Commit { section: 1 }).unwrap(), expected);
    assert_eq!(
        of(DiffTarget::Checkpoint {
            label: "1.1".into()
        })
        .unwrap(),
        expected
    );
    assert_eq!(of(DiffTarget::Commit { section: 2 }).unwrap(), "");
    // Content that is gone cannot be compared.
    assert_eq!(
        of(DiffTarget::CheckpointFile {
            label: "3.1".into(),
            path: "a.rs".into()
        })
        .unwrap(),
        ""
    );
    let all = of(DiffTarget::WorkingTree).unwrap();
    assert!(all.starts_with("diff --git a/a.rs b/a.rs\n"));
    assert!(all.contains("--- /dev/null\n+++ b/n.txt\n"));
    assert!(all.contains("+note\n"));
    assert_eq!(
        of(DiffTarget::CommitFile {
            section: 1,
            path: "z.rs".into()
        })
        .unwrap_err()
        .to_string(),
        "z.rs is not part of commit 1 (bbbbbbb)"
    );
    assert_eq!(
        of(DiffTarget::Commit { section: 9 }).unwrap_err().to_string(),
        "section 9 does not exist"
    );
    assert_eq!(
        of(DiffTarget::WorkingTreeFile {
            path: "z.rs".into()
        })
        .unwrap_err()
        .to_string(),
        "z.rs has no uncommitted changes"
    );
    assert!(of(DiffTarget::Checkpoint {
        label: "7.7".into()
    })
    .unwrap_err()
    .to_string()
    .contains("7.7"));
}

#[test]
fn one_file_of_a_selection() {
    let r = review();
    let show = |selector: &str, path: &str| {
        file_diff(&r, select(&r, selector).unwrap(), path, &blobs(), &contents())
    };
    let f = show("1", "a.rs").unwrap();
    assert_eq!(f.heading, "commit 1 (bbbbbbb) Add model");
    assert!(f.available && f.diff.contains("+two"));
    let f = show("1.1", "a.rs").unwrap();
    assert_eq!(f.heading, "checkpoint 1.1 (s.1) \"Schema\"");
    let f = show("3.1", "a.rs").unwrap();
    assert!(!f.available && f.diff.is_empty());
    let out = render_review_file(&f, &Style { enabled: false });
    assert!(out.contains("a.rs"));
    assert_eq!(show("3", "n.txt").unwrap().heading, "working tree (3)");
    assert!(show("1.1", "z.rs")
        .unwrap_err()
        .to_string()
        .contains("is not part of checkpoint 1.1 (s.1)"));
}

#[test]
fn a_removed_worktree_has_no_working_tree_to_show() {
    let gone = repo().for_removed_worktree("w", "/gone", Some("feature"), id('c'), "ccccccc".into());
    let nothing = WorkState {
        entries: Vec::new(),
        stats: Vec::new(),
        untracked: Vec::new(),
    };
    let r = build(&gone, &trail(), &infos(), &blobs(), &nothing, false);
    assert!(!r.worktree.exists && !r.worktree.current);
    match r.sections.last().unwrap() {
        ReviewSection::WorkingTree(w) => {
            assert!(!w.available);
            assert!(w.files.is_empty());
        }
        other => panic!("{other:?}"),
    }
    assert!(matches!(
        file_diff(
            &r,
            Selected::Section(r.sections.last().unwrap()),
            "a.rs",
            &blobs(),
            &contents()
        ),
        Err(TrailError::WorktreeUnavailable(_))
    ));
    let mut dead = contents();
    dead.live = false;
    if let ReviewSection::WorkingTree(w) = review().sections.last().unwrap() {
        assert_eq!(working_tree_file_diff(&dead, &w.files[0]), "");
    }
}

#[test]
fn a_commit_outside_the_window_can_be_reviewed() {
    let c = commit_review(&blobs(), 0, &infos()[0], Vec::new());
    assert_eq!(c.number, 0);
    assert_eq!((c.stats.additions, c.stats.deletions), (1, 0));
    let outside = ReviewSection::Commit(c.clone());
    let f = file_diff(
        &review(),
        Selected::Section(&outside),
        "a.rs",
        &blobs(),
        &contents(),
    )
    .unwrap();
    assert!(f.diff.contains("+two"));
    let out = render_section(
        &ReviewSection::Commit(c),
        &Style { enabled: false },
        &Zone {
            offsets: Vec::new(),
        },
    );
    assert!(out.contains("no recorded checkpoints"));
}

#[test]
fn reviews_are_drawn() {
    let r = review();
    let style = Style { enabled: false };
    let zone = Zone {
        offsets: Vec::new(),
    };
    let out = render_review(&r, &style, &zone);
    assert!(out.contains("[1] bbbbbbb Add model\n"));
    assert!(out.contains("Hinata  2023-11-14 22:13\n"));
    assert!(out.contains("[1.1] Schema  +1"));
    assert!(out.contains("[inferred]"));
    assert!(out.contains("no recorded checkpoints"));
    assert!(out.contains("[3] Working tree\n"));
    assert!(out.contains("(staged 0, unstaged 1, untracked 1)"));
    assert!(out.contains("2 commits, 2 checkpoints (1 uncommitted)"));
    let out = render_section(&r.sections[2], &style, &zone);
    assert!(out.contains("n.txt"));
    let out = render_review_checkpoint(&r.checkpoints[1], &style, &zone);
    assert!(out.contains("snapshot unavailable"));
}

#[test]
fn file_rows_say_what_happened() {
    let r = review();
    let rows = r.sections[2].file_rows();
    assert_eq!((rows[0].mark.as_str(), rows[0].stat.as_str()), ("~", "+3 -1"));
    assert_eq!(rows[0].state.as_deref(), Some("unstaged"));
    assert_eq!((rows[1].mark.as_str(), rows[1].name.as_str()), ("+", "n.txt"));
    assert_eq!(rows[1].state.as_deref(), Some("untracked"));
    let rows = r.sections[2].checkpoints()[0].file_rows();
    assert_eq!(rows[0].stat, "snapshot unavailable");
    assert_eq!(r.checkpoints[1].display_title(), "Checkpoint 3.1");
}

#[test]
fn digits_can_name_a_commit() {
    let mut t = trail();
    t.events[3] = commit('c', "Digits", 20);
    let digits = format!("1234567{}", "0".repeat(33));
    if let TrailEventType::Commit { id, .. } = &mut t.events[3].event_type {
        *id = digits.clone();
    }
    let mut all = infos();
    all[1].id = digits;
    let r = build(&repo(), &t, &all, &blobs(), &work(), true);
    match select(&r, "1234567") {
        Ok(Selected::Section(s)) => assert_eq!(s.number(), 2),
        other => panic!("{other:?}"),
    }
    // A section's own number comes first, and a number that names nothing is
    // answered as one.
    match select(&r, "1") {
        Ok(Selected::Section(s)) => assert_eq!(s.number(), 1),
        other => panic!("{other:?}"),
    }
    assert_eq!(
        select(&r, "7654321").unwrap_err().to_string(),
        "section 7654321 does not exist; `trail review` lists 1..3"
    );
}

#[test]
fn an_ordinary_review_stays_within_its_limits() {
    assert!(fits(&trail(), &infos(), &work()));
    let mut huge = work();
    huge.stats[0].additions = Some(u64::MAX - 1);
    assert!(!fits(&trail(), &infos(), &huge));
    assert!(fits(&trail(), &Vec::new(), &huge));
}

#[test]
fn only_working_tree_diffs_read_the_working_tree() {
    let r = review();
    let read = |t: DiffTarget| -> Vec<String> {
        files_to_read(&r, &t).into_iter().map(|f| f.path).collect()
    };
    assert_eq!(read(DiffTarget::WorkingTree), vec!["a.rs", "n.txt"]);
    assert_eq!(read(DiffTarget::Commit { section: 3 }), vec!["a.rs", "n.txt"]);
    assert!(read(DiffTarget::Commit { section: 1 }).is_empty());
    assert!(read(DiffTarget::Checkpoint { label: "1.1".into() }).is_empty());
    assert_eq!(
        read(DiffTarget::WorkingTreeFile { path: "n.txt".into() }),
        vec!["n.txt"]
    );
    assert!(read(DiffTarget::WorkingTreeFile { path: "z".into() }).is_empty());
    let one = |selector: &str| file_to_read(select(&r, selector).unwrap(), "a.rs");
    assert_eq!(one("3").len(), 1);
    assert!(one("1").is_empty());
    assert!(one("1.1").is_empty());
    // Without any of the working tree a commit's diff is the same.
    let nothing = WorkContents {
        live: true,
        contents: TextMap::new(),
        unified: TextMap::new(),
    };
    let target = DiffTarget::Commit { section: 1 };
    assert_eq!(
        diff_for(&r, &target, &blobs(), &nothing).unwrap(),
        diff_for(&r, &target, &blobs(), &contents()).unwrap()
    );
}

#[test]
fn what_git_says_is_decoded() {
    let mut found = contents();
    found.unified.insert("a.rs".to_string(), b"+\xff\n".to_vec());
    let target = DiffTarget::WorkingTreeFile { path: "a.rs".into() };
    assert_eq!(
        diff_for(&review(), &target, &blobs(), &found).unwrap(),
        "+\u{fffd}\n"
    );
}
