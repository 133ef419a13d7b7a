//! The interactive browser.

use trail::display::browser::{
    development_title, diff_title, file_line, files_title, hints, map_key, node_line, position,
    tone, KeyPress, Tone,
};
use trail::edit::open::{open_selected, open_target, OpenSource};
use trail::error::TrailError;
use trail::git::baseline::{Baseline, BaselineKind};
use trail::git::diff::{ChangeKind as GitChangeKind, LineStats};
use trail::git::repository::HeadState;
use trail::git::worktree::{WorktreeInfo, WorktreeKind};
use trail::recorder::checkpoint::ChangeKind;
use trail::review::{
    blob_at_commit, CommitFile, CommitReview, DiffTarget, ReviewCheckpoint, ReviewFile, ReviewSection,
    ReviewSummary, ReviewWorktree, Selected, WorkingTreeFile, WorkingTreeReview, WorktreeReview,
    REVIEW_VERSION,
};
use trail::time::Timestamp;
use trail::trail::RepositoryContext;
use trail::tui::{App, Effect, Key, Level, Node, OpenTarget};

fn now() -> Timestamp {
    Timestamp::new(1_700_000_000, 0)
}

fn file(path: &str) -> ReviewFile {
    ReviewFile {
        path: path.to_string(),
        kind: ChangeKind::Modified,
        from_path: None,
        before_hash: Some("a".into()),
        after_hash: Some("b".into()),
        additions: Some(1),
        deletions: Some(0),
        binary: false,
        snapshot: true,
        edits: 1,
    }
}

fn checkpoint(section: usize, number: usize, files: &[&str]) -> ReviewCheckpoint {
    ReviewCheckpoint {
        section,
        number,
        label: format!("{section}.{number}"),
        id: format!("s.{section}{number}"),
        title: None,
        annotation: None,
        started_at: now(),
        ended_at: now(),
        bulk: false,
        attachment: None,
        files: files.iter().map(|f| file(f)).collect(),
        stats: LineStats::default(),
    }
}

fn commit(number: usize, checkpoints: Vec<ReviewCheckpoint>, files: &[&str]) -> ReviewSection {
    ReviewSection::Commit(CommitReview {
        number,
        id: format!("{number:040}"),
        short_id: format!("{number:07}"),
        summary: format!("commit {number}"),
        author: "t".into(),
        time: now(),
        is_merge: false,
        diff_parent: None,
        checkpoints,
        files: files
            .iter()
            .map(|f| CommitFile {
                path: f.to_string(),
                old_path: None,
                kind: GitChangeKind::Modified,
                before_id: Some("a".into()),
                after_id: Some("b".into()),
                additions: Some(1),
                deletions: Some(0),
                binary: false,
            })
            .collect(),
        stats: LineStats::default(),
    })
}

fn working_tree(
    number: usize,
    checkpoints: Vec<ReviewCheckpoint>,
    files: &[&str],
) -> ReviewSection {
    ReviewSection::WorkingTree(WorkingTreeReview {
        number,
        available: true,
        checkpoints,
        files: files
            .iter()
            .map(|f| WorkingTreeFile {
                path: f.to_string(),
                old_path: None,
                kind: GitChangeKind::Modified,
                staged: false,
                unstaged: true,
                untracked: false,
                additions: Some(1),
                deletions: Some(0),
                binary: false,
            })
            .collect(),
        staged: 0,
        unstaged: files.len(),
        untracked: 0,
        stats: LineStats::default(),
    })
}

fn app(sections: Vec<ReviewSection>) -> App {
    let zero = "0".repeat(40);
    let repo_ctx = RepositoryContext {
        name: "t".into(),
        head: HeadState::Branch {
            name: "feature".into(),
        },
        base: "main".into(),
        merge_base: "abc".into(),
        since: Baseline {
            kind: BaselineKind::BaseBranch,
            label: "base main".into(),
            commit: zero.clone(),
            start: zero,
            short_commit: "0000000".into(),
            short_start: "0000000".into(),
            explicit: false,
        },
        worktree: WorktreeInfo {
            root: "/r".to_string(),
            git_dir: "/r/.git".to_string(),
            common_dir: "/r/.git".to_string(),
            kind: WorktreeKind::Main,
            id: None,
            sibling_count: 0,
        },
        shallow: false,
    };
    let checkpoints = sections
        .iter()
        .flat_map(|s| s.checkpoints().to_vec())
        .collect();
    App::new(WorktreeReview {
        version: REVIEW_VERSION,
        repository: repo_ctx,
        worktree: ReviewWorktree {
            id: "main".into(),
            path: "/r".to_string(),
            branch: Some("feature".into()),
            exists: true,
            current: true,
        },
        sections,
        checkpoints,
        summary: ReviewSummary::default(),
        files_changed: 0,
        stats: LineStats::default(),
    })
}

/// Two commits with two checkpoints each, one uncommitted checkpoint.
fn typical() -> App {
    app(vec![
        commit(
            1,
            vec![
                checkpoint(1, 1, &["a.rs", "b.rs"]),
                checkpoint(1, 2, &["c.rs"]),
            ],
            &["a.rs", "b.rs", "c.rs"],
        ),
        commit(
            2,
            vec![checkpoint(2, 1, &["d.rs"]), checkpoint(2, 2, &["e.rs"])],
            &["d.rs", "e.rs"],
        ),
        working_tree(3, vec![checkpoint(3, 1, &["f.rs"])], &["f.rs"]),
    ])
}

/// The diffs that were asked for.
struct Loads {
    targets: Vec<DiffTarget>,
}

impl Loads {
    fn last(&self) -> Option<&DiffTarget> {
        self.targets.last()
    }
}

fn recording_loader() -> Loads {
    Loads {
        targets: Vec::new(),
    }
}

/// Handles a key; a diff that is asked for is loaded and shown at once.
fn press(a: &mut App, key: Key, loads: &mut Loads) -> Effect {
    match a.handle(key) {
        Effect::Load(request) => {
            loads.targets.push(request.target.clone());
            a.show_diff(&request, Ok("--- a\n+++ b\n@@\n-x\n+y\n".to_string()));
            Effect::Stay
        }
        effect => effect,
    }
}

#[test]
fn tree_starts_expanded_and_collapses() {
    let mut a = typical();
    let mut load = recording_loader();
    assert_eq!(a.nodes().len(), 3 + 5);
    assert_eq!(a.current_node(), Some(Node::Section(0)));
    // Back on an expanded commit collapses it.
    press(&mut a, Key::Back, &mut load);
    assert!(!a.expanded[0]);
    assert_eq!(a.nodes().len(), 3 + 3);
    // Enter on a collapsed commit expands it again.
    press(&mut a, Key::Enter, &mut load);
    assert!(a.expanded[0]);
    // Back on a collapsed top-level node quits.
    press(&mut a, Key::Back, &mut load);
    assert_eq!(press(&mut a, Key::Back, &mut load), Effect::Quit);
}

#[test]
fn commit_to_checkpoint_to_files_to_diff() {
    let mut a = typical();
    let mut loads = recording_loader();
    press(&mut a, Key::Down, &mut loads);
    assert_eq!(a.current_node(), Some(Node::Checkpoint(0, 0)));
    press(&mut a, Key::Enter, &mut loads);
    assert_eq!(a.level, Level::Files);
    assert_eq!(
        a.file_rows()
            .iter()
            .map(|r| r.name.clone())
            .collect::<Vec<_>>(),
        vec!["a.rs", "b.rs"]
    );
    press(&mut a, Key::Down, &mut loads);
    press(&mut a, Key::Enter, &mut loads);
    assert_eq!(a.level, Level::Diff);
    assert_eq!(
        loads.last(),
        Some(&DiffTarget::CheckpointFile {
            label: "1.1".into(),
            path: "b.rs".to_string()
        })
    );
    assert_eq!(a.diff.len(), 5);
    press(&mut a, Key::Down, &mut loads);
    press(&mut a, Key::Down, &mut loads);
    assert_eq!(a.scroll, 2);
    // Back from a file diff returns to Files, then to the tree.
    press(&mut a, Key::Back, &mut loads);
    assert_eq!(a.level, Level::Files);
    press(&mut a, Key::Back, &mut loads);
    assert_eq!(a.level, Level::Development);
    // Back on a checkpoint jumps to its commit.
    press(&mut a, Key::Back, &mut loads);
    assert_eq!(a.current_node(), Some(Node::Section(0)));
    assert_eq!(press(&mut a, Key::Quit, &mut loads), Effect::Quit);
}

#[test]
fn commit_files_and_commit_diff() {
    let mut a = typical();
    let mut loads = recording_loader();
    // Enter on an expanded commit lists the commit's own files.
    press(&mut a, Key::Enter, &mut loads);
    assert_eq!(a.level, Level::Files);
    assert_eq!(a.file_rows().len(), 3);
    press(&mut a, Key::Down, &mut loads);
    press(&mut a, Key::Down, &mut loads);
    press(&mut a, Key::Diff, &mut loads);
    assert_eq!(
        loads.last(),
        Some(&DiffTarget::CommitFile {
            section: 1,
            path: "c.rs".to_string()
        })
    );
    assert_eq!(
        press(&mut a, Key::Open, &mut loads),
        Effect::Open(OpenTarget::CommitFile {
            section: 1,
            path: "c.rs".to_string()
        })
    );
    // `c` anywhere inside a commit shows the whole commit diff, and Back
    // from it returns to where the user was.
    press(&mut a, Key::Back, &mut loads);
    press(&mut a, Key::Back, &mut loads);
    press(&mut a, Key::Down, &mut loads); // checkpoint 1.1
    press(&mut a, Key::CommitDiff, &mut loads);
    assert_eq!(a.level, Level::Diff);
    assert_eq!(
        loads.last(),
        Some(&DiffTarget::Commit { section: 1 })
    );
    assert!(!a.diff_of_file);
    assert!(press(&mut a, Key::Open, &mut loads) == Effect::Stay && a.status.is_some());
    press(&mut a, Key::Back, &mut loads);
    assert_eq!(a.level, Level::Development);
    assert_eq!(a.current_node(), Some(Node::Checkpoint(0, 0)));
    // `d` on a checkpoint shows the checkpoint diff.
    press(&mut a, Key::Diff, &mut loads);
    assert_eq!(
        loads.last(),
        Some(&DiffTarget::Checkpoint {
            label: "1.1".into()
        })
    );
}

#[test]
fn working_tree_node() {
    let mut a = typical();
    let mut loads = recording_loader();
    for _ in 0..6 {
        press(&mut a, Key::Down, &mut loads);
    }
    assert_eq!(a.current_node(), Some(Node::Section(2)));
    press(&mut a, Key::CommitDiff, &mut loads);
    assert_eq!(
        a.level,
        Level::Development,
        "working tree has no commit diff"
    );
    assert!(a.status.is_some());
    press(&mut a, Key::Diff, &mut loads);
    assert_eq!(loads.last(), Some(&DiffTarget::WorkingTree));
    press(&mut a, Key::Back, &mut loads);
    press(&mut a, Key::Enter, &mut loads);
    assert_eq!(
        press(&mut a, Key::Open, &mut loads),
        Effect::Open(OpenTarget::WorktreeFile {
            path: "f.rs".to_string()
        })
    );
    press(&mut a, Key::Back, &mut loads);
    press(&mut a, Key::Down, &mut loads); // checkpoint 3.1
    press(&mut a, Key::Down, &mut loads); // clamped at the end
    assert_eq!(a.current_node(), Some(Node::Checkpoint(2, 0)));
    press(&mut a, Key::Enter, &mut loads);
    assert_eq!(
        press(&mut a, Key::Open, &mut loads),
        Effect::Open(OpenTarget::Snapshot {
            checkpoint_id: "s.31".into(),
            path: "f.rs".to_string()
        })
    );
}

#[test]
fn empty_commit_and_commit_without_checkpoints() {
    let mut a = app(vec![
        commit(1, Vec::new(), &[]),
        working_tree(2, Vec::new(), &[]),
    ]);
    let mut load = recording_loader();
    assert_eq!(a.nodes().len(), 2);
    press(&mut a, Key::Enter, &mut load);
    assert_eq!(a.level, Level::Development, "no files to enter");
    assert!(a.status.is_some());
    press(&mut a, Key::Open, &mut load);
    assert!(a.status.is_some());
    press(&mut a, Key::Down, &mut load);
    press(&mut a, Key::Down, &mut load);
    assert_eq!(a.current_node(), Some(Node::Section(1)));
    let mut empty = app(Vec::new());
    press(&mut empty, Key::Down, &mut load);
    press(&mut empty, Key::Enter, &mut load);
    assert_eq!(empty.level, Level::Development);
    assert!(empty.status.is_some());
}

#[test]
fn cursor_is_clamped_when_the_tree_shrinks() {
    let mut a = typical();
    let mut load = recording_loader();
    for _ in 0..7 {
        press(&mut a, Key::Down, &mut load);
    }
    assert_eq!(a.cursor, 7);
    // Back on the last checkpoint jumps to its section, Back again
    // collapses it: the cursor lands on the now-last row.
    press(&mut a, Key::Back, &mut load);
    press(&mut a, Key::Back, &mut load);
    assert_eq!(a.current_node(), Some(Node::Section(2)));
    assert_eq!(a.cursor, 6);
    // Collapse everything else from above: cursor index stays visible.
    a.cursor = 0;
    press(&mut a, Key::Back, &mut load);
    press(&mut a, Key::Down, &mut load);
    press(&mut a, Key::Back, &mut load);
    assert_eq!(a.nodes().len(), 3);
    assert!(a.cursor < a.nodes().len());
}

#[test]
fn keys_have_meanings() {
    assert_eq!(map_key(KeyPress::Char('j'), false), Some(Key::Down));
    assert_eq!(map_key(KeyPress::Up, false), Some(Key::Up));
    assert_eq!(map_key(KeyPress::Char('l'), false), Some(Key::Enter));
    assert_eq!(map_key(KeyPress::Backspace, false), Some(Key::Back));
    assert_eq!(map_key(KeyPress::Char('c'), false), Some(Key::CommitDiff));
    assert_eq!(map_key(KeyPress::Char('c'), true), Some(Key::Quit));
    assert_eq!(map_key(KeyPress::Char('x'), false), None);
    assert_eq!(map_key(KeyPress::Other, true), None);
}

#[test]
fn panes_say_where_the_user_is() {
    let mut a = typical();
    assert_eq!(development_title(&a), " Development  feature since base main ");
    assert_eq!(files_title(&a), " Files  [1] ");
    let row = node_line(&a, Node::Section(0));
    assert_eq!(row.text, "▼ [1] 0000001 commit 1  ");
    assert_eq!(row.aside, "2 checkpoints  ±0");
    assert_eq!(
        node_line(&a, Node::Checkpoint(0, 0)).text,
        "  ├ [1.1] Checkpoint 1.1  "
    );
    assert_eq!(
        node_line(&a, Node::Checkpoint(0, 1)).text,
        "  └ [1.2] Checkpoint 1.2  "
    );
    let line = file_line(&a.file_rows()[0]);
    assert_eq!((line.text.as_str(), line.aside.as_str()), ("~ a.rs  ", "+1"));
    let mut loads = recording_loader();
    press(&mut a, Key::Diff, &mut loads);
    assert_eq!(diff_title(&a), " Diff  commit 0000001 commit 1 ");
    press(&mut a, Key::Back, &mut loads);
    press(&mut a, Key::Back, &mut loads);
    assert_eq!(
        node_line(&a, Node::Section(0)).text,
        "▶ [1] 0000001 commit 1  "
    );
    assert_eq!(position(Level::Files, false), "Development > Files  ");
    assert_eq!(position(Level::Files, true), "");
    assert!(hints(Level::Diff).starts_with("j/k scroll"));
}

#[test]
fn diff_lines_are_set_off() {
    assert_eq!(tone("+++ b/a.rs"), Tone::Header);
    assert_eq!(tone("diff --git a b"), Tone::Header);
    assert_eq!(tone("+x"), Tone::Added);
    assert_eq!(tone("-x"), Tone::Removed);
    assert_eq!(tone("@@ -1 +1 @@"), Tone::Hunk);
    assert_eq!(tone(" x"), Tone::Plain);
}

#[test]
fn a_diff_that_cannot_be_loaded_is_a_message() {
    let mut a = typical();
    match a.handle(Key::Diff) {
        Effect::Load(request) => {
            assert_eq!(request.target, DiffTarget::Commit { section: 1 });
            a.show_diff(&request, Err(TrailError::Git("gone".to_string())));
        }
        other => panic!("{other:?}"),
    }
    assert_eq!(a.level, Level::Development);
    assert_eq!(a.status.as_deref(), Some("git error: gone"));
}

#[test]
fn what_to_open_comes_from_the_selection() {
    let a = typical();
    assert_eq!(
        open_target(
            &a.review,
            &OpenTarget::CommitFile {
                section: 1,
                path: "c.rs".to_string()
            }
        ),
        Ok(OpenSource::Blob {
            id: "b".to_string(),
            path: "c.rs".to_string()
        })
    );
    assert_eq!(
        open_target(
            &a.review,
            &OpenTarget::CommitFile {
                section: 9,
                path: "c.rs".to_string()
            }
        )
        .unwrap_err()
        .to_string(),
        "section 9 does not exist"
    );
    let commit = a.review.sections[0].as_commit().unwrap();
    let mut gone = commit.clone();
    gone.files[0].after_id = None;
    assert_eq!(blob_at_commit(&gone.files[0]), None);
    let section = ReviewSection::Commit(gone);
    assert_eq!(
        open_selected(Selected::Section(&section), "a.rs")
            .unwrap_err()
            .to_string(),
        "snapshot unavailable: a.rs had been deleted by commit 0000001"
    );
    assert_eq!(
        open_selected(Selected::Checkpoint(&commit.checkpoints[0]), "b.rs"),
        Ok(OpenSource::Snapshot {
            checkpoint_id: "s.11".to_string(),
            path: "b.rs".to_string()
        })
    );
    assert!(open_selected(Selected::Checkpoint(&commit.checkpoints[0]), "z.rs").is_err());
    assert_eq!(
        open_selected(Selected::Section(&a.review.sections[2]), "f.rs"),
        Ok(OpenSource::Worktree {
            path: "f.rs".to_string()
        })
    );
}
