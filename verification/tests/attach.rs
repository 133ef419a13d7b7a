//! Which commit a checkpoint was work towards.

use trail::git::history::{CommitIdentity, CommitInfo};
use trail::recorder::checkpoint::CommitBoundary;
use trail::time::Timestamp;
use trail::trail::attach::attach;
use trail::trail::event::Attachment;

fn t(secs: i64) -> Timestamp {
    Timestamp::new(1_700_000_000 + secs, 0)
}

fn commit(id: &str, parent: Option<&str>, time: i64, author_time: i64) -> CommitInfo {
    CommitInfo {
        id: id.into(),
        short_id: id[..3.min(id.len())].into(),
        summary: String::new(),
        author: String::new(),
        time: t(time),
        author_time: t(author_time),
        parent_count: usize::from(parent.is_some()),
        first_parent: parent.map(String::from),
        files: Vec::new(),
    }
}

fn boundary(from: &str, to: &str) -> CommitBoundary {
    CommitBoundary {
        from_head: from.into(),
        to_head: to.into(),
    }
}

#[test]
fn recorded_boundary_wins_when_it_was_a_commit() {
    let commits = vec![
        commit("a", Some("base"), 100, 100),
        commit("b", Some("a"), 200, 200),
    ];
    assert_eq!(
        attach(&commits, Some(&boundary("a", "b")), t(150), None),
        (Some("b".into()), Some(Attachment::Recorded))
    );
    // A movement that is not a commit (reset to a) falls through to
    // time: the next commit after the checkpoint is b, never a itself
    // even though a's identity is known.
    let known = CommitIdentity::of(&commits[0]);
    assert_eq!(
        attach(&commits, Some(&boundary("b", "a")), t(150), Some(&known)),
        (Some("b".into()), Some(Attachment::Inferred))
    );
}

#[test]
fn rewritten_commit_is_found_by_author_time() {
    // x was amended into x2: same author time, new committer time.
    let commits = vec![commit("x2", Some("base"), 500, 100)];
    let x = CommitIdentity {
        author_time: t(100),
        summary: String::new(),
        first_parent: Some("base".into()),
    };
    assert_eq!(
        attach(&commits, Some(&boundary("base", "x")), t(90), Some(&x)),
        (Some("x2".into()), Some(Attachment::Inferred))
    );
    // Two commits in the same second: the summary tells them apart, and
    // a rebase (new parent, same summary) is still recognised.
    let mut a = commit("a2", Some("base"), 500, 100);
    a.summary = "A".into();
    let mut b = commit("b2", Some("a2"), 501, 100);
    b.summary = "B".into();
    let commits = vec![a, b];
    let original_b = CommitIdentity {
        author_time: t(100),
        summary: "B".into(),
        first_parent: Some("old-a".into()),
    };
    assert_eq!(
        attach(&commits, Some(&boundary("old-a", "b")), t(90), Some(&original_b)).0,
        Some("b2".into())
    );
}

#[test]
fn without_a_boundary_the_next_commit_in_time_is_used() {
    let commits = vec![
        commit("a", None, 100, 100),
        commit("b", Some("a"), 300, 300),
    ];
    assert_eq!(
        attach(&commits, None, t(200), None),
        (Some("b".into()), Some(Attachment::Inferred))
    );
    assert_eq!(attach(&commits, None, t(50), None).0, Some("a".into()));
    // Work after the last commit is uncommitted.
    assert_eq!(attach(&commits, None, t(400), None), (None, None));
    // A commit that no checkpoint precedes simply has none: nothing to
    // assert here beyond "a" never claiming the later checkpoint.
}
