//! `trail review`: how a worktree came to be.
//!
//! The review of a worktree is a list of sections in reading order: one per
//! commit since the baseline, then the working tree. Each section owns the
//! checkpoints that were work towards it (see `trail::attach`) and its own
//! file list:
//!
//! ```text
//! Worktree
//!   Commit / Working tree      (section)
//!     Checkpoint               (how it was made)
//!       File → checkpoint diff (before checkpoint → after checkpoint)
//!     File   → commit diff     (parent tree → commit tree)
//! ```
//!
//! Sessions are the recorder's storage unit and never appear here.
//! Everything is computed once, in this module; text, JSON and the
//! interactive browser only render it.

pub mod assemble;
pub mod diff;
pub mod diff_laws;
pub mod laws;
pub mod section_laws;
pub mod select;
pub mod select_laws;

pub use assemble::{build, commit_review};
pub use diff::unified_diff;
pub use select::{
    blob_at_commit, checkpoint_file_diff, commit_file_diff, diff_for, file_diff, section_of_commit, select,
    working_tree_file_diff, DiffTarget, FileDiffReport, Selected,
};

use crate::data::Dup;
use crate::git::diff::{or_zero, stats_text, ChangeKind as GitChangeKind, LineStats};
use crate::path;
use crate::recorder::checkpoint::ChangeKind;
use crate::text;
use crate::time::Timestamp;
use crate::trail::{RepositoryContext, RepositoryContextView};
use crate::trail::event::Attachment;
use vstd::prelude::*;

verus! {

/// JSON schema version of [`WorktreeReview`]. Version 1 was a flat list of
/// checkpoints; 2 adds sections and keeps the flat list for compatibility.
pub const REVIEW_VERSION: u32 = 2;

/// The worktree under review.
#[derive(Debug, Clone, PartialEq, Eq)]
pub struct ReviewWorktree {
    pub id: String,
    pub path: String,
    pub branch: Option<String>,
    /// False for a worktree that was removed: git and recorded history only.
    pub exists: bool,
    /// The worktree trail was invoked from.
    pub current: bool,
}

#[derive(Debug, Clone, Copy, PartialEq, Eq, Structural)]
pub struct ReviewSummary {
    pub commits: usize,
    pub checkpoints: usize,
    pub uncommitted_checkpoints: usize,
    /// Distinct files across commit diffs and the working tree.
    pub files_changed: usize,
    /// Sum of commit diffs and the working tree diff.
    pub stats: LineStats,
}

#[derive(Debug, Clone, PartialEq, Eq)]
pub struct ReviewFile {
    pub path: String,
    pub kind: ChangeKind,
    pub from_path: Option<String>,
    pub before_hash: Option<String>,
    pub after_hash: Option<String>,
    /// `None` when the diff could not be computed (binary or no snapshot).
    pub additions: Option<u64>,
    pub deletions: Option<u64>,
    pub binary: bool,
    /// Both sides of the diff are available in the object database.
    pub snapshot: bool,
    pub edits: u32,
}

#[derive(Debug, Clone, PartialEq, Eq)]
pub struct ReviewCheckpoint {
    /// Section the checkpoint belongs to.
    pub section: usize,
    /// 1-based position inside its section.
    pub number: usize,
    /// "section.number", the selector shown to the user.
    pub label: String,
    pub id: String,
    pub title: Option<String>,
    pub annotation: Option<String>,
    pub started_at: Timestamp,
    pub ended_at: Timestamp,
    pub bulk: bool,
    /// How it was tied to its commit; `None` for the working tree.
    pub attachment: Option<Attachment>,
    pub files: Vec<ReviewFile>,
    pub stats: LineStats,
}

/// One file of a commit diff.
#[derive(Debug, Clone, PartialEq, Eq)]
pub struct CommitFile {
    pub path: String,
    pub old_path: Option<String>,
    pub kind: GitChangeKind,
    pub before_id: Option<String>,
    pub after_id: Option<String>,
    pub additions: Option<u64>,
    pub deletions: Option<u64>,
    pub binary: bool,
}

/// One commit and the checkpoints that led to it.
#[derive(Debug, Clone, PartialEq, Eq)]
pub struct CommitReview {
    /// 1-based position among the sections.
    pub number: usize,
    pub id: String,
    pub short_id: String,
    pub summary: String,
    pub author: String,
    pub time: Timestamp,
    pub is_merge: bool,
    /// The parent the diff is computed against: the first parent, also for
    /// merges (a merge shows what it brought onto this branch).
    pub diff_parent: Option<String>,
    /// How it was made.
    pub checkpoints: Vec<ReviewCheckpoint>,
    /// What was confirmed: parent tree → commit tree.
    pub files: Vec<CommitFile>,
    pub stats: LineStats,
}

#[derive(Debug, Clone, PartialEq, Eq)]
pub struct WorkingTreeFile {
    pub path: String,
    pub old_path: Option<String>,
    pub kind: GitChangeKind,
    pub staged: bool,
    pub unstaged: bool,
    pub untracked: bool,
    pub additions: Option<u64>,
    pub deletions: Option<u64>,
    pub binary: bool,
}

/// Changes since HEAD: what is not committed yet.
#[derive(Debug, Clone, PartialEq, Eq)]
pub struct WorkingTreeReview {
    pub number: usize,
    /// False for a removed worktree: no working tree state can be read.
    pub available: bool,
    pub checkpoints: Vec<ReviewCheckpoint>,
    pub files: Vec<WorkingTreeFile>,
    pub staged: usize,
    pub unstaged: usize,
    pub untracked: usize,
    pub stats: LineStats,
}

#[derive(Debug, Clone, PartialEq, Eq)]
pub enum ReviewSection {
    Commit(CommitReview),
    WorkingTree(WorkingTreeReview),
}

#[derive(Debug, Clone, PartialEq, Eq)]
pub struct WorktreeReview {
    pub version: u32,
    pub repository: RepositoryContext,
    pub worktree: ReviewWorktree,
    /// Commits oldest first, then the working tree.
    pub sections: Vec<ReviewSection>,
    /// Every visible checkpoint in reading order (version 1 shape).
    pub checkpoints: Vec<ReviewCheckpoint>,
    pub summary: ReviewSummary,
    /// Distinct files across all checkpoints (version 1 field).
    pub files_changed: usize,
    /// Sum of all checkpoint diffs (version 1 field).
    pub stats: LineStats,
}

/// One line of a file list, the same for every kind of file.
#[derive(Debug, Clone, PartialEq, Eq)]
pub struct FileRow {
    pub mark: String,
    pub path: String,
    pub name: String,
    /// "+3 -1", "binary", "snapshot unavailable", ...
    pub stat: String,
    /// "staged", "untracked", ... (working tree only).
    pub state: Option<String>,
}

/// What a [`ReviewWorktree`] denotes.
#[verifier::ext_equal]
pub struct ReviewWorktreeView {
    pub id: Seq<char>,
    pub path: Seq<char>,
    pub branch: Option<Seq<char>>,
    pub exists: bool,
    pub current: bool,
}

impl DeepView for ReviewWorktree {
    type V = ReviewWorktreeView;

    open spec fn deep_view(&self) -> ReviewWorktreeView {
        ReviewWorktreeView {
            id: self.id.deep_view(),
            path: self.path.deep_view(),
            branch: self.branch.deep_view(),
            exists: self.exists.deep_view(),
            current: self.current.deep_view(),
        }
    }
}

impl Dup for ReviewWorktree {
    fn dup(&self) -> (r: ReviewWorktree) {
        ReviewWorktree {
            id: self.id.dup(),
            path: self.path.dup(),
            branch: self.branch.dup(),
            exists: self.exists.dup(),
            current: self.current.dup(),
        }
    }
}

impl DeepView for ReviewSummary {
    type V = ReviewSummary;

    open spec fn deep_view(&self) -> ReviewSummary {
        *self
    }
}

impl Dup for ReviewSummary {
    fn dup(&self) -> (r: ReviewSummary) {
        *self
    }
}

impl Default for ReviewSummary {
    fn default() -> (r: ReviewSummary)
        ensures
            r.commits == 0,
            r.checkpoints == 0,
            r.uncommitted_checkpoints == 0,
            r.files_changed == 0,
            r.stats == (LineStats { additions: 0, deletions: 0 }),
    {
        ReviewSummary {
            commits: 0,
            checkpoints: 0,
            uncommitted_checkpoints: 0,
            files_changed: 0,
            stats: LineStats { additions: 0, deletions: 0 },
        }
    }
}

/// What a [`ReviewFile`] denotes.
#[verifier::ext_equal]
pub struct ReviewFileView {
    pub path: Seq<char>,
    pub kind: ChangeKind,
    pub from_path: Option<Seq<char>>,
    pub before_hash: Option<Seq<char>>,
    pub after_hash: Option<Seq<char>>,
    pub additions: Option<u64>,
    pub deletions: Option<u64>,
    pub binary: bool,
    pub snapshot: bool,
    pub edits: u32,
}

impl DeepView for ReviewFile {
    type V = ReviewFileView;

    open spec fn deep_view(&self) -> ReviewFileView {
        ReviewFileView {
            path: self.path.deep_view(),
            kind: self.kind.deep_view(),
            from_path: self.from_path.deep_view(),
            before_hash: self.before_hash.deep_view(),
            after_hash: self.after_hash.deep_view(),
            additions: self.additions.deep_view(),
            deletions: self.deletions.deep_view(),
            binary: self.binary.deep_view(),
            snapshot: self.snapshot.deep_view(),
            edits: self.edits.deep_view(),
        }
    }
}

impl Dup for ReviewFile {
    fn dup(&self) -> (r: ReviewFile) {
        ReviewFile {
            path: self.path.dup(),
            kind: self.kind.dup(),
            from_path: self.from_path.dup(),
            before_hash: self.before_hash.dup(),
            after_hash: self.after_hash.dup(),
            additions: self.additions.dup(),
            deletions: self.deletions.dup(),
            binary: self.binary.dup(),
            snapshot: self.snapshot.dup(),
            edits: self.edits.dup(),
        }
    }
}

/// What a [`ReviewCheckpoint`] denotes.
#[verifier::ext_equal]
pub struct ReviewCheckpointView {
    pub section: usize,
    pub number: usize,
    pub label: Seq<char>,
    pub id: Seq<char>,
    pub title: Option<Seq<char>>,
    pub annotation: Option<Seq<char>>,
    pub started_at: Timestamp,
    pub ended_at: Timestamp,
    pub bulk: bool,
    pub attachment: Option<Attachment>,
    pub files: Seq<ReviewFileView>,
    pub stats: LineStats,
}

impl DeepView for ReviewCheckpoint {
    type V = ReviewCheckpointView;

    open spec fn deep_view(&self) -> ReviewCheckpointView {
        ReviewCheckpointView {
            section: self.section.deep_view(),
            number: self.number.deep_view(),
            label: self.label.deep_view(),
            id: self.id.deep_view(),
            title: self.title.deep_view(),
            annotation: self.annotation.deep_view(),
            started_at: self.started_at.deep_view(),
            ended_at: self.ended_at.deep_view(),
            bulk: self.bulk.deep_view(),
            attachment: self.attachment.deep_view(),
            files: self.files.deep_view(),
            stats: self.stats.deep_view(),
        }
    }
}

impl Dup for ReviewCheckpoint {
    fn dup(&self) -> (r: ReviewCheckpoint) {
        ReviewCheckpoint {
            section: self.section.dup(),
            number: self.number.dup(),
            label: self.label.dup(),
            id: self.id.dup(),
            title: self.title.dup(),
            annotation: self.annotation.dup(),
            started_at: self.started_at.dup(),
            ended_at: self.ended_at.dup(),
            bulk: self.bulk.dup(),
            attachment: self.attachment.dup(),
            files: self.files.dup(),
            stats: self.stats.dup(),
        }
    }
}

/// What a [`CommitFile`] denotes.
#[verifier::ext_equal]
pub struct CommitFileView {
    pub path: Seq<char>,
    pub old_path: Option<Seq<char>>,
    pub kind: GitChangeKind,
    pub before_id: Option<Seq<char>>,
    pub after_id: Option<Seq<char>>,
    pub additions: Option<u64>,
    pub deletions: Option<u64>,
    pub binary: bool,
}

impl DeepView for CommitFile {
    type V = CommitFileView;

    open spec fn deep_view(&self) -> CommitFileView {
        CommitFileView {
            path: self.path.deep_view(),
            old_path: self.old_path.deep_view(),
            kind: self.kind.deep_view(),
            before_id: self.before_id.deep_view(),
            after_id: self.after_id.deep_view(),
            additions: self.additions.deep_view(),
            deletions: self.deletions.deep_view(),
            binary: self.binary.deep_view(),
        }
    }
}

impl Dup for CommitFile {
    fn dup(&self) -> (r: CommitFile) {
        CommitFile {
            path: self.path.dup(),
            old_path: self.old_path.dup(),
            kind: self.kind.dup(),
            before_id: self.before_id.dup(),
            after_id: self.after_id.dup(),
            additions: self.additions.dup(),
            deletions: self.deletions.dup(),
            binary: self.binary.dup(),
        }
    }
}

/// What a [`CommitReview`] denotes.
#[verifier::ext_equal]
pub struct CommitReviewView {
    pub number: usize,
    pub id: Seq<char>,
    pub short_id: Seq<char>,
    pub summary: Seq<char>,
    pub author: Seq<char>,
    pub time: Timestamp,
    pub is_merge: bool,
    pub diff_parent: Option<Seq<char>>,
    pub checkpoints: Seq<ReviewCheckpointView>,
    pub files: Seq<CommitFileView>,
    pub stats: LineStats,
}

impl DeepView for CommitReview {
    type V = CommitReviewView;

    open spec fn deep_view(&self) -> CommitReviewView {
        CommitReviewView {
            number: self.number.deep_view(),
            id: self.id.deep_view(),
            short_id: self.short_id.deep_view(),
            summary: self.summary.deep_view(),
            author: self.author.deep_view(),
            time: self.time.deep_view(),
            is_merge: self.is_merge.deep_view(),
            diff_parent: self.diff_parent.deep_view(),
            checkpoints: self.checkpoints.deep_view(),
            files: self.files.deep_view(),
            stats: self.stats.deep_view(),
        }
    }
}

impl Dup for CommitReview {
    fn dup(&self) -> (r: CommitReview) {
        CommitReview {
            number: self.number.dup(),
            id: self.id.dup(),
            short_id: self.short_id.dup(),
            summary: self.summary.dup(),
            author: self.author.dup(),
            time: self.time.dup(),
            is_merge: self.is_merge.dup(),
            diff_parent: self.diff_parent.dup(),
            checkpoints: self.checkpoints.dup(),
            files: self.files.dup(),
            stats: self.stats.dup(),
        }
    }
}

/// What a [`WorkingTreeFile`] denotes.
#[verifier::ext_equal]
pub struct WorkingTreeFileView {
    pub path: Seq<char>,
    pub old_path: Option<Seq<char>>,
    pub kind: GitChangeKind,
    pub staged: bool,
    pub unstaged: bool,
    pub untracked: bool,
    pub additions: Option<u64>,
    pub deletions: Option<u64>,
    pub binary: bool,
}

impl DeepView for WorkingTreeFile {
    type V = WorkingTreeFileView;

    open spec fn deep_view(&self) -> WorkingTreeFileView {
        WorkingTreeFileView {
            path: self.path.deep_view(),
            old_path: self.old_path.deep_view(),
            kind: self.kind.deep_view(),
            staged: self.staged.deep_view(),
            unstaged: self.unstaged.deep_view(),
            untracked: self.untracked.deep_view(),
            additions: self.additions.deep_view(),
            deletions: self.deletions.deep_view(),
            binary: self.binary.deep_view(),
        }
    }
}

impl Dup for WorkingTreeFile {
    fn dup(&self) -> (r: WorkingTreeFile) {
        WorkingTreeFile {
            path: self.path.dup(),
            old_path: self.old_path.dup(),
            kind: self.kind.dup(),
            staged: self.staged.dup(),
            unstaged: self.unstaged.dup(),
            untracked: self.untracked.dup(),
            additions: self.additions.dup(),
            deletions: self.deletions.dup(),
            binary: self.binary.dup(),
        }
    }
}

/// What a [`WorkingTreeReview`] denotes.
#[verifier::ext_equal]
pub struct WorkingTreeReviewView {
    pub number: usize,
    pub available: bool,
    pub checkpoints: Seq<ReviewCheckpointView>,
    pub files: Seq<WorkingTreeFileView>,
    pub staged: usize,
    pub unstaged: usize,
    pub untracked: usize,
    pub stats: LineStats,
}

impl DeepView for WorkingTreeReview {
    type V = WorkingTreeReviewView;

    open spec fn deep_view(&self) -> WorkingTreeReviewView {
        WorkingTreeReviewView {
            number: self.number.deep_view(),
            available: self.available.deep_view(),
            checkpoints: self.checkpoints.deep_view(),
            files: self.files.deep_view(),
            staged: self.staged.deep_view(),
            unstaged: self.unstaged.deep_view(),
            untracked: self.untracked.deep_view(),
            stats: self.stats.deep_view(),
        }
    }
}

impl Dup for WorkingTreeReview {
    fn dup(&self) -> (r: WorkingTreeReview) {
        WorkingTreeReview {
            number: self.number.dup(),
            available: self.available.dup(),
            checkpoints: self.checkpoints.dup(),
            files: self.files.dup(),
            staged: self.staged.dup(),
            unstaged: self.unstaged.dup(),
            untracked: self.untracked.dup(),
            stats: self.stats.dup(),
        }
    }
}

/// What a [`ReviewSection`] denotes.
#[verifier::ext_equal]
pub enum ReviewSectionView {
    Commit(CommitReviewView),
    WorkingTree(WorkingTreeReviewView),
}

impl DeepView for ReviewSection {
    type V = ReviewSectionView;

    open spec fn deep_view(&self) -> ReviewSectionView {
        match *self {
            ReviewSection::Commit(x) => ReviewSectionView::Commit(x.deep_view()),
            ReviewSection::WorkingTree(x) => ReviewSectionView::WorkingTree(x.deep_view()),
        }
    }
}

impl Dup for ReviewSection {
    fn dup(&self) -> (r: ReviewSection) {
        match self {
            ReviewSection::Commit(x) => ReviewSection::Commit(x.dup()),
            ReviewSection::WorkingTree(x) => ReviewSection::WorkingTree(x.dup()),
        }
    }
}

/// What a [`WorktreeReview`] denotes.
#[verifier::ext_equal]
pub struct WorktreeReviewView {
    pub version: u32,
    pub repository: RepositoryContextView,
    pub worktree: ReviewWorktreeView,
    pub sections: Seq<ReviewSectionView>,
    pub checkpoints: Seq<ReviewCheckpointView>,
    pub summary: ReviewSummary,
    pub files_changed: usize,
    pub stats: LineStats,
}

impl DeepView for WorktreeReview {
    type V = WorktreeReviewView;

    open spec fn deep_view(&self) -> WorktreeReviewView {
        WorktreeReviewView {
            version: self.version.deep_view(),
            repository: self.repository.deep_view(),
            worktree: self.worktree.deep_view(),
            sections: self.sections.deep_view(),
            checkpoints: self.checkpoints.deep_view(),
            summary: self.summary.deep_view(),
            files_changed: self.files_changed.deep_view(),
            stats: self.stats.deep_view(),
        }
    }
}

impl Dup for WorktreeReview {
    fn dup(&self) -> (r: WorktreeReview) {
        WorktreeReview {
            version: self.version.dup(),
            repository: self.repository.dup(),
            worktree: self.worktree.dup(),
            sections: self.sections.dup(),
            checkpoints: self.checkpoints.dup(),
            summary: self.summary.dup(),
            files_changed: self.files_changed.dup(),
            stats: self.stats.dup(),
        }
    }
}

/// What a [`FileRow`] denotes.
#[verifier::ext_equal]
pub struct FileRowView {
    pub mark: Seq<char>,
    pub path: Seq<char>,
    pub name: Seq<char>,
    pub stat: Seq<char>,
    pub state: Option<Seq<char>>,
}

impl DeepView for FileRow {
    type V = FileRowView;

    open spec fn deep_view(&self) -> FileRowView {
        FileRowView {
            mark: self.mark.deep_view(),
            path: self.path.deep_view(),
            name: self.name.deep_view(),
            stat: self.stat.deep_view(),
            state: self.state.deep_view(),
        }
    }
}

impl Dup for FileRow {
    fn dup(&self) -> (r: FileRow) {
        FileRow {
            mark: self.mark.dup(),
            path: self.path.dup(),
            name: self.name.dup(),
            stat: self.stat.dup(),
            state: self.state.dup(),
        }
    }
}

// ---------------------------------------------------------------------------
// Rows
/// `old -> new` for renames, the path alone otherwise.
pub open spec fn name_text(path: Seq<char>, from: Option<Seq<char>>) -> Seq<char> {
    match from {
        Some(from) => from + " -> "@ + path,
        None => path,
    }
}

/// `old -> new` for renames, the path alone otherwise.
pub fn name_of(path: &str, from: &Option<String>) -> (r: String)
    ensures
        r@ == name_text(path@, from.deep_view()),
{
    match from {
        Some(from) => text::cat3(from, " -> ", path),
        None => path.to_owned(),
    }
}

pub open spec fn git_mark_text(kind: GitChangeKind) -> Seq<char> {
    match kind {
        GitChangeKind::Added | GitChangeKind::Copied => "+"@,
        GitChangeKind::Deleted => "-"@,
        GitChangeKind::Renamed => ">"@,
        _ => "~"@,
    }
}

fn git_mark(kind: GitChangeKind) -> (r: &'static str)
    ensures
        r@ == git_mark_text(kind),
{
    match kind {
        GitChangeKind::Added => "+",
        GitChangeKind::Copied => "+",
        GitChangeKind::Deleted => "-",
        GitChangeKind::Renamed => ">",
        _ => "~",
    }
}

pub open spec fn counts_text(
    binary: bool,
    additions: Option<u64>,
    deletions: Option<u64>,
) -> Seq<char> {
    if binary {
        "binary"@
    } else {
        stats_text(LineStats { additions: or_zero(additions), deletions: or_zero(deletions) })
    }
}

fn stat_text(binary: bool, additions: Option<u64>, deletions: Option<u64>) -> (r: String)
    ensures
        r@ == counts_text(binary, additions, deletions),
{
    if binary {
        "binary".to_owned()
    } else {
        LineStats::from_counts(additions, deletions).to_string()
    }
}

impl CommitFileView {
    pub open spec fn as_row(self) -> FileRowView {
        FileRowView {
            mark: git_mark_text(self.kind),
            path: self.path,
            name: name_text(self.path, self.old_path),
            stat: counts_text(self.binary, self.additions, self.deletions),
            state: None,
        }
    }
}

impl CommitFile {
    pub fn row(&self) -> (r: FileRow)
        ensures
            r.deep_view() == self.deep_view().as_row(),
    {
        FileRow {
            mark: git_mark(self.kind).to_owned(),
            path: self.path.dup(),
            name: name_of(&self.path, &self.old_path),
            stat: stat_text(self.binary, self.additions, self.deletions),
            state: None,
        }
    }
}

pub open spec fn state_text(untracked: bool, staged: bool, unstaged: bool) -> Seq<char> {
    if untracked {
        "untracked"@
    } else if staged && unstaged {
        "staged, unstaged"@
    } else if staged {
        "staged"@
    } else {
        "unstaged"@
    }
}

impl WorkingTreeFileView {
    pub open spec fn as_row(self) -> FileRowView {
        FileRowView {
            mark: git_mark_text(self.kind),
            path: self.path,
            name: name_text(self.path, self.old_path),
            stat: counts_text(self.binary, self.additions, self.deletions),
            state: Some(state_text(self.untracked, self.staged, self.unstaged)),
        }
    }
}

impl WorkingTreeFile {
    pub fn row(&self) -> (r: FileRow)
        ensures
            r.deep_view() == self.deep_view().as_row(),
    {
        let state: &str = if self.untracked {
            "untracked"
        } else if self.staged && self.unstaged {
            "staged, unstaged"
        } else if self.staged {
            "staged"
        } else {
            "unstaged"
        };
        FileRow {
            mark: git_mark(self.kind).to_owned(),
            path: self.path.dup(),
            name: name_of(&self.path, &self.old_path),
            stat: stat_text(self.binary, self.additions, self.deletions),
            state: Some(state.to_owned()),
        }
    }
}

impl ReviewFileView {
    pub open spec fn as_row(self) -> FileRowView {
        FileRowView {
            mark: self.kind.mark_text(),
            path: self.path,
            name: name_text(self.path, self.from_path),
            stat: if !self.snapshot {
                "snapshot unavailable"@
            } else {
                counts_text(self.binary, self.additions, self.deletions)
            },
            state: None,
        }
    }
}

impl ReviewFile {
    pub fn row(&self) -> (r: FileRow)
        ensures
            r.deep_view() == self.deep_view().as_row(),
    {
        FileRow {
            mark: self.kind.mark().to_owned(),
            path: self.path.dup(),
            name: name_of(&self.path, &self.from_path),
            stat: if !self.snapshot {
                "snapshot unavailable".to_owned()
            } else {
                stat_text(self.binary, self.additions, self.deletions)
            },
            state: None,
        }
    }
}

impl ReviewCheckpointView {
    /// The human title, or "Checkpoint <label>" when none was given.
    pub open spec fn shown_title(self) -> Seq<char> {
        match self.title {
            Some(t) => t,
            None => "Checkpoint "@ + self.label,
        }
    }

    pub open spec fn rows(self) -> Seq<FileRowView> {
        self.files.map_values(|f: ReviewFileView| f.as_row())
    }
}

impl ReviewCheckpoint {
    /// The human title, or "Checkpoint <label>" when none was given.
    pub fn display_title(&self) -> (r: String)
        ensures
            r@ == self.deep_view().shown_title(),
    {
        match &self.title {
            Some(t) => t.dup(),
            None => text::cat2("Checkpoint ", &self.label),
        }
    }

    pub fn file_rows(&self) -> (r: Vec<FileRow>)
        ensures
            r.deep_view() == self.deep_view().rows(),
    {
        let ghost want = self.deep_view().rows();
        let mut out: Vec<FileRow> = Vec::new();
        let mut k: usize = 0;
        while k < self.files.len()
            invariant
                k <= self.files.len(),
                want == self.deep_view().rows(),
                out.deep_view() =~= want.take(k as int),
            decreases self.files.len() - k,
        {
            let ghost was = out.deep_view();
            out.push(self.files[k].row());
            assert(out.deep_view() =~= was.push(want[k as int]));
            k += 1;
        }
        assert(want.take(k as int) =~= want);
        out
    }
}

impl ReviewSectionView {
    pub open spec fn at(self) -> usize {
        match self {
            ReviewSectionView::Commit(c) => c.number,
            ReviewSectionView::WorkingTree(w) => w.number,
        }
    }

    pub open spec fn steps(self) -> Seq<ReviewCheckpointView> {
        match self {
            ReviewSectionView::Commit(c) => c.checkpoints,
            ReviewSectionView::WorkingTree(w) => w.checkpoints,
        }
    }

    pub open spec fn total(self) -> LineStats {
        match self {
            ReviewSectionView::Commit(c) => c.stats,
            ReviewSectionView::WorkingTree(w) => w.stats,
        }
    }

    /// "a82fbc1 Add auth service" or "Working tree".
    pub open spec fn title(self) -> Seq<char> {
        match self {
            ReviewSectionView::Commit(c) => c.short_id + " "@ + c.summary,
            ReviewSectionView::WorkingTree(_) => "Working tree"@,
        }
    }

    /// The section's own files (commit diff or working tree state).
    pub open spec fn rows(self) -> Seq<FileRowView> {
        match self {
            ReviewSectionView::Commit(c) => c.files.map_values(|f: CommitFileView| f.as_row()),
            ReviewSectionView::WorkingTree(w) => w.files.map_values(
                |f: WorkingTreeFileView| f.as_row(),
            ),
        }
    }
}

impl ReviewSection {
    /// A section has no more checkpoints than can be counted.
    pub proof fn lemma_steps_len(&self)
        ensures
            self.deep_view().steps().len() <= usize::MAX,
    {
        match self {
            ReviewSection::Commit(c) => {
                assert(c.checkpoints.deep_view().len() == c.checkpoints.len());
            },
            ReviewSection::WorkingTree(w) => {
                assert(w.checkpoints.deep_view().len() == w.checkpoints.len());
            },
        }
    }

    pub fn number(&self) -> (r: usize)
        ensures
            r == self.deep_view().at(),
    {
        match self {
            ReviewSection::Commit(c) => c.number,
            ReviewSection::WorkingTree(w) => w.number,
        }
    }

    pub fn checkpoints(&self) -> (r: &Vec<ReviewCheckpoint>)
        ensures
            r.deep_view() == self.deep_view().steps(),
    {
        match self {
            ReviewSection::Commit(c) => &c.checkpoints,
            ReviewSection::WorkingTree(w) => &w.checkpoints,
        }
    }

    pub fn stats(&self) -> (r: LineStats)
        ensures
            r == self.deep_view().total(),
    {
        match self {
            ReviewSection::Commit(c) => c.stats,
            ReviewSection::WorkingTree(w) => w.stats,
        }
    }

    /// "a82fbc1 Add auth service" or "Working tree".
    pub fn heading(&self) -> (r: String)
        ensures
            r@ == self.deep_view().title(),
    {
        match self {
            ReviewSection::Commit(c) => text::cat3(&c.short_id, " ", &c.summary),
            ReviewSection::WorkingTree(_) => "Working tree".to_owned(),
        }
    }

    /// The section's own files (commit diff or working tree state).
    pub fn file_rows(&self) -> (r: Vec<FileRow>)
        ensures
            r.deep_view() == self.deep_view().rows(),
    {
        let ghost want = self.deep_view().rows();
        let mut out: Vec<FileRow> = Vec::new();
        match self {
            ReviewSection::Commit(c) => {
                let mut k: usize = 0;
                while k < c.files.len()
                    invariant
                        k <= c.files.len(),
                        want == c.deep_view().files.map_values(|f: CommitFileView| f.as_row()),
                        out.deep_view() =~= want.take(k as int),
                    decreases c.files.len() - k,
                {
                    let ghost was = out.deep_view();
                    out.push(c.files[k].row());
                    assert(out.deep_view() =~= was.push(want[k as int]));
                    k += 1;
                }
                assert(want.take(k as int) =~= want);
            },
            ReviewSection::WorkingTree(w) => {
                let mut k: usize = 0;
                while k < w.files.len()
                    invariant
                        k <= w.files.len(),
                        want == w.deep_view().files.map_values(
                            |f: WorkingTreeFileView| f.as_row(),
                        ),
                        out.deep_view() =~= want.take(k as int),
                    decreases w.files.len() - k,
                {
                    let ghost was = out.deep_view();
                    out.push(w.files[k].row());
                    assert(out.deep_view() =~= was.push(want[k as int]));
                    k += 1;
                }
                assert(want.take(k as int) =~= want);
            },
        }
        out
    }

    pub fn as_commit(&self) -> (r: Option<&CommitReview>)
        ensures
            r.deep_view() == (match self.deep_view() {
                ReviewSectionView::Commit(c) => Some(c),
                ReviewSectionView::WorkingTree(_) => None,
            }),
    {
        match self {
            ReviewSection::Commit(c) => Some(c),
            ReviewSection::WorkingTree(_) => None,
        }
    }
}

} // verus!
