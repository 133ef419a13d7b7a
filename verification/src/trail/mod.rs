//! Domain model of a Development Trail.
//!
//! Everything here is plain data, so every way of showing a trail consumes
//! exactly the same structures.

pub mod attach;
pub mod builder;
pub mod event;
pub mod laws;
pub mod report_laws;
pub mod reports;
pub mod timeline_laws;
pub mod worktree_laws;
pub mod worktrees;

use crate::data::Dup;
use crate::git::baseline::{Baseline, BaselineView};
use crate::git::diff::{ChangeKind, FileStat, FileStatView, LineStats, StatusEntry, StatusEntryView};
use crate::git::history::{CommitInfo, CommitInfoView, FileCommit, FileCommitView};
use crate::git::repository::{HeadState, HeadStateView};
use crate::git::worktree::{WorktreeInfo, WorktreeInfoView};
use crate::recorder::checkpoint;
use crate::time::Timestamp;
use event::{TrailEvent, TrailEventView};
use vstd::prelude::*;

verus! {

/// Facts about where the trail was recorded.
#[derive(Debug, Clone, PartialEq, Eq)]
pub struct RepositoryContext {
    pub name: String,
    pub head: HeadState,
    pub base: String,
    pub merge_base: String,
    /// Where the trail starts.
    pub since: Baseline,
    pub worktree: WorktreeInfo,
    pub shallow: bool,
}

#[derive(Debug, Clone, Copy, PartialEq, Eq, Structural)]
pub struct TrailSummary {
    /// Number of change events (commits, checkpoints and working tree changes).
    pub changes: usize,
    /// Distinct files that differ between the merge base and the working tree.
    pub files_changed: usize,
    pub additions: u64,
    pub deletions: u64,
    pub commits: usize,
    pub checkpoints: usize,
    /// Checkpoints that belong to no commit yet.
    pub uncommitted_checkpoints: usize,
}

impl Default for TrailSummary {
    fn default() -> (r: TrailSummary)
        ensures
            r == (TrailSummary {
                changes: 0,
                files_changed: 0,
                additions: 0,
                deletions: 0,
                commits: 0,
                checkpoints: 0,
                uncommitted_checkpoints: 0,
            }),
    {
        TrailSummary {
            changes: 0,
            files_changed: 0,
            additions: 0,
            deletions: 0,
            commits: 0,
            checkpoints: 0,
            uncommitted_checkpoints: 0,
        }
    }
}

#[derive(Debug, Clone, PartialEq, Eq)]
pub struct Trail {
    pub repository: RepositoryContext,
    /// Chronological, oldest first. Events without a timestamp come last.
    pub events: Vec<TrailEvent>,
    pub summary: TrailSummary,
}

#[derive(Debug, Clone, Copy, PartialEq, Eq, Structural)]
pub struct StatusCounts {
    pub modified: usize,
    pub added: usize,
    pub deleted: usize,
    pub renamed: usize,
    pub type_changed: usize,
    pub conflicted: usize,
    pub untracked: usize,
    pub staged: usize,
    pub unstaged: usize,
}

#[derive(Debug, Clone, PartialEq, Eq)]
pub struct StatusReport {
    pub repository: RepositoryContext,
    pub counts: StatusCounts,
    /// Working tree vs HEAD (staged + unstaged + untracked).
    pub stats: LineStats,
    /// Commits on this branch that are not on the base.
    pub commits_ahead: usize,
    pub entries: Vec<StatusEntry>,
}

#[derive(Debug, Clone, PartialEq, Eq)]
pub struct DiffGroup {
    /// Directory the files live in ("." for the repository root).
    pub directory: String,
    pub files: Vec<FileStat>,
    pub stats: LineStats,
}

#[derive(Debug, Clone, PartialEq, Eq)]
pub struct DiffReport {
    pub repository: RepositoryContext,
    pub groups: Vec<DiffGroup>,
    pub files_changed: usize,
    pub stats: LineStats,
}

#[derive(Debug, Clone, PartialEq, Eq)]
pub struct InspectCommit {
    pub commit: FileCommit,
    /// True when the commit is on this branch but not on the base.
    pub on_branch: bool,
}

#[derive(Debug, Clone, PartialEq, Eq)]
pub struct InspectReport {
    pub repository: RepositoryContext,
    pub path: String,
    pub is_tracked: bool,
    pub exists: bool,
    pub status: Option<StatusEntry>,
    /// Working tree vs HEAD.
    pub worktree_stat: Option<FileStat>,
    /// Working tree vs merge base with the base branch.
    pub base_stat: Option<FileStat>,
    pub last_modified: Option<Timestamp>,
    pub commits: Vec<InspectCommit>,
}

/// One file that differs from the baseline.
#[derive(Debug, Clone, PartialEq, Eq)]
pub struct ChangedFile {
    pub kind: checkpoint::ChangeKind,
    pub stat: FileStat,
    /// Its state in the working tree; `None` when everything is committed.
    pub status: Option<StatusEntry>,
}

/// What changed since a baseline.
#[derive(Debug, Clone, PartialEq, Eq)]
pub struct ChangesReport {
    pub repository: RepositoryContext,
    pub commits: Vec<CommitInfo>,
    pub files: Vec<ChangedFile>,
    pub checkpoints: usize,
    pub counts: StatusCounts,
    pub stats: LineStats,
}

#[derive(Debug, Clone, PartialEq, Eq)]
pub struct SessionSummary {
    pub session_id: String,
    pub worktree_id: String,
    pub worktree_path: String,
    /// False when the worktree directory no longer exists.
    pub worktree_exists: bool,
    pub branch: Option<String>,
    pub started_at: Timestamp,
    /// `None` while the session is still open (or the recorder crashed).
    pub ended_at: Option<Timestamp>,
    pub last_activity: Timestamp,
    pub events: usize,
    pub checkpoints: usize,
    /// Whether the file contents of the session are kept.
    pub snapshots: bool,
    pub path: String,
}

#[derive(Debug, Clone, PartialEq, Eq)]
pub struct SessionsReport {
    pub repository: String,
    pub sessions: Vec<SessionSummary>,
}

/// What a [`RepositoryContext`] denotes.
#[verifier::ext_equal]
pub struct RepositoryContextView {
    pub name: Seq<char>,
    pub head: HeadStateView,
    pub base: Seq<char>,
    pub merge_base: Seq<char>,
    pub since: BaselineView,
    pub worktree: WorktreeInfoView,
    pub shallow: bool,
}

impl DeepView for RepositoryContext {
    type V = RepositoryContextView;

    open spec fn deep_view(&self) -> RepositoryContextView {
        RepositoryContextView {
            name: self.name.deep_view(),
            head: self.head.deep_view(),
            base: self.base.deep_view(),
            merge_base: self.merge_base.deep_view(),
            since: self.since.deep_view(),
            worktree: self.worktree.deep_view(),
            shallow: self.shallow.deep_view(),
        }
    }
}

impl Dup for RepositoryContext {
    fn dup(&self) -> (r: RepositoryContext) {
        RepositoryContext {
            name: self.name.dup(),
            head: self.head.dup(),
            base: self.base.dup(),
            merge_base: self.merge_base.dup(),
            since: self.since.dup(),
            worktree: self.worktree.dup(),
            shallow: self.shallow.dup(),
        }
    }
}

impl DeepView for TrailSummary {
    type V = TrailSummary;

    open spec fn deep_view(&self) -> TrailSummary {
        *self
    }
}

impl Dup for TrailSummary {
    fn dup(&self) -> (r: TrailSummary) {
        *self
    }
}

/// What a [`Trail`] denotes.
#[verifier::ext_equal]
pub struct TrailView {
    pub repository: RepositoryContextView,
    pub events: Seq<TrailEventView>,
    pub summary: TrailSummary,
}

impl DeepView for Trail {
    type V = TrailView;

    open spec fn deep_view(&self) -> TrailView {
        TrailView {
            repository: self.repository.deep_view(),
            events: self.events.deep_view(),
            summary: self.summary.deep_view(),
        }
    }
}

impl Dup for Trail {
    fn dup(&self) -> (r: Trail) {
        Trail {
            repository: self.repository.dup(),
            events: self.events.dup(),
            summary: self.summary.dup(),
        }
    }
}

impl DeepView for StatusCounts {
    type V = StatusCounts;

    open spec fn deep_view(&self) -> StatusCounts {
        *self
    }
}

impl Dup for StatusCounts {
    fn dup(&self) -> (r: StatusCounts) {
        *self
    }
}

/// What a [`StatusReport`] denotes.
#[verifier::ext_equal]
pub struct StatusReportView {
    pub repository: RepositoryContextView,
    pub counts: StatusCounts,
    pub stats: LineStats,
    pub commits_ahead: usize,
    pub entries: Seq<StatusEntryView>,
}

impl DeepView for StatusReport {
    type V = StatusReportView;

    open spec fn deep_view(&self) -> StatusReportView {
        StatusReportView {
            repository: self.repository.deep_view(),
            counts: self.counts.deep_view(),
            stats: self.stats.deep_view(),
            commits_ahead: self.commits_ahead.deep_view(),
            entries: self.entries.deep_view(),
        }
    }
}

impl Dup for StatusReport {
    fn dup(&self) -> (r: StatusReport) {
        StatusReport {
            repository: self.repository.dup(),
            counts: self.counts.dup(),
            stats: self.stats.dup(),
            commits_ahead: self.commits_ahead.dup(),
            entries: self.entries.dup(),
        }
    }
}

/// What a [`DiffGroup`] denotes.
#[verifier::ext_equal]
pub struct DiffGroupView {
    pub directory: Seq<char>,
    pub files: Seq<FileStatView>,
    pub stats: LineStats,
}

impl DeepView for DiffGroup {
    type V = DiffGroupView;

    open spec fn deep_view(&self) -> DiffGroupView {
        DiffGroupView {
            directory: self.directory.deep_view(),
            files: self.files.deep_view(),
            stats: self.stats.deep_view(),
        }
    }
}

impl Dup for DiffGroup {
    fn dup(&self) -> (r: DiffGroup) {
        DiffGroup {
            directory: self.directory.dup(),
            files: self.files.dup(),
            stats: self.stats.dup(),
        }
    }
}

/// What a [`DiffReport`] denotes.
#[verifier::ext_equal]
pub struct DiffReportView {
    pub repository: RepositoryContextView,
    pub groups: Seq<DiffGroupView>,
    pub files_changed: usize,
    pub stats: LineStats,
}

impl DeepView for DiffReport {
    type V = DiffReportView;

    open spec fn deep_view(&self) -> DiffReportView {
        DiffReportView {
            repository: self.repository.deep_view(),
            groups: self.groups.deep_view(),
            files_changed: self.files_changed.deep_view(),
            stats: self.stats.deep_view(),
        }
    }
}

impl Dup for DiffReport {
    fn dup(&self) -> (r: DiffReport) {
        DiffReport {
            repository: self.repository.dup(),
            groups: self.groups.dup(),
            files_changed: self.files_changed.dup(),
            stats: self.stats.dup(),
        }
    }
}

/// What a [`InspectCommit`] denotes.
#[verifier::ext_equal]
pub struct InspectCommitView {
    pub commit: FileCommitView,
    pub on_branch: bool,
}

impl DeepView for InspectCommit {
    type V = InspectCommitView;

    open spec fn deep_view(&self) -> InspectCommitView {
        InspectCommitView {
            commit: self.commit.deep_view(),
            on_branch: self.on_branch.deep_view(),
        }
    }
}

impl Dup for InspectCommit {
    fn dup(&self) -> (r: InspectCommit) {
        InspectCommit {
            commit: self.commit.dup(),
            on_branch: self.on_branch.dup(),
        }
    }
}

/// What a [`InspectReport`] denotes.
#[verifier::ext_equal]
pub struct InspectReportView {
    pub repository: RepositoryContextView,
    pub path: Seq<char>,
    pub is_tracked: bool,
    pub exists: bool,
    pub status: Option<StatusEntryView>,
    pub worktree_stat: Option<FileStatView>,
    pub base_stat: Option<FileStatView>,
    pub last_modified: Option<Timestamp>,
    pub commits: Seq<InspectCommitView>,
}

impl DeepView for InspectReport {
    type V = InspectReportView;

    open spec fn deep_view(&self) -> InspectReportView {
        InspectReportView {
            repository: self.repository.deep_view(),
            path: self.path.deep_view(),
            is_tracked: self.is_tracked.deep_view(),
            exists: self.exists.deep_view(),
            status: self.status.deep_view(),
            worktree_stat: self.worktree_stat.deep_view(),
            base_stat: self.base_stat.deep_view(),
            last_modified: self.last_modified.deep_view(),
            commits: self.commits.deep_view(),
        }
    }
}

impl Dup for InspectReport {
    fn dup(&self) -> (r: InspectReport) {
        InspectReport {
            repository: self.repository.dup(),
            path: self.path.dup(),
            is_tracked: self.is_tracked.dup(),
            exists: self.exists.dup(),
            status: self.status.dup(),
            worktree_stat: self.worktree_stat.dup(),
            base_stat: self.base_stat.dup(),
            last_modified: self.last_modified.dup(),
            commits: self.commits.dup(),
        }
    }
}

/// What a [`ChangedFile`] denotes.
#[verifier::ext_equal]
pub struct ChangedFileView {
    pub kind: checkpoint::ChangeKind,
    pub stat: FileStatView,
    pub status: Option<StatusEntryView>,
}

impl DeepView for ChangedFile {
    type V = ChangedFileView;

    open spec fn deep_view(&self) -> ChangedFileView {
        ChangedFileView {
            kind: self.kind.deep_view(),
            stat: self.stat.deep_view(),
            status: self.status.deep_view(),
        }
    }
}

impl Dup for ChangedFile {
    fn dup(&self) -> (r: ChangedFile) {
        ChangedFile {
            kind: self.kind.dup(),
            stat: self.stat.dup(),
            status: self.status.dup(),
        }
    }
}

/// What a [`ChangesReport`] denotes.
#[verifier::ext_equal]
pub struct ChangesReportView {
    pub repository: RepositoryContextView,
    pub commits: Seq<CommitInfoView>,
    pub files: Seq<ChangedFileView>,
    pub checkpoints: usize,
    pub counts: StatusCounts,
    pub stats: LineStats,
}

impl DeepView for ChangesReport {
    type V = ChangesReportView;

    open spec fn deep_view(&self) -> ChangesReportView {
        ChangesReportView {
            repository: self.repository.deep_view(),
            commits: self.commits.deep_view(),
            files: self.files.deep_view(),
            checkpoints: self.checkpoints.deep_view(),
            counts: self.counts.deep_view(),
            stats: self.stats.deep_view(),
        }
    }
}

impl Dup for ChangesReport {
    fn dup(&self) -> (r: ChangesReport) {
        ChangesReport {
            repository: self.repository.dup(),
            commits: self.commits.dup(),
            files: self.files.dup(),
            checkpoints: self.checkpoints.dup(),
            counts: self.counts.dup(),
            stats: self.stats.dup(),
        }
    }
}

/// What a [`SessionSummary`] denotes.
#[verifier::ext_equal]
pub struct SessionSummaryView {
    pub session_id: Seq<char>,
    pub worktree_id: Seq<char>,
    pub worktree_path: Seq<char>,
    pub worktree_exists: bool,
    pub branch: Option<Seq<char>>,
    pub started_at: Timestamp,
    pub ended_at: Option<Timestamp>,
    pub last_activity: Timestamp,
    pub events: usize,
    pub checkpoints: usize,
    pub snapshots: bool,
    pub path: Seq<char>,
}

impl DeepView for SessionSummary {
    type V = SessionSummaryView;

    open spec fn deep_view(&self) -> SessionSummaryView {
        SessionSummaryView {
            session_id: self.session_id.deep_view(),
            worktree_id: self.worktree_id.deep_view(),
            worktree_path: self.worktree_path.deep_view(),
            worktree_exists: self.worktree_exists.deep_view(),
            branch: self.branch.deep_view(),
            started_at: self.started_at.deep_view(),
            ended_at: self.ended_at.deep_view(),
            last_activity: self.last_activity.deep_view(),
            events: self.events.deep_view(),
            checkpoints: self.checkpoints.deep_view(),
            snapshots: self.snapshots.deep_view(),
            path: self.path.deep_view(),
        }
    }
}

impl Dup for SessionSummary {
    fn dup(&self) -> (r: SessionSummary) {
        SessionSummary {
            session_id: self.session_id.dup(),
            worktree_id: self.worktree_id.dup(),
            worktree_path: self.worktree_path.dup(),
            worktree_exists: self.worktree_exists.dup(),
            branch: self.branch.dup(),
            started_at: self.started_at.dup(),
            ended_at: self.ended_at.dup(),
            last_activity: self.last_activity.dup(),
            events: self.events.dup(),
            checkpoints: self.checkpoints.dup(),
            snapshots: self.snapshots.dup(),
            path: self.path.dup(),
        }
    }
}

/// What a [`SessionsReport`] denotes.
#[verifier::ext_equal]
pub struct SessionsReportView {
    pub repository: Seq<char>,
    pub sessions: Seq<SessionSummaryView>,
}

impl DeepView for SessionsReport {
    type V = SessionsReportView;

    open spec fn deep_view(&self) -> SessionsReportView {
        SessionsReportView {
            repository: self.repository.deep_view(),
            sessions: self.sessions.deep_view(),
        }
    }
}

impl Dup for SessionsReport {
    fn dup(&self) -> (r: SessionsReport) {
        SessionsReport {
            repository: self.repository.dup(),
            sessions: self.sessions.dup(),
        }
    }
}

impl Trail {
    /// Keeps the latest `n` events.
    pub fn truncate_to_latest(&mut self, n: usize)
        ensures
            final(self).deep_view() == (TrailView {
                events: latest(old(self).deep_view().events, n as nat),
                ..old(self).deep_view()
            }),
    {
        let ghost all = self.events.deep_view();
        let ghost was = self.deep_view();
        if self.events.len() > n {
            let drop: usize = self.events.len() - n;
            let kept: Vec<TrailEvent> = self.events.split_off(drop);
            assert(kept.deep_view() =~= all.skip(drop as int));
            self.events = kept;
        }
        assert(self.deep_view() =~= (TrailView { events: latest(all, n as nat), ..was }));
    }
}

/// The last `n` events, or all when there are no more.
pub open spec fn latest(events: Seq<TrailEventView>, n: nat) -> Seq<TrailEventView> {
    if events.len() > n {
        events.skip(events.len() - n)
    } else {
        events
    }
}

// ---------------------------------------------------------------------------
// Counting
/// How many entries `pred` holds of.
pub open spec fn tally(
    entries: Seq<StatusEntryView>,
    pred: spec_fn(StatusEntryView) -> bool,
) -> nat
    decreases entries.len(),
{
    if entries.len() == 0 {
        0
    } else {
        tally(entries.drop_last(), pred) + if pred(entries.last()) {
            1nat
        } else {
            0nat
        }
    }
}

/// An entry that git tracks and that counts as one of two kinds.
pub open spec fn is_kind(e: StatusEntryView, a: ChangeKind, b: ChangeKind) -> bool {
    !e.untracked && (e.effective() == a || e.effective() == b)
}

/// How many entries there are of each kind. Untracked files count as such and
/// as nothing else.
pub open spec fn counts_of(entries: Seq<StatusEntryView>) -> StatusCounts {
    StatusCounts {
        modified: tally(
            entries,
            |e: StatusEntryView| is_kind(e, ChangeKind::Modified, ChangeKind::Modified),
        ) as usize,
        added: tally(
            entries,
            |e: StatusEntryView| is_kind(e, ChangeKind::Added, ChangeKind::Copied),
        ) as usize,
        deleted: tally(
            entries,
            |e: StatusEntryView| is_kind(e, ChangeKind::Deleted, ChangeKind::Deleted),
        ) as usize,
        renamed: tally(
            entries,
            |e: StatusEntryView| is_kind(e, ChangeKind::Renamed, ChangeKind::Renamed),
        ) as usize,
        type_changed: tally(
            entries,
            |e: StatusEntryView| is_kind(e, ChangeKind::TypeChanged, ChangeKind::TypeChanged),
        ) as usize,
        conflicted: tally(
            entries,
            |e: StatusEntryView| is_kind(e, ChangeKind::Conflicted, ChangeKind::Conflicted),
        ) as usize,
        untracked: tally(entries, |e: StatusEntryView| e.untracked) as usize,
        staged: tally(entries, |e: StatusEntryView| !e.untracked && e.staged is Some) as usize,
        unstaged: tally(entries, |e: StatusEntryView| !e.untracked && e.unstaged is Some) as usize,
    }
}

impl Default for StatusCounts {
    fn default() -> (r: StatusCounts)
        ensures
            r == (StatusCounts {
                modified: 0,
                added: 0,
                deleted: 0,
                renamed: 0,
                type_changed: 0,
                conflicted: 0,
                untracked: 0,
                staged: 0,
                unstaged: 0,
            }),
    {
        StatusCounts {
            modified: 0,
            added: 0,
            deleted: 0,
            renamed: 0,
            type_changed: 0,
            conflicted: 0,
            untracked: 0,
            staged: 0,
            unstaged: 0,
        }
    }
}

proof fn lemma_tally_bound(entries: Seq<StatusEntryView>, pred: spec_fn(StatusEntryView) -> bool)
    ensures
        tally(entries, pred) <= entries.len(),
    decreases entries.len(),
{
    if entries.len() > 0 {
        lemma_tally_bound(entries.drop_last(), pred);
    }
}

/// Helper used by several reports.
pub fn kind_counts(entries: &Vec<StatusEntry>) -> (r: StatusCounts)
    ensures
        r == counts_of(entries.deep_view()),
{
    let ghost all = entries.deep_view();
    let mut counts: StatusCounts = StatusCounts::default();
    let mut k: usize = 0;
    assert(all.take(0) =~= Seq::empty());
    while k < entries.len()
        invariant
            k <= entries.len(),
            all == entries.deep_view(),
            counts == counts_of(all.take(k as int)),
        decreases entries.len() - k,
    {
        let entry: &StatusEntry = &entries[k];
        proof {
            assert(all.take(k + 1).drop_last() =~= all.take(k as int));
            assert(all.take(k + 1).last() == entry.deep_view());
            let some = all.take(k as int);
            lemma_tally_bound(
                some,
                |e: StatusEntryView| is_kind(e, ChangeKind::Modified, ChangeKind::Modified),
            );
            lemma_tally_bound(
                some,
                |e: StatusEntryView| is_kind(e, ChangeKind::Added, ChangeKind::Copied),
            );
            lemma_tally_bound(
                some,
                |e: StatusEntryView| is_kind(e, ChangeKind::Deleted, ChangeKind::Deleted),
            );
            lemma_tally_bound(
                some,
                |e: StatusEntryView| is_kind(e, ChangeKind::Renamed, ChangeKind::Renamed),
            );
            lemma_tally_bound(
                some,
                |e: StatusEntryView| is_kind(e, ChangeKind::TypeChanged, ChangeKind::TypeChanged),
            );
            lemma_tally_bound(
                some,
                |e: StatusEntryView| is_kind(e, ChangeKind::Conflicted, ChangeKind::Conflicted),
            );
            lemma_tally_bound(some, |e: StatusEntryView| e.untracked);
            lemma_tally_bound(some, |e: StatusEntryView| !e.untracked && e.staged is Some);
            lemma_tally_bound(some, |e: StatusEntryView| !e.untracked && e.unstaged is Some);
        }
        if entry.untracked {
            counts.untracked = counts.untracked + 1;
        } else {
            if entry.staged.is_some() {
                counts.staged = counts.staged + 1;
            }
            if entry.unstaged.is_some() {
                counts.unstaged = counts.unstaged + 1;
            }
            match entry.effective_kind() {
                ChangeKind::Added => {
                    counts.added = counts.added + 1;
                },
                ChangeKind::Copied => {
                    counts.added = counts.added + 1;
                },
                ChangeKind::Modified => {
                    counts.modified = counts.modified + 1;
                },
                ChangeKind::Deleted => {
                    counts.deleted = counts.deleted + 1;
                },
                ChangeKind::Renamed => {
                    counts.renamed = counts.renamed + 1;
                },
                ChangeKind::TypeChanged => {
                    counts.type_changed = counts.type_changed + 1;
                },
                ChangeKind::Conflicted => {
                    counts.conflicted = counts.conflicted + 1;
                },
            }
        }
        k += 1;
    }
    assert(all.take(k as int) =~= all);
    counts
}

/// Every entry is counted exactly once: as untracked, or as one of the kinds.
pub proof fn lemma_counts_partition(entries: Seq<StatusEntryView>)
    requires
        entries.len() <= usize::MAX,
    ensures
        ({
            let c = counts_of(entries);
            c.modified + c.added + c.deleted + c.renamed + c.type_changed + c.conflicted
                + c.untracked == entries.len()
        }),
    decreases entries.len(),
{
    if entries.len() > 0 {
        let rest = entries.drop_last();
        lemma_counts_partition(rest);
        lemma_tally_bound(
            rest,
            |e: StatusEntryView| is_kind(e, ChangeKind::Modified, ChangeKind::Modified),
        );
        lemma_tally_bound(
            rest,
            |e: StatusEntryView| is_kind(e, ChangeKind::Added, ChangeKind::Copied),
        );
        lemma_tally_bound(
            rest,
            |e: StatusEntryView| is_kind(e, ChangeKind::Deleted, ChangeKind::Deleted),
        );
        lemma_tally_bound(
            rest,
            |e: StatusEntryView| is_kind(e, ChangeKind::Renamed, ChangeKind::Renamed),
        );
        lemma_tally_bound(
            rest,
            |e: StatusEntryView| is_kind(e, ChangeKind::TypeChanged, ChangeKind::TypeChanged),
        );
        lemma_tally_bound(
            rest,
            |e: StatusEntryView| is_kind(e, ChangeKind::Conflicted, ChangeKind::Conflicted),
        );
        lemma_tally_bound(rest, |e: StatusEntryView| e.untracked);
    }
}

} // verus!
