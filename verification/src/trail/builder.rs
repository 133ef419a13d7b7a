//! Turns raw git facts and recorded sessions into `Trail`s and reports.

pub use super::reports::{
    build_changes, build_diff, build_inspect, build_sessions, build_status,
};

use super::{RepositoryContext, RepositoryContextView, Trail, TrailSummary, TrailView};
use super::attach::{as_ids, attach, attached};
use super::event::{
    Confidence, EventSource, TrailEvent, TrailEventType, TrailEventTypeView, TrailEventView,
};
use crate::data::{contains_text, Dup, Same};
use crate::git::baseline::{Baseline, BaselineView};
use crate::git::diff::{
    or_zero, sum_additions, sum_deletions, summable, ChangeKind, FileStat, FileStatView, LineStats,
    StatusEntry, StatusEntryView,
};
use crate::git::history::{
    self, CommitIdentity, CommitIdentityView, CommitInfo, CommitInfoView, ReflogEntry,
    ReflogEntryView, ReflogLine, ReflogLineView,
};
use crate::git::repository::{worktree_id_of, BaseRef, BaseRefView, Repo, RepoView};
use crate::map::TextMap;
use crate::order::{self, sorted, Order};
use crate::path;
use crate::recorder::checkpoint::{
    build_checkpoints, checkpoints_of, Checkpoint, CheckpointView, FileChange, FileChangeView,
};
use crate::recorder::metadata::{applied, Metadata, MetadataView};
use crate::recorder::store::{SessionFile, SessionFileView};
use crate::text;
use crate::time::{earlier, Timestamp};
use vstd::prelude::*;

verus! {

/// How much history to reconstruct.
#[derive(Debug, Clone, Copy, PartialEq, Eq, Structural)]
pub enum Scope {
    /// Commits since the base plus working tree changes (`trail`).
    Overview,
    /// Overview plus reflog movements (`trail history`).
    Detailed,
}

/// What a trail is built from.
#[derive(Debug, Clone, PartialEq, Eq)]
pub struct TrailFacts {
    /// The merge base with the base branch, abbreviated.
    pub short_merge_base: String,
    /// `git status` of the worktree.
    pub entries: Vec<StatusEntry>,
    /// Commits since the baseline, oldest first.
    pub commits: Vec<CommitInfo>,
    /// HEAD to working tree, with untracked files.
    pub head_stats: Vec<FileStat>,
    /// Baseline to working tree, with untracked files.
    pub base_stats: Vec<FileStat>,
    /// When files were last modified, as far as the disk says.
    pub modified: TextMap<Timestamp>,
    /// Every recorded session, oldest first.
    pub sessions: Vec<SessionFile>,
    pub metadata: Metadata,
    /// What is known of the commits that HEAD was seen to move to.
    pub identities: TextMap<CommitIdentity>,
    /// The reflog of HEAD, newest first.
    pub reflog: Vec<ReflogLine>,
    /// When the commit the trail starts at was made.
    pub since: Timestamp,
}

/// What a [`TrailFacts`] denotes.
#[verifier::ext_equal]
pub struct TrailFactsView {
    pub short_merge_base: Seq<char>,
    pub entries: Seq<StatusEntryView>,
    pub commits: Seq<CommitInfoView>,
    pub head_stats: Seq<FileStatView>,
    pub base_stats: Seq<FileStatView>,
    pub modified: Map<Seq<char>, Timestamp>,
    pub sessions: Seq<SessionFileView>,
    pub metadata: MetadataView,
    pub identities: Map<Seq<char>, CommitIdentityView>,
    pub reflog: Seq<ReflogLineView>,
    pub since: Timestamp,
}

impl DeepView for TrailFacts {
    type V = TrailFactsView;

    open spec fn deep_view(&self) -> TrailFactsView {
        TrailFactsView {
            short_merge_base: self.short_merge_base.deep_view(),
            entries: self.entries.deep_view(),
            commits: self.commits.deep_view(),
            head_stats: self.head_stats.deep_view(),
            base_stats: self.base_stats.deep_view(),
            modified: self.modified.deep_view(),
            sessions: self.sessions.deep_view(),
            metadata: self.metadata.deep_view(),
            identities: self.identities.deep_view(),
            reflog: self.reflog.deep_view(),
            since: self.since.deep_view(),
        }
    }
}

impl Dup for TrailFacts {
    fn dup(&self) -> (r: TrailFacts) {
        TrailFacts {
            short_merge_base: self.short_merge_base.dup(),
            entries: self.entries.dup(),
            commits: self.commits.dup(),
            head_stats: self.head_stats.dup(),
            base_stats: self.base_stats.dup(),
            modified: self.modified.dup(),
            sessions: self.sessions.dup(),
            metadata: self.metadata.dup(),
            identities: self.identities.dup(),
            reflog: self.reflog.dup(),
            since: self.since.dup(),
        }
    }
}

/// Facts about where a trail was recorded.
pub open spec fn context_of(
    repo: RepoView,
    base: BaseRefView,
    baseline: BaselineView,
    short_merge_base: Seq<char>,
) -> RepositoryContextView {
    RepositoryContextView {
        name: repo.name,
        head: repo.head,
        base: base.name,
        merge_base: short_merge_base,
        since: baseline,
        worktree: repo.worktree,
        shallow: repo.is_shallow,
    }
}

/// Facts about where a trail was recorded.
pub fn context(repo: &Repo, base: &BaseRef, baseline: &Baseline, short_merge_base: &str) -> (r:
    RepositoryContext)
    ensures
        r.deep_view() == context_of(
            repo.deep_view(),
            base.deep_view(),
            baseline.deep_view(),
            short_merge_base@,
        ),
{
    let r = RepositoryContext {
        name: repo.name.dup(),
        head: repo.head.dup(),
        base: base.name.dup(),
        merge_base: short_merge_base.to_owned(),
        since: baseline.dup(),
        worktree: repo.worktree.dup(),
        shallow: repo.is_shallow,
    };
    assert(r.deep_view() =~= context_of(
        repo.deep_view(),
        base.deep_view(),
        baseline.deep_view(),
        short_merge_base@,
    ));
    r
}

// ---------------------------------------------------------------------------
// Commits
/// A commit as an event: its time and its files are exact.
pub open spec fn commit_event(c: CommitInfoView) -> TrailEventView {
    TrailEventView {
        timestamp: Some(c.time),
        event_type: TrailEventTypeView::Commit {
            id: c.id,
            short_id: c.short_id,
            summary: c.summary,
            author: c.author,
            is_merge: c.parent_count > 1,
        },
        files: c.files.map_values(|f: history::CommitFileView| f.path),
        source: EventSource::GitCommit,
        confidence: Confidence::Exact,
        stats: None,
        staged: None,
    }
}

fn event_of_commit(c: &CommitInfo) -> (r: TrailEvent)
    ensures
        r.deep_view() == commit_event(c.deep_view()),
{
    let ghost want = c.deep_view().files.map_values(|f: history::CommitFileView| f.path);
    let mut files: Vec<String> = Vec::new();
    let mut k: usize = 0;
    while k < c.files.len()
        invariant
            k <= c.files.len(),
            want == c.deep_view().files.map_values(|f: history::CommitFileView| f.path),
            files.deep_view() =~= want.take(k as int),
        decreases c.files.len() - k,
    {
        let ghost was = files.deep_view();
        files.push(c.files[k].path.dup());
        assert(files.deep_view() =~= was.push(want[k as int]));
        k += 1;
    }
    assert(want.take(k as int) =~= want);
    let r = TrailEvent {
        timestamp: Some(c.time),
        event_type: TrailEventType::Commit {
            id: c.id.dup(),
            short_id: c.short_id.dup(),
            summary: c.summary.dup(),
            author: c.author.dup(),
            is_merge: c.parent_count > 1,
        },
        files,
        source: EventSource::GitCommit,
        confidence: Confidence::Exact,
        stats: None,
        staged: None,
    };
    assert(r.deep_view() =~= commit_event(c.deep_view()));
    r
}

// ---------------------------------------------------------------------------
// Checkpoints
/// A session that was recorded in this worktree, on this branch.
pub open spec fn recorded_here(repo: RepoView, s: SessionFileView) -> bool {
    s.header.worktree_id == worktree_id_of(repo.worktree) && s.header.branch == repo.head.branch()
}

/// The checkpoints of every session recorded here, in order.
pub open spec fn recorded(repo: RepoView, sessions: Seq<SessionFileView>) -> Seq<CheckpointView>
    decreases sessions.len(),
{
    if sessions.len() == 0 {
        Seq::empty()
    } else if recorded_here(repo, sessions.last()) {
        recorded(repo, sessions.drop_last()) + checkpoints_of(
            sessions.last().header.session_id,
            sessions.last().records,
        )
    } else {
        recorded(repo, sessions.drop_last())
    }
}

/// The checkpoints that ended no earlier than the trail starts.
pub open spec fn in_window(cps: Seq<CheckpointView>, since: Timestamp) -> Seq<CheckpointView>
    decreases cps.len(),
{
    if cps.len() == 0 {
        Seq::empty()
    } else if earlier(cps.last().ended_at, since) {
        in_window(cps.drop_last(), since)
    } else {
        in_window(cps.drop_last(), since).push(cps.last())
    }
}

/// The checkpoints a trail shows, with the overlay applied.
pub open spec fn shown_checkpoints(repo: RepoView, facts: TrailFactsView) -> Seq<CheckpointView> {
    in_window(applied(facts.metadata, recorded(repo, facts.sessions)), facts.since)
}

pub open spec fn identity_after(
    identities: Map<Seq<char>, CommitIdentityView>,
    cp: CheckpointView,
) -> Option<CommitIdentityView> {
    match cp.boundary {
        Some(b) => if identities.dom().contains(b.to_head) {
            Some(identities[b.to_head])
        } else {
            None
        },
        None => None,
    }
}

/// A checkpoint as an event, attached to the commit it was work towards.
pub open spec fn checkpoint_event(
    commits: Seq<CommitInfoView>,
    identities: Map<Seq<char>, CommitIdentityView>,
    cp: CheckpointView,
) -> TrailEventView {
    let (commit, attachment) = as_ids(
        attached(commits, cp.boundary, cp.ended_at, identity_after(identities, cp)),
    );
    TrailEventView {
        timestamp: Some(cp.started_at),
        event_type: TrailEventTypeView::Checkpoint {
            id: cp.id,
            session_id: cp.session_id,
            title: cp.title,
            annotation: cp.annotation,
            bulk: cp.bulk,
            hidden: cp.hidden,
            boundary: cp.boundary,
            commit,
            attachment,
            changes: cp.changes,
        },
        files: cp.changes.map_values(|c: FileChangeView| c.path),
        source: cp.source,
        confidence: cp.confidence,
        stats: None,
        staged: None,
    }
}

fn event_of_checkpoint(
    commits: &Vec<CommitInfo>,
    identities: &TextMap<CommitIdentity>,
    cp: &Checkpoint,
) -> (r: TrailEvent)
    ensures
        r.deep_view() == checkpoint_event(
            commits.deep_view(),
            identities.deep_view(),
            cp.deep_view(),
        ),
{
    let ghost want = cp.deep_view().changes.map_values(|c: FileChangeView| c.path);
    let mut files: Vec<String> = Vec::new();
    let mut k: usize = 0;
    while k < cp.changes.len()
        invariant
            k <= cp.changes.len(),
            want == cp.deep_view().changes.map_values(|c: FileChangeView| c.path),
            files.deep_view() =~= want.take(k as int),
        decreases cp.changes.len() - k,
    {
        let ghost was = files.deep_view();
        files.push(cp.changes[k].path.dup());
        assert(files.deep_view() =~= was.push(want[k as int]));
        k += 1;
    }
    assert(want.take(k as int) =~= want);
    let original: Option<&CommitIdentity> = match &cp.boundary {
        Some(b) => identities.get(&b.to_head),
        None => None,
    };
    let boundary = match &cp.boundary {
        Some(b) => Some(b),
        None => None,
    };
    assert(original.deep_view() == identity_after(identities.deep_view(), cp.deep_view()));
    assert(boundary.deep_view() == cp.deep_view().boundary);
    let (commit, attachment) = attach(commits, boundary, cp.ended_at, original);
    let r = TrailEvent {
        timestamp: Some(cp.started_at),
        event_type: TrailEventType::Checkpoint {
            id: cp.id.dup(),
            session_id: cp.session_id.dup(),
            title: cp.title.dup(),
            annotation: cp.annotation.dup(),
            bulk: cp.bulk,
            hidden: cp.hidden,
            boundary: cp.boundary.dup(),
            commit,
            attachment,
            changes: cp.changes.dup(),
        },
        files,
        source: cp.source,
        confidence: cp.confidence,
        stats: None,
        staged: None,
    };
    assert(r.deep_view() =~= checkpoint_event(
        commits.deep_view(),
        identities.deep_view(),
        cp.deep_view(),
    ));
    r
}

/// Logs short enough to be counted.
pub open spec fn countable(sessions: Seq<SessionFileView>) -> bool {
    forall|i: int| 0 <= i < sessions.len() ==> (#[trigger] sessions[i]).records.len() < u32::MAX
}

fn collect_recorded(repo: &Repo, sessions: &Vec<SessionFile>) -> (r: Vec<Checkpoint>)
    requires
        countable(sessions.deep_view()),
    ensures
        r.deep_view() == recorded(repo.deep_view(), sessions.deep_view()),
{
    let ghost all = sessions.deep_view();
    let ghost rv = repo.deep_view();
    let id: String = repo.worktree_id();
    let branch: Option<String> = match repo.head.branch_name() {
        Some(name) => Some(name.to_owned()),
        None => None,
    };
    let mut out: Vec<Checkpoint> = Vec::new();
    let mut k: usize = 0;
    assert(out.deep_view() =~= recorded(rv, all.take(0)));
    while k < sessions.len()
        invariant
            k <= sessions.len(),
            all == sessions.deep_view(),
            countable(all),
            rv == repo.deep_view(),
            id@ == worktree_id_of(rv.worktree),
            branch.deep_view() == rv.head.branch(),
            out.deep_view() == recorded(rv, all.take(k as int)),
        decreases sessions.len() - k,
    {
        let ghost was = out.deep_view();
        let s: &SessionFile = &sessions[k];
        proof {
            assert(all.take(k + 1).drop_last() =~= all.take(k as int));
            assert(all.take(k + 1).last() == s.deep_view());
            assert(all[k as int].records.len() < u32::MAX);
        }
        if s.header.worktree_id.same(&id) && s.header.branch.same(&branch) {
            let records = s.records.as_slice();
            assert(records.deep_view() =~= s.records.deep_view());
            let mut more: Vec<Checkpoint> = build_checkpoints(&s.header.session_id, records);
            let ghost m = more.deep_view();
            out.append(&mut more);
            assert(out.deep_view() =~= was + m);
        }
        k += 1;
    }
    assert(all.take(k as int) =~= all);
    out
}

fn keep_in_window(cps: Vec<Checkpoint>, since: &Timestamp) -> (r: Vec<Checkpoint>)
    ensures
        r.deep_view() == in_window(cps.deep_view(), *since),
{
    let ghost all = cps.deep_view();
    let mut out: Vec<Checkpoint> = Vec::new();
    let mut k: usize = 0;
    assert(out.deep_view() =~= in_window(all.take(0), *since));
    while k < cps.len()
        invariant
            k <= cps.len(),
            all == cps.deep_view(),
            out.deep_view() == in_window(all.take(k as int), *since),
        decreases cps.len() - k,
    {
        let ghost was = out.deep_view();
        proof {
            assert(all.take(k + 1).drop_last() =~= all.take(k as int));
            assert(all.take(k + 1).last() == cps[k as int].deep_view());
        }
        if !cps[k].ended_at.before(since) {
            out.push(cps[k].dup());
            assert(out.deep_view() =~= was.push(all[k as int]));
        }
        k += 1;
    }
    assert(all.take(k as int) =~= all);
    out
}

/// The checkpoints a trail shows, with the overlay applied.
fn collect_checkpoints(repo: &Repo, facts: &TrailFacts) -> (r: Vec<Checkpoint>)
    requires
        countable(facts.deep_view().sessions),
    ensures
        r.deep_view() == shown_checkpoints(repo.deep_view(), facts.deep_view()),
{
    keep_in_window(
        facts.metadata.apply(collect_recorded(repo, &facts.sessions)),
        &facts.since,
    )
}

// ---------------------------------------------------------------------------
// The working tree
/// A file that some checkpoint changes.
pub open spec fn covers(cps: Seq<CheckpointView>, p: Seq<char>) -> bool {
    exists|i: int, j: int|
        0 <= i < cps.len() && 0 <= j < cps[i].changes.len() && path::same_path(
            (#[trigger] cps[i].changes[j]).path,
            p,
        )
}

/// The statistics of a file; the last ones given for it count.
pub open spec fn stat_of(stats: Seq<FileStatView>, p: Seq<char>) -> Option<FileStatView>
    decreases stats.len(),
{
    if stats.len() == 0 {
        None
    } else if path::same_path(stats.last().path, p) {
        Some(stats.last())
    } else {
        stat_of(stats.drop_last(), p)
    }
}

/// A change in the working tree as an event: the change is exact, the time is
/// the file's mtime and therefore only inferred.
pub open spec fn file_event(
    entry: StatusEntryView,
    stats: Seq<FileStatView>,
    modified: Map<Seq<char>, Timestamp>,
) -> TrailEventView {
    let kind = entry.effective();
    TrailEventView {
        timestamp: if kind != ChangeKind::Deleted && modified.dom().contains(entry.path) {
            Some(modified[entry.path])
        } else {
            None
        },
        event_type: match kind {
            ChangeKind::Added | ChangeKind::Copied => TrailEventTypeView::FileAdded,
            ChangeKind::Deleted => TrailEventTypeView::FileDeleted,
            ChangeKind::Renamed => TrailEventTypeView::FileRenamed {
                from: match entry.orig_path {
                    Some(p) => p,
                    None => Seq::empty(),
                },
            },
            _ => TrailEventTypeView::FileModified,
        },
        files: seq![entry.path],
        source: if kind == ChangeKind::Deleted {
            EventSource::WorkingTree
        } else {
            EventSource::Filesystem
        },
        confidence: Confidence::Inferred,
        stats: match stat_of(stats, entry.path) {
            Some(s) => Some(
                LineStats { additions: or_zero(s.additions), deletions: or_zero(s.deletions) },
            ),
            None => None,
        },
        staged: if entry.untracked {
            None
        } else {
            Some(entry.staged is Some && entry.unstaged is None)
        },
    }
}

pub(crate) fn find_stat<'a>(stats: &'a Vec<FileStat>, p: &str) -> (r: Option<&'a FileStat>)
    ensures
        r.deep_view() == stat_of(stats.deep_view(), p@),
{
    let ghost all = stats.deep_view();
    let mut k: usize = stats.len();
    assert(all.take(k as int) =~= all);
    while k > 0
        invariant
            k <= stats.len(),
            all == stats.deep_view(),
            stat_of(all, p@) == stat_of(all.take(k as int), p@),
        decreases k,
    {
        assert(all.take(k as int).last() == stats[k - 1].deep_view());
        if path::same(&stats[k - 1].path, p) {
            return Some(&stats[k - 1]);
        }
        assert(all.take(k as int).drop_last() =~= all.take(k - 1));
        k -= 1;
    }
    None
}

fn event_of_file(
    entry: &StatusEntry,
    stats: &Vec<FileStat>,
    modified: &TextMap<Timestamp>,
) -> (r: TrailEvent)
    ensures
        r.deep_view() == file_event(entry.deep_view(), stats.deep_view(), modified.deep_view()),
{
    let kind: ChangeKind = entry.effective_kind();
    let event_type: TrailEventType = match kind {
        ChangeKind::Added => TrailEventType::FileAdded,
        ChangeKind::Copied => TrailEventType::FileAdded,
        ChangeKind::Deleted => TrailEventType::FileDeleted,
        ChangeKind::Renamed => {
            let from: String = match &entry.orig_path {
                Some(p) => p.dup(),
                None => String::new(),
            };
            assert(entry.orig_path is None ==> from@ =~= Seq::empty());
            TrailEventType::FileRenamed { from }
        },
        _ => TrailEventType::FileModified,
    };
    let timestamp: Option<Timestamp> = if kind == ChangeKind::Deleted {
        None
    } else {
        match modified.get(&entry.path) {
            Some(t) => Some(*t),
            None => None,
        }
    };
    let stats: Option<LineStats> = match find_stat(stats, &entry.path) {
        Some(s) => Some(LineStats::from_counts(s.additions, s.deletions)),
        None => None,
    };
    let staged: Option<bool> = if entry.untracked {
        None
    } else {
        Some(entry.staged.is_some() && entry.unstaged.is_none())
    };
    let files: Vec<String> = vec![entry.path.dup()];
    assert(files.deep_view() =~= seq![entry.path@]);
    TrailEvent {
        timestamp,
        event_type,
        files,
        source: if kind == ChangeKind::Deleted {
            EventSource::WorkingTree
        } else {
            EventSource::Filesystem
        },
        confidence: Confidence::Inferred,
        stats,
        staged,
    }
}

fn is_covered(cps: &Vec<Checkpoint>, p: &str) -> (r: bool)
    ensures
        r == covers(cps.deep_view(), p@),
{
    let ghost all = cps.deep_view();
    let mut k: usize = 0;
    while k < cps.len()
        invariant
            k <= cps.len(),
            all == cps.deep_view(),
            forall|i: int, j: int|
                0 <= i < k && 0 <= j < all[i].changes.len() ==> !path::same_path(
                    (#[trigger] all[i].changes[j]).path,
                    p@,
                ),
        decreases cps.len() - k,
    {
        let changes: &Vec<FileChange> = &cps[k].changes;
        assert(all[k as int].changes == changes.deep_view());
        let mut m: usize = 0;
        while m < changes.len()
            invariant
                k < cps.len(),
                m <= changes.len(),
                all == cps.deep_view(),
                all[k as int].changes == changes.deep_view(),
                forall|j: int|
                    0 <= j < m ==> !path::same_path(
                        (#[trigger] all[k as int].changes[j]).path,
                        p@,
                    ),
            decreases changes.len() - m,
        {
            assert(all[k as int].changes[m as int].path == changes[m as int].path@);
            if path::same(&changes[m].path, p) {
                return true;
            }
            m += 1;
        }
        k += 1;
    }
    false
}

/// The working tree changes that no checkpoint covers.
pub open spec fn file_events(
    entries: Seq<StatusEntryView>,
    cps: Seq<CheckpointView>,
    stats: Seq<FileStatView>,
    modified: Map<Seq<char>, Timestamp>,
) -> Seq<TrailEventView>
    decreases entries.len(),
{
    if entries.len() == 0 {
        Seq::empty()
    } else if covers(cps, entries.last().path) {
        file_events(entries.drop_last(), cps, stats, modified)
    } else {
        file_events(entries.drop_last(), cps, stats, modified).push(
            file_event(entries.last(), stats, modified),
        )
    }
}

// ---------------------------------------------------------------------------
// The reflog
/// A movement of HEAD that is no plain commit, as an event.
pub open spec fn reflog_event(e: ReflogEntryView) -> TrailEventView {
    TrailEventView {
        timestamp: Some(e.time),
        event_type: TrailEventTypeView::RefUpdate { action: e.action, message: e.message },
        files: Seq::empty(),
        source: EventSource::GitReflog,
        confidence: Confidence::Exact,
        stats: None,
        staged: None,
    }
}

/// Plain commits are either already shown as commits or belong to another
/// branch; only movements of HEAD that are no commits are shown.
pub open spec fn reflog_events(entries: Seq<ReflogEntryView>) -> Seq<TrailEventView>
    decreases entries.len(),
{
    if entries.len() == 0 {
        Seq::empty()
    } else if entries.last().action == "commit"@ || entries.last().action == "commit (initial)"@ {
        reflog_events(entries.drop_last())
    } else {
        reflog_events(entries.drop_last()).push(reflog_event(entries.last()))
    }
}

// ---------------------------------------------------------------------------
// The timeline
/// Chronological; events without a time come last.
pub struct ByTime;

impl Order<TrailEvent> for ByTime {
    open spec fn lt(a: TrailEventView, b: TrailEventView) -> bool {
        match (a.timestamp, b.timestamp) {
            (Some(x), Some(y)) => earlier(x, y),
            (Some(_), None) => true,
            _ => false,
        }
    }

    proof fn lemma_order(a: TrailEventView, b: TrailEventView, c: TrailEventView) {
    }

    fn before(a: &TrailEvent, b: &TrailEvent) -> (r: bool) {
        match (&a.timestamp, &b.timestamp) {
            (Some(x), Some(y)) => x.before(y),
            (Some(_), None) => true,
            _ => false,
        }
    }
}

/// The id of a checkpoint event.
pub open spec fn id_of(e: TrailEventView) -> Option<Seq<char>> {
    match e.event_type {
        TrailEventTypeView::Checkpoint {
            id,
            session_id,
            title,
            annotation,
            bulk,
            hidden,
            boundary,
            commit,
            attachment,
            changes,
        } => Some(id),
        _ => None,
    }
}

/// A checkpoint whose place in the reading order was chosen.
pub open spec fn listed(e: TrailEventView, order: Seq<Seq<char>>) -> bool {
    match id_of(e) {
        Some(id) => order.contains(id),
        None => false,
    }
}

/// The events that are listed, as they stand.
pub open spec fn listed_in(events: Seq<TrailEventView>, order: Seq<Seq<char>>) -> Seq<
    TrailEventView,
>
    decreases events.len(),
{
    if events.len() == 0 {
        Seq::empty()
    } else if listed(events.last(), order) {
        listed_in(events.drop_last(), order).push(events.last())
    } else {
        listed_in(events.drop_last(), order)
    }
}

pub open spec fn with_id(events: Seq<TrailEventView>, id: Seq<char>) -> Seq<TrailEventView>
    decreases events.len(),
{
    if events.len() == 0 {
        Seq::empty()
    } else if id_of(events.last()) == Some(id) {
        with_id(events.drop_last(), id).push(events.last())
    } else {
        with_id(events.drop_last(), id)
    }
}

/// The listed events in the chosen order.
pub open spec fn in_chosen_order(events: Seq<TrailEventView>, order: Seq<Seq<char>>) -> Seq<
    TrailEventView,
>
    decreases order.len(),
{
    if order.len() == 0 {
        Seq::empty()
    } else if order.drop_last().contains(order.last()) {
        in_chosen_order(events, order.drop_last())
    } else {
        in_chosen_order(events, order.drop_last()) + with_id(events, order.last())
    }
}

/// Some events with those that are listed replaced, one after the other, by
/// `queue`.
pub open spec fn refilled(
    events: Seq<TrailEventView>,
    order: Seq<Seq<char>>,
    queue: Seq<TrailEventView>,
) -> Seq<TrailEventView>
    decreases events.len(),
{
    if events.len() == 0 {
        Seq::empty()
    } else {
        refilled(events.drop_last(), order, queue).push(
            if listed(events.last(), order) {
                queue[listed_in(events.drop_last(), order).len() as int]
            } else {
                events.last()
            },
        )
    }
}

/// A timeline in the chosen reading order. Ids not listed keep their
/// chronological position; listed ids are permuted among the slots they occupy.
pub open spec fn reordered(events: Seq<TrailEventView>, order: Seq<Seq<char>>) -> Seq<
    TrailEventView,
> {
    refilled(events, order, in_chosen_order(events, order))
}

pub open spec fn commit_events(commits: Seq<CommitInfoView>) -> Seq<TrailEventView> {
    commits.map_values(|c: CommitInfoView| commit_event(c))
}

pub open spec fn checkpoint_events(
    commits: Seq<CommitInfoView>,
    identities: Map<Seq<char>, CommitIdentityView>,
    cps: Seq<CheckpointView>,
) -> Seq<TrailEventView> {
    cps.map_values(|cp: CheckpointView| checkpoint_event(commits, identities, cp))
}

/// Every event of a trail, before it is put in order.
pub open spec fn gathered(repo: RepoView, scope: Scope, facts: TrailFactsView) -> Seq<
    TrailEventView,
> {
    let cps = shown_checkpoints(repo, facts);
    commit_events(facts.commits) + checkpoint_events(facts.commits, facts.identities, cps)
        + file_events(facts.entries, cps, facts.head_stats, facts.modified) + (
    if scope == Scope::Detailed {
        reflog_events(history::reflog_since(facts.reflog, facts.since))
    } else {
        Seq::empty()
    })
}

/// The timeline of a trail: chronological, with the chosen reading order.
pub open spec fn timeline(repo: RepoView, scope: Scope, facts: TrailFactsView) -> Seq<
    TrailEventView,
> {
    reordered(sorted::<TrailEvent, ByTime>(gathered(repo, scope, facts)), facts.metadata.order)
}

pub open spec fn changes_in(events: Seq<TrailEventView>) -> nat
    decreases events.len(),
{
    if events.len() == 0 {
        0
    } else {
        changes_in(events.drop_last()) + if events.last().changes_something() {
            1nat
        } else {
            0nat
        }
    }
}

/// A checkpoint that is shown.
pub open spec fn visible_checkpoint(e: TrailEventView) -> bool {
    e.event_type is Checkpoint && !e.event_type->Checkpoint_hidden
}

pub open spec fn checkpoints_in(events: Seq<TrailEventView>) -> nat
    decreases events.len(),
{
    if events.len() == 0 {
        0
    } else {
        checkpoints_in(events.drop_last()) + if visible_checkpoint(events.last()) {
            1nat
        } else {
            0nat
        }
    }
}

pub open spec fn uncommitted_in(events: Seq<TrailEventView>) -> nat
    decreases events.len(),
{
    if events.len() == 0 {
        0
    } else {
        uncommitted_in(events.drop_last()) + if visible_checkpoint(events.last())
            && events.last().event_type->commit is None {
            1nat
        } else {
            0nat
        }
    }
}

pub open spec fn summary_of(events: Seq<TrailEventView>, facts: TrailFactsView) -> TrailSummary {
    TrailSummary {
        changes: changes_in(events) as usize,
        files_changed: facts.base_stats.len() as usize,
        additions: sum_additions(facts.base_stats) as u64,
        deletions: sum_deletions(facts.base_stats) as u64,
        commits: facts.commits.len() as usize,
        checkpoints: checkpoints_in(events) as usize,
        uncommitted_checkpoints: uncommitted_in(events) as usize,
    }
}

/// The trail that some facts amount to.
pub open spec fn trail_of(
    repo: RepoView,
    base: BaseRefView,
    baseline: BaselineView,
    scope: Scope,
    facts: TrailFactsView,
) -> TrailView {
    let events = timeline(repo, scope, facts);
    TrailView {
        repository: context_of(repo, base, baseline, facts.short_merge_base),
        events,
        summary: summary_of(events, facts),
    }
}

// ---------------------------------------------------------------------------
// Reordering loses nothing
proof fn lemma_chosen_multiset(events: Seq<TrailEventView>, order: Seq<Seq<char>>)
    ensures
        in_chosen_order(events, order).to_multiset() =~= listed_in(events, order).to_multiset(),
    decreases order.len(),
{
    broadcast use vstd::seq_lib::group_to_multiset_ensures;

    if order.len() == 0 {
        lemma_none_listed(events, order);
    } else {
        let rest = order.drop_last();
        let id = order.last();
        lemma_chosen_multiset(events, rest);
        if rest.contains(id) {
            lemma_same_listed(events, order);
        } else {
            lemma_more_listed(events, order);
            vstd::seq_lib::lemma_multiset_commutative(
                in_chosen_order(events, rest),
                with_id(events, id),
            );
        }
    }
}

proof fn lemma_none_listed(events: Seq<TrailEventView>, order: Seq<Seq<char>>)
    requires
        order.len() == 0,
    ensures
        listed_in(events, order) =~= Seq::empty(),
    decreases events.len(),
{
    if events.len() > 0 {
        lemma_none_listed(events.drop_last(), order);
    }
}

proof fn lemma_contains_last(order: Seq<Seq<char>>, id: Seq<char>)
    requires
        order.len() > 0,
    ensures
        order.contains(id) == (order.drop_last().contains(id) || id == order.last()),
{
    let rest = order.drop_last();
    if rest.contains(id) {
        let i = choose|i: int| 0 <= i < rest.len() && rest[i] == id;
        assert(order[i] == id);
    }
    if order.contains(id) && id != order.last() {
        let i = choose|i: int| 0 <= i < order.len() && order[i] == id;
        assert(rest[i] == id);
    }
    assert(order[order.len() - 1] == order.last());
}

proof fn lemma_same_listed(events: Seq<TrailEventView>, order: Seq<Seq<char>>)
    requires
        order.len() > 0,
        order.drop_last().contains(order.last()),
    ensures
        listed_in(events, order) == listed_in(events, order.drop_last()),
    decreases events.len(),
{
    if events.len() > 0 {
        lemma_same_listed(events.drop_last(), order);
        match id_of(events.last()) {
            Some(id) => {
                lemma_contains_last(order, id);
            },
            None => {},
        }
    }
}

proof fn lemma_more_listed(events: Seq<TrailEventView>, order: Seq<Seq<char>>)
    requires
        order.len() > 0,
        !order.drop_last().contains(order.last()),
    ensures
        listed_in(events, order).to_multiset() =~= listed_in(
            events,
            order.drop_last(),
        ).to_multiset().add(with_id(events, order.last()).to_multiset()),
    decreases events.len(),
{
    broadcast use vstd::seq_lib::group_to_multiset_ensures;

    if events.len() > 0 {
        lemma_more_listed(events.drop_last(), order);
        match id_of(events.last()) {
            Some(id) => {
                lemma_contains_last(order, id);
            },
            None => {},
        }
    }
}

proof fn lemma_chosen_len(events: Seq<TrailEventView>, order: Seq<Seq<char>>)
    ensures
        in_chosen_order(events, order).len() == listed_in(events, order).len(),
{
    lemma_chosen_multiset(events, order);
    in_chosen_order(events, order).to_multiset_ensures();
    listed_in(events, order).to_multiset_ensures();
}

proof fn lemma_listed_take(events: Seq<TrailEventView>, order: Seq<Seq<char>>, k: int)
    requires
        0 <= k < events.len(),
    ensures
        listed_in(events.take(k), order).len() <= listed_in(events, order).len(),
        listed(events[k], order) ==> listed_in(events.take(k), order).len() < listed_in(
            events,
            order,
        ).len(),
    decreases events.len(),
{
    if k == events.len() - 1 {
        assert(events.take(k) =~= events.drop_last());
    } else {
        lemma_listed_take(events.drop_last(), order, k);
        assert(events.drop_last().take(k) =~= events.take(k));
    }
}

/// The events that are not listed.
pub open spec fn unlisted_in(events: Seq<TrailEventView>, order: Seq<Seq<char>>) -> Seq<
    TrailEventView,
>
    decreases events.len(),
{
    if events.len() == 0 {
        Seq::empty()
    } else if listed(events.last(), order) {
        unlisted_in(events.drop_last(), order)
    } else {
        unlisted_in(events.drop_last(), order).push(events.last())
    }
}

proof fn lemma_refilled(
    events: Seq<TrailEventView>,
    order: Seq<Seq<char>>,
    queue: Seq<TrailEventView>,
)
    requires
        queue.len() >= listed_in(events, order).len(),
    ensures
        refilled(events, order, queue).len() == events.len(),
        refilled(events, order, queue).to_multiset() =~= unlisted_in(
            events,
            order,
        ).to_multiset().add(queue.take(listed_in(events, order).len() as int).to_multiset()),
        events.to_multiset() =~= unlisted_in(events, order).to_multiset().add(
            listed_in(events, order).to_multiset(),
        ),
        forall|i: int|
            0 <= i < events.len() && !listed(#[trigger] events[i], order) ==> refilled(
                events,
                order,
                queue,
            )[i] == events[i],
    decreases events.len(),
{
    broadcast use vstd::seq_lib::group_to_multiset_ensures;

    if events.len() == 0 {
        assert(queue.take(0) =~= Seq::empty());
    } else {
        let rest = events.drop_last();
        lemma_refilled(rest, order, queue);
        assert(events =~= rest.push(events.last()));
        let n = listed_in(rest, order).len() as int;
        if listed(events.last(), order) {
            assert(queue.take(n + 1) =~= queue.take(n).push(queue[n]));
        }
        assert forall|i: int|
            0 <= i < events.len() && !listed(#[trigger] events[i], order) implies refilled(
            events,
            order,
            queue,
        )[i] == events[i] by {
            if i < rest.len() {
                assert(rest[i] == events[i]);
            }
        }
    }
}

/// A chosen reading order neither loses nor makes up an event, and leaves every
/// event that is not listed where it stands in time.
pub proof fn lemma_reordering_permutes(events: Seq<TrailEventView>, order: Seq<Seq<char>>)
    ensures
        reordered(events, order).len() == events.len(),
        reordered(events, order).to_multiset() == events.to_multiset(),
        forall|i: int|
            0 <= i < events.len() && !listed(#[trigger] events[i], order) ==> reordered(
                events,
                order,
            )[i] == events[i],
{
    let queue = in_chosen_order(events, order);
    lemma_chosen_len(events, order);
    lemma_chosen_multiset(events, order);
    lemma_refilled(events, order, queue);
    assert(queue.take(listed_in(events, order).len() as int) =~= queue);
}

proof fn lemma_with_id_listed(events: Seq<TrailEventView>, id: Seq<char>, order: Seq<Seq<char>>)
    requires
        order.contains(id),
    ensures
        forall|i: int|
            0 <= i < with_id(events, id).len() ==> listed(#[trigger] with_id(events, id)[i], order),
    decreases events.len(),
{
    if events.len() > 0 {
        lemma_with_id_listed(events.drop_last(), id, order);
        let before = with_id(events.drop_last(), id);
        let after = with_id(events, id);
        assert forall|i: int| 0 <= i < after.len() implies listed(#[trigger] after[i], order) by {
            if i < before.len() {
                assert(after[i] == before[i]);
            }
        }
    }
}

proof fn lemma_chosen_listed(
    events: Seq<TrailEventView>,
    some: Seq<Seq<char>>,
    order: Seq<Seq<char>>,
)
    requires
        forall|i: int| 0 <= i < some.len() ==> order.contains(#[trigger] some[i]),
    ensures
        forall|i: int|
            0 <= i < in_chosen_order(events, some).len() ==> listed(
                #[trigger] in_chosen_order(events, some)[i],
                order,
            ),
    decreases some.len(),
{
    if some.len() > 0 {
        let rest = some.drop_last();
        assert forall|i: int| 0 <= i < rest.len() implies order.contains(#[trigger] rest[i]) by {
            assert(rest[i] == some[i]);
        }
        lemma_chosen_listed(events, rest, order);
        assert(order.contains(some[some.len() - 1]));
        lemma_with_id_listed(events, some.last(), order);
        let before = in_chosen_order(events, rest);
        let more = with_id(events, some.last());
        let after = in_chosen_order(events, some);
        assert forall|i: int| 0 <= i < after.len() implies listed(#[trigger] after[i], order) by {
            if i < before.len() {
                assert(after[i] == before[i]);
            } else {
                assert(after[i] == more[i - before.len()]);
            }
        }
    }
}

proof fn lemma_refilled_listed(
    events: Seq<TrailEventView>,
    order: Seq<Seq<char>>,
    queue: Seq<TrailEventView>,
)
    requires
        queue.len() >= listed_in(events, order).len(),
        forall|i: int| 0 <= i < queue.len() ==> listed(#[trigger] queue[i], order),
    ensures
        listed_in(refilled(events, order, queue), order) == queue.take(
            listed_in(events, order).len() as int,
        ),
    decreases events.len(),
{
    if events.len() == 0 {
        assert(queue.take(0) =~= Seq::empty());
    } else {
        let rest = events.drop_last();
        let n = listed_in(rest, order).len() as int;
        lemma_refilled_listed(rest, order, queue);
        assert(refilled(events, order, queue).drop_last() =~= refilled(rest, order, queue));
        if listed(events.last(), order) {
            assert(listed(queue[n], order));
            assert(queue.take(n + 1) =~= queue.take(n).push(queue[n]));
        }
    }
}

/// The checkpoints whose reading order was chosen are read in that order.
pub proof fn lemma_chosen_order_is_read(events: Seq<TrailEventView>, order: Seq<Seq<char>>)
    ensures
        listed_in(reordered(events, order), order) == in_chosen_order(events, order),
{
    let queue = in_chosen_order(events, order);
    lemma_chosen_len(events, order);
    assert forall|i: int| 0 <= i < order.len() implies order.contains(#[trigger] order[i]) by {}
    lemma_chosen_listed(events, order, order);
    lemma_refilled_listed(events, order, queue);
    assert(queue.take(queue.len() as int) =~= queue);
}

/// Without a chosen order the timeline is the chronological one.
pub proof fn lemma_no_order_is_chronological(events: Seq<TrailEventView>)
    ensures
        reordered(events, Seq::empty()) == events,
{
    lemma_reordering_permutes(events, Seq::empty());
    assert forall|i: int| 0 <= i < events.len() implies reordered(events, Seq::empty())[i]
        == events[i] by {
        assert(!listed(events[i], Seq::empty()));
    }
    assert(reordered(events, Seq::empty()) =~= events);
}

/// A file that a checkpoint covers is not shown a second time with a guessed
/// time.
pub proof fn lemma_covered_files_shown_once(
    entries: Seq<StatusEntryView>,
    cps: Seq<CheckpointView>,
    stats: Seq<FileStatView>,
    modified: Map<Seq<char>, Timestamp>,
    i: int,
)
    requires
        0 <= i < file_events(entries, cps, stats, modified).len(),
    ensures
        file_events(entries, cps, stats, modified)[i].files.len() == 1,
        !covers(cps, file_events(entries, cps, stats, modified)[i].files[0]),
    decreases entries.len(),
{
    let rest = entries.drop_last();
    if i < file_events(rest, cps, stats, modified).len() {
        lemma_covered_files_shown_once(rest, cps, stats, modified, i);
    }
}

// ---------------------------------------------------------------------------
// Building
fn checkpoint_id<'a>(e: &'a TrailEvent) -> (r: Option<&'a String>)
    ensures
        r.deep_view() == id_of(e.deep_view()),
{
    match &e.event_type {
        TrailEventType::Checkpoint {
            id,
            session_id: _,
            title: _,
            annotation: _,
            bulk: _,
            hidden: _,
            boundary: _,
            commit: _,
            attachment: _,
            changes: _,
        } => Some(id),
        _ => None,
    }
}

fn is_listed(e: &TrailEvent, order: &Vec<String>) -> (r: bool)
    ensures
        r == listed(e.deep_view(), order.deep_view()),
{
    match checkpoint_id(e) {
        Some(id) => contains_text(order, id),
        None => false,
    }
}

fn select_id(events: &Vec<TrailEvent>, id: &str) -> (r: Vec<TrailEvent>)
    ensures
        r.deep_view() == with_id(events.deep_view(), id@),
{
    let ghost all = events.deep_view();
    let mut out: Vec<TrailEvent> = Vec::new();
    let mut k: usize = 0;
    assert(out.deep_view() =~= with_id(all.take(0), id@));
    while k < events.len()
        invariant
            k <= events.len(),
            all == events.deep_view(),
            out.deep_view() == with_id(all.take(k as int), id@),
        decreases events.len() - k,
    {
        let ghost was = out.deep_view();
        proof {
            assert(all.take(k + 1).drop_last() =~= all.take(k as int));
            assert(all.take(k + 1).last() == events[k as int].deep_view());
        }
        let hit: bool = match checkpoint_id(&events[k]) {
            Some(x) => text::same(x, id),
            None => false,
        };
        if hit {
            out.push(events[k].dup());
            assert(out.deep_view() =~= was.push(all[k as int]));
        }
        k += 1;
    }
    assert(all.take(k as int) =~= all);
    out
}

fn listed_before(order: &Vec<String>, k: usize) -> (r: bool)
    requires
        k < order.len(),
    ensures
        r == order.deep_view().take(k as int).contains(order.deep_view()[k as int]),
{
    let ghost all = order.deep_view();
    let ghost head = all.take(k as int);
    let mut j: usize = 0;
    while j < k
        invariant
            j <= k < order.len(),
            all == order.deep_view(),
            head == all.take(k as int),
            forall|i: int| 0 <= i < j ==> head[i] != all[k as int],
        decreases k - j,
    {
        assert(head[j as int] == order[j as int]@);
        assert(all[k as int] == order[k as int]@);
        if order[j] == order[k] {
            return true;
        }
        j += 1;
    }
    false
}

fn choose_order(events: &Vec<TrailEvent>, order: &Vec<String>) -> (r: Vec<TrailEvent>)
    ensures
        r.deep_view() == in_chosen_order(events.deep_view(), order.deep_view()),
{
    let ghost all = order.deep_view();
    let ghost es = events.deep_view();
    let mut out: Vec<TrailEvent> = Vec::new();
    let mut k: usize = 0;
    assert(out.deep_view() =~= in_chosen_order(es, all.take(0)));
    while k < order.len()
        invariant
            k <= order.len(),
            all == order.deep_view(),
            es == events.deep_view(),
            out.deep_view() == in_chosen_order(es, all.take(k as int)),
        decreases order.len() - k,
    {
        let ghost was = out.deep_view();
        proof {
            assert(all.take(k + 1).drop_last() =~= all.take(k as int));
            assert(all.take(k + 1).last() == order[k as int]@);
        }
        if !listed_before(order, k) {
            let mut more: Vec<TrailEvent> = select_id(events, &order[k]);
            let ghost m = more.deep_view();
            out.append(&mut more);
            assert(out.deep_view() =~= was + m);
        }
        k += 1;
    }
    assert(all.take(k as int) =~= all);
    out
}

/// Puts a timeline in the chosen reading order.
fn reorder(events: Vec<TrailEvent>, order: &Vec<String>) -> (r: Vec<TrailEvent>)
    ensures
        r.deep_view() == reordered(events.deep_view(), order.deep_view()),
{
    let ghost all = events.deep_view();
    let ghost ord = order.deep_view();
    let queue: Vec<TrailEvent> = choose_order(&events, order);
    let ghost q = queue.deep_view();
    proof {
        lemma_chosen_len(all, ord);
    }
    let mut out: Vec<TrailEvent> = Vec::new();
    let mut next: usize = 0;
    let mut k: usize = 0;
    assert(out.deep_view() =~= refilled(all.take(0), ord, q));
    while k < events.len()
        invariant
            k <= events.len(),
            all == events.deep_view(),
            ord == order.deep_view(),
            q == queue.deep_view(),
            q.len() == listed_in(all, ord).len(),
            next == listed_in(all.take(k as int), ord).len(),
            next <= q.len(),
            out.deep_view() == refilled(all.take(k as int), ord, q),
        decreases events.len() - k,
    {
        let ghost was = out.deep_view();
        proof {
            assert(all.take(k + 1).drop_last() =~= all.take(k as int));
            assert(all.take(k + 1).last() == events[k as int].deep_view());
            lemma_listed_take(all, ord, k as int);
        }
        if is_listed(&events[k], order) {
            assert(next < queue.len());
            out.push(queue[next].dup());
            assert(out.deep_view() =~= was.push(q[next as int]));
            next = next + 1;
        } else {
            out.push(events[k].dup());
            assert(out.deep_view() =~= was.push(all[k as int]));
        }
        k += 1;
    }
    assert(all.take(k as int) =~= all);
    out
}

fn gather(repo: &Repo, scope: Scope, facts: &TrailFacts) -> (r: Vec<TrailEvent>)
    requires
        countable(facts.deep_view().sessions),
    ensures
        r.deep_view() == gathered(repo.deep_view(), scope, facts.deep_view()),
{
    let ghost f = facts.deep_view();
    let ghost rv = repo.deep_view();
    let mut events: Vec<TrailEvent> = Vec::new();

    // Commits on this branch: exact timestamps, exact file lists.
    let ghost ce = commit_events(f.commits);
    let mut k: usize = 0;
    while k < facts.commits.len()
        invariant
            k <= facts.commits.len(),
            f == facts.deep_view(),
            ce == commit_events(f.commits),
            events.deep_view() =~= ce.take(k as int),
        decreases facts.commits.len() - k,
    {
        let ghost was = events.deep_view();
        assert(f.commits[k as int] == facts.commits[k as int].deep_view());
        events.push(event_of_commit(&facts.commits[k]));
        assert(events.deep_view() =~= was.push(ce[k as int]));
        k += 1;
    }
    assert(ce.take(k as int) =~= ce);

    // Checkpoints recorded on this branch, with the overlay applied.
    let cps: Vec<Checkpoint> = collect_checkpoints(repo, facts);
    let ghost cv = cps.deep_view();
    let ghost ke = checkpoint_events(f.commits, f.identities, cv);
    let mut k: usize = 0;
    assert(ce + ke.take(0) =~= ce);
    while k < cps.len()
        invariant
            k <= cps.len(),
            f == facts.deep_view(),
            cv == cps.deep_view(),
            ke == checkpoint_events(f.commits, f.identities, cv),
            events.deep_view() == ce + ke.take(k as int),
        decreases cps.len() - k,
    {
        let ghost was = events.deep_view();
        assert(cv[k as int] == cps[k as int].deep_view());
        events.push(event_of_checkpoint(&facts.commits, &facts.identities, &cps[k]));
        assert(events.deep_view() =~= was.push(ke[k as int]));
        assert(events.deep_view() =~= ce + ke.take(k + 1));
        k += 1;
    }
    assert(ke.take(k as int) =~= ke);

    // Working tree changes: the change is exact, the time is the file's
    // mtime and therefore only inferred.
    let ghost ent = f.entries;
    let mut k: usize = 0;
    assert(ce + ke + file_events(ent.take(0), cv, f.head_stats, f.modified) =~= ce + ke);
    while k < facts.entries.len()
        invariant
            k <= facts.entries.len(),
            f == facts.deep_view(),
            ent == f.entries,
            cv == cps.deep_view(),
            events.deep_view() == ce + ke + file_events(
                ent.take(k as int),
                cv,
                f.head_stats,
                f.modified,
            ),
        decreases facts.entries.len() - k,
    {
        let ghost was = events.deep_view();
        let entry: &StatusEntry = &facts.entries[k];
        proof {
            assert(ent.take(k + 1).drop_last() =~= ent.take(k as int));
            assert(ent.take(k + 1).last() == entry.deep_view());
        }
        if !is_covered(&cps, &entry.path) {
            events.push(event_of_file(entry, &facts.head_stats, &facts.modified));
            assert(events.deep_view() =~= was.push(
                file_event(ent[k as int], f.head_stats, f.modified),
            ));
            assert(events.deep_view() =~= ce + ke + file_events(
                ent.take(k + 1),
                cv,
                f.head_stats,
                f.modified,
            ));
        }
        k += 1;
    }
    assert(ent.take(k as int) =~= ent);
    let ghost fe = file_events(ent, cv, f.head_stats, f.modified);

    // Reflog: HEAD movements since the branch point (detailed view only).
    if scope == Scope::Detailed {
        let entries: Vec<ReflogEntry> = history::head_reflog(&facts.reflog, facts.since);
        let ghost es = entries.deep_view();
        let mut k: usize = 0;
        assert(ce + ke + fe + reflog_events(es.take(0)) =~= ce + ke + fe);
        while k < entries.len()
            invariant
                k <= entries.len(),
                es == entries.deep_view(),
                events.deep_view() == ce + ke + fe + reflog_events(es.take(k as int)),
            decreases entries.len() - k,
        {
            let ghost was = events.deep_view();
            let e: &ReflogEntry = &entries[k];
            proof {
                assert(es.take(k + 1).drop_last() =~= es.take(k as int));
                assert(es.take(k + 1).last() == e.deep_view());
            }
            if !text::same(&e.action, "commit") && !text::same(&e.action, "commit (initial)") {
                let event = TrailEvent {
                    timestamp: Some(e.time),
                    event_type: TrailEventType::RefUpdate {
                        action: e.action.dup(),
                        message: e.message.dup(),
                    },
                    files: Vec::new(),
                    source: EventSource::GitReflog,
                    confidence: Confidence::Exact,
                    stats: None,
                    staged: None,
                };
                assert(event.deep_view() =~= reflog_event(es[k as int]));
                events.push(event);
                assert(events.deep_view() =~= was.push(reflog_event(es[k as int])));
                assert(events.deep_view() =~= ce + ke + fe + reflog_events(es.take(k + 1)));
            }
            k += 1;
        }
        assert(es.take(k as int) =~= es);
    } else {
        assert(ce + ke + fe + Seq::<TrailEventView>::empty() =~= ce + ke + fe);
    }
    events
}

fn summarize(events: &Vec<TrailEvent>, facts: &TrailFacts) -> (r: TrailSummary)
    requires
        summable(facts.deep_view().base_stats),
    ensures
        r == summary_of(events.deep_view(), facts.deep_view()),
{
    let ghost all = events.deep_view();
    let mut changes: usize = 0;
    let mut checkpoints: usize = 0;
    let mut uncommitted_checkpoints: usize = 0;
    let mut k: usize = 0;
    assert(all.take(0) =~= Seq::empty());
    while k < events.len()
        invariant
            k <= events.len(),
            all == events.deep_view(),
            changes <= k,
            checkpoints <= k,
            uncommitted_checkpoints <= k,
            changes == changes_in(all.take(k as int)),
            checkpoints == checkpoints_in(all.take(k as int)),
            uncommitted_checkpoints == uncommitted_in(all.take(k as int)),
        decreases events.len() - k,
    {
        proof {
            assert(all.take(k + 1).drop_last() =~= all.take(k as int));
            assert(all.take(k + 1).last() == events[k as int].deep_view());
        }
        if events[k].is_change() {
            changes = changes + 1;
        }
        match &events[k].event_type {
            TrailEventType::Checkpoint {
                id: _,
                session_id: _,
                title: _,
                annotation: _,
                bulk: _,
                hidden,
                boundary: _,
                commit,
                attachment: _,
                changes: _,
            } => {
                if !*hidden {
                    checkpoints = checkpoints + 1;
                    if commit.is_none() {
                        uncommitted_checkpoints = uncommitted_checkpoints + 1;
                    }
                }
            },
            _ => {},
        }
        k += 1;
    }
    assert(all.take(k as int) =~= all);
    let total: LineStats = LineStats::sum(&facts.base_stats);
    TrailSummary {
        changes,
        files_changed: facts.base_stats.len(),
        additions: total.additions,
        deletions: total.deletions,
        commits: facts.commits.len(),
        checkpoints,
        uncommitted_checkpoints,
    }
}

/// Builds the trail that some facts amount to.
pub fn build_trail(
    repo: &Repo,
    base: &BaseRef,
    baseline: &Baseline,
    scope: Scope,
    facts: &TrailFacts,
) -> (r: Trail)
    requires
        countable(facts.deep_view().sessions),
        summable(facts.deep_view().base_stats),
    ensures
        r.deep_view() == trail_of(
            repo.deep_view(),
            base.deep_view(),
            baseline.deep_view(),
            scope,
            facts.deep_view(),
        ),
{
    let events: Vec<TrailEvent> = reorder(
        order::sort::<TrailEvent, ByTime>(gather(repo, scope, facts)),
        &facts.metadata.order,
    );
    let summary: TrailSummary = summarize(&events, facts);
    Trail {
        repository: context(repo, base, baseline, &facts.short_merge_base),
        events,
        summary,
    }
}

} // verus!
