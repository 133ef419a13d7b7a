//! The other reports: status, diff by directory, one file, sessions, changes.

use super::{
    counts_of, kind_counts, ChangedFile, ChangedFileView, ChangesReport, ChangesReportView,
    DiffGroup, DiffGroupView, DiffReport, DiffReportView, InspectCommit, InspectCommitView,
    InspectReport, InspectReportView, RepositoryContext, RepositoryContextView, SessionSummary,
    SessionSummaryView, SessionsReport, SessionsReportView, StatusReport, StatusReportView,
};
use crate::data::{contains_text, Dup};
use crate::error::{outcome, TrailError, TrailErrorView};
use crate::git::diff::{
    sum_additions, sum_deletions, summable, ChangeKind, FileStat, FileStatView, LineStats,
    StatusEntry, StatusEntryView,
};
use crate::git::history::{
    CommitFile, CommitFileView, CommitInfo, CommitInfoView, FileCommit, FileCommitView,
};
use crate::git::repository::Repo;
use crate::order::{self, sorted, ByText, Order};
use crate::path;
use crate::recorder::checkpoint::{self, build_checkpoints, checkpoints_of, Checkpoint};
use crate::recorder::store::{last_activity_of, SessionFile, SessionFileView};
use crate::text;
use crate::time::Timestamp;
use vstd::prelude::*;

verus! {

/// The sum of some statistics.
pub open spec fn total_of(stats: Seq<FileStatView>) -> LineStats {
    LineStats {
        additions: sum_additions(stats) as u64,
        deletions: sum_deletions(stats) as u64,
    }
}

// ---------------------------------------------------------------------------
// Status
/// A compact view of the worktree.
pub fn build_status(
    repository: RepositoryContext,
    entries: Vec<StatusEntry>,
    head_stats: &Vec<FileStat>,
    commits_ahead: usize,
) -> (r: StatusReport)
    requires
        summable(head_stats.deep_view()),
    ensures
        r.deep_view() == (StatusReportView {
            repository: repository.deep_view(),
            counts: counts_of(entries.deep_view()),
            stats: total_of(head_stats.deep_view()),
            commits_ahead,
            entries: entries.deep_view(),
        }),
{
    StatusReport {
        counts: kind_counts(&entries),
        stats: LineStats::sum(head_stats),
        repository,
        commits_ahead,
        entries,
    }
}

// ---------------------------------------------------------------------------
// Diff
/// The directory a file lives in, `.` for the repository root.
pub open spec fn directory_of(p: Seq<char>) -> Seq<char> {
    match path::parent(p) {
        Some(dir) => if dir.len() > 0 {
            dir
        } else {
            "."@
        },
        None => "."@,
    }
}

fn directory(p: &str) -> (r: String)
    ensures
        r@ == directory_of(p@),
{
    match path::parent_of(p) {
        Some(dir) => if dir.as_str().unicode_len() > 0 {
            dir
        } else {
            ".".to_owned()
        },
        None => ".".to_owned(),
    }
}

/// Files by path.
pub struct ByFile;

impl Order<FileStat> for ByFile {
    open spec fn lt(a: FileStatView, b: FileStatView) -> bool {
        path::less(a.path, b.path)
    }

    proof fn lemma_order(a: FileStatView, b: FileStatView, c: FileStatView) {
        path::lemma_less(a.path, b.path, c.path);
    }

    fn before(a: &FileStat, b: &FileStat) -> (r: bool) {
        path::before(&a.path, &b.path)
    }
}

/// The files of one directory.
pub open spec fn files_in(stats: Seq<FileStatView>, dir: Seq<char>) -> Seq<FileStatView>
    decreases stats.len(),
{
    if stats.len() == 0 {
        Seq::empty()
    } else if directory_of(stats.last().path) == dir {
        files_in(stats.drop_last(), dir).push(stats.last())
    } else {
        files_in(stats.drop_last(), dir)
    }
}

pub open spec fn group_of(stats: Seq<FileStatView>, dir: Seq<char>) -> DiffGroupView {
    DiffGroupView {
        directory: dir,
        files: sorted::<FileStat, ByFile>(files_in(stats, dir)),
        stats: total_of(files_in(stats, dir)),
    }
}

/// The directories of some files, in order.
pub open spec fn directories(stats: Seq<FileStatView>) -> Seq<Seq<char>> {
    sorted::<String, ByText>(stats.map_values(|s: FileStatView| directory_of(s.path)))
}

/// One group for each different directory of a sorted list.
pub open spec fn groups_for(stats: Seq<FileStatView>, dirs: Seq<Seq<char>>) -> Seq<DiffGroupView>
    decreases dirs.len(),
{
    if dirs.len() == 0 {
        Seq::empty()
    } else if dirs.len() > 1 && dirs[dirs.len() - 2] == dirs.last() {
        groups_for(stats, dirs.drop_last())
    } else {
        groups_for(stats, dirs.drop_last()).push(group_of(stats, dirs.last()))
    }
}

/// Files grouped by directory.
pub open spec fn groups_of(stats: Seq<FileStatView>) -> Seq<DiffGroupView> {
    groups_for(stats, directories(stats))
}

proof fn lemma_files_in_sum(stats: Seq<FileStatView>, dir: Seq<char>)
    ensures
        0 <= sum_additions(files_in(stats, dir)) <= sum_additions(stats),
        0 <= sum_deletions(files_in(stats, dir)) <= sum_deletions(stats),
    decreases stats.len(),
{
    if stats.len() > 0 {
        lemma_files_in_sum(stats.drop_last(), dir);
        if directory_of(stats.last().path) == dir {
            assert(files_in(stats, dir).drop_last() =~= files_in(stats.drop_last(), dir));
        }
    }
}

fn select_files(stats: &Vec<FileStat>, dir: &str) -> (r: Vec<FileStat>)
    ensures
        r.deep_view() == files_in(stats.deep_view(), dir@),
{
    let ghost all = stats.deep_view();
    let mut out: Vec<FileStat> = Vec::new();
    let mut k: usize = 0;
    assert(out.deep_view() =~= files_in(all.take(0), dir@));
    while k < stats.len()
        invariant
            k <= stats.len(),
            all == stats.deep_view(),
            out.deep_view() == files_in(all.take(k as int), dir@),
        decreases stats.len() - k,
    {
        let ghost was = out.deep_view();
        proof {
            assert(all.take(k + 1).drop_last() =~= all.take(k as int));
            assert(all.take(k + 1).last() == stats[k as int].deep_view());
        }
        if text::same(&directory(&stats[k].path), dir) {
            out.push(stats[k].dup());
            assert(out.deep_view() =~= was.push(all[k as int]));
        }
        k += 1;
    }
    assert(all.take(k as int) =~= all);
    out
}

fn group_files(stats: &Vec<FileStat>) -> (r: Vec<DiffGroup>)
    requires
        summable(stats.deep_view()),
    ensures
        r.deep_view() == groups_of(stats.deep_view()),
{
    let ghost all = stats.deep_view();
    let ghost want = all.map_values(|s: FileStatView| directory_of(s.path));
    let mut names: Vec<String> = Vec::new();
    let mut k: usize = 0;
    while k < stats.len()
        invariant
            k <= stats.len(),
            all == stats.deep_view(),
            want == all.map_values(|s: FileStatView| directory_of(s.path)),
            names.deep_view() =~= want.take(k as int),
        decreases stats.len() - k,
    {
        let ghost was = names.deep_view();
        assert(all[k as int] == stats[k as int].deep_view());
        names.push(directory(&stats[k].path));
        assert(names.deep_view() =~= was.push(want[k as int]));
        k += 1;
    }
    assert(want.take(k as int) =~= want);
    let dirs: Vec<String> = order::sort::<String, ByText>(names);
    let ghost ds = dirs.deep_view();
    let mut out: Vec<DiffGroup> = Vec::new();
    let mut k: usize = 0;
    assert(out.deep_view() =~= groups_for(all, ds.take(0)));
    while k < dirs.len()
        invariant
            k <= dirs.len(),
            all == stats.deep_view(),
            summable(all),
            ds == dirs.deep_view(),
            out.deep_view() == groups_for(all, ds.take(k as int)),
        decreases dirs.len() - k,
    {
        let ghost was = out.deep_view();
        proof {
            assert(ds.take(k + 1).drop_last() =~= ds.take(k as int));
            assert(ds.take(k + 1).last() == dirs[k as int]@);
            if k > 0 {
                assert(ds.take(k + 1)[k - 1] == dirs[k - 1]@);
            }
        }
        if !(k > 0 && dirs[k - 1] == dirs[k]) {
            let files: Vec<FileStat> = select_files(stats, &dirs[k]);
            proof {
                lemma_files_in_sum(all, dirs[k as int]@);
            }
            let total: LineStats = LineStats::sum(&files);
            let group = DiffGroup {
                directory: dirs[k].dup(),
                files: order::sort::<FileStat, ByFile>(files),
                stats: total,
            };
            assert(group.deep_view() =~= group_of(all, dirs[k as int]@));
            out.push(group);
            assert(out.deep_view() =~= was.push(group_of(all, dirs[k as int]@)));
        }
        k += 1;
    }
    assert(ds.take(k as int) =~= ds);
    out
}

/// Line statistics against the base branch, grouped by directory.
pub fn build_diff(repository: RepositoryContext, base_stats: &Vec<FileStat>) -> (r: DiffReport)
    requires
        summable(base_stats.deep_view()),
    ensures
        r.deep_view() == (DiffReportView {
            repository: repository.deep_view(),
            groups: groups_of(base_stats.deep_view()),
            files_changed: base_stats.len(),
            stats: total_of(base_stats.deep_view()),
        }),
{
    DiffReport {
        groups: group_files(base_stats),
        files_changed: base_stats.len(),
        stats: LineStats::sum(base_stats),
        repository,
    }
}

// ---------------------------------------------------------------------------
// One file
/// A path with `/` for every `\`.
pub open spec fn slashed(p: Seq<char>) -> Seq<char> {
    p.map_values(
        |c: char|
            if c == '\\' {
                '/'
            } else {
                c
            },
    )
}

/// The file that `trail inspect` means.
pub fn inspect_path(repo: &Repo, cwd: &str, file: &str) -> (r: String)
    ensures
        r@ == slashed(path::relative(repo.deep_view().worktree.root, cwd@, file@)),
{
    let rel: String = path::relative_to(&repo.worktree.root, cwd, file);
    let v: Vec<char> = text::chars_of(&rel);
    let ghost want = slashed(rel@);
    let mut out: String = String::new();
    let mut k: usize = 0;
    while k < v.len()
        invariant
            k <= v.len(),
            v@ == rel@,
            want == slashed(rel@),
            out@ =~= want.take(k as int),
        decreases v.len() - k,
    {
        let ghost was = out@;
        let c: char = if v[k] == '\\' {
            '/'
        } else {
            v[k]
        };
        out.push(c);
        assert(out@ =~= was.push(want[k as int]));
        k += 1;
    }
    assert(want.take(k as int) =~= want);
    out
}

/// The first entry of a file.
pub open spec fn entry_of(entries: Seq<StatusEntryView>, p: Seq<char>) -> Option<StatusEntryView>
    decreases entries.len(),
{
    if entries.len() == 0 {
        None
    } else if path::same_path(entries[0].path, p) {
        Some(entries[0])
    } else {
        entry_of(entries.drop_first(), p)
    }
}

/// The first statistics of a file.
pub open spec fn first_stat(stats: Seq<FileStatView>, p: Seq<char>) -> Option<FileStatView>
    decreases stats.len(),
{
    if stats.len() == 0 {
        None
    } else if path::same_path(stats[0].path, p) {
        Some(stats[0])
    } else {
        first_stat(stats.drop_first(), p)
    }
}

fn find_entry<'a>(entries: &'a Vec<StatusEntry>, p: &str) -> (r: Option<&'a StatusEntry>)
    ensures
        r.deep_view() == entry_of(entries.deep_view(), p@),
{
    let ghost all = entries.deep_view();
    let mut k: usize = 0;
    assert(all.skip(0) =~= all);
    while k < entries.len()
        invariant
            k <= entries.len(),
            all == entries.deep_view(),
            entry_of(all, p@) == entry_of(all.skip(k as int), p@),
        decreases entries.len() - k,
    {
        assert(all.skip(k as int)[0] == entries[k as int].deep_view());
        if path::same(&entries[k].path, p) {
            return Some(&entries[k]);
        }
        assert(all.skip(k as int).drop_first() =~= all.skip(k + 1));
        k += 1;
    }
    None
}

fn find_first_stat<'a>(stats: &'a Vec<FileStat>, p: &str) -> (r: Option<&'a FileStat>)
    ensures
        r.deep_view() == first_stat(stats.deep_view(), p@),
{
    let ghost all = stats.deep_view();
    let mut k: usize = 0;
    assert(all.skip(0) =~= all);
    while k < stats.len()
        invariant
            k <= stats.len(),
            all == stats.deep_view(),
            first_stat(all, p@) == first_stat(all.skip(k as int), p@),
        decreases stats.len() - k,
    {
        assert(all.skip(k as int)[0] == stats[k as int].deep_view());
        if path::same(&stats[k].path, p) {
            return Some(&stats[k]);
        }
        assert(all.skip(k as int).drop_first() =~= all.skip(k + 1));
        k += 1;
    }
    None
}

/// What is known about one file.
#[derive(Debug, Clone, PartialEq, Eq)]
pub struct FileFacts {
    /// `git status` of the worktree.
    pub entries: Vec<StatusEntry>,
    /// Whether the file is in the working tree.
    pub exists: bool,
    /// Commits that touched it, newest first.
    pub commits: Vec<FileCommit>,
    /// Its lines when it is untracked.
    pub untracked_stats: Vec<FileStat>,
    /// HEAD to working tree.
    pub head_stats: Vec<FileStat>,
    /// Merge base to working tree.
    pub base_stats: Vec<FileStat>,
    /// Ids of the commits on this branch and not on the base.
    pub on_branch: Vec<String>,
    /// When it was last modified, as far as the disk says.
    pub modified: Option<Timestamp>,
}

/// What a [`FileFacts`] denotes.
#[verifier::ext_equal]
pub struct FileFactsView {
    pub entries: Seq<StatusEntryView>,
    pub exists: bool,
    pub commits: Seq<FileCommitView>,
    pub untracked_stats: Seq<FileStatView>,
    pub head_stats: Seq<FileStatView>,
    pub base_stats: Seq<FileStatView>,
    pub on_branch: Seq<Seq<char>>,
    pub modified: Option<Timestamp>,
}

impl DeepView for FileFacts {
    type V = FileFactsView;

    open spec fn deep_view(&self) -> FileFactsView {
        FileFactsView {
            entries: self.entries.deep_view(),
            exists: self.exists.deep_view(),
            commits: self.commits.deep_view(),
            untracked_stats: self.untracked_stats.deep_view(),
            head_stats: self.head_stats.deep_view(),
            base_stats: self.base_stats.deep_view(),
            on_branch: self.on_branch.deep_view(),
            modified: self.modified.deep_view(),
        }
    }
}

impl Dup for FileFacts {
    fn dup(&self) -> (r: FileFacts) {
        FileFacts {
            entries: self.entries.dup(),
            exists: self.exists.dup(),
            commits: self.commits.dup(),
            untracked_stats: self.untracked_stats.dup(),
            head_stats: self.head_stats.dup(),
            base_stats: self.base_stats.dup(),
            on_branch: self.on_branch.dup(),
            modified: self.modified.dup(),
        }
    }
}

/// A file git knows: some commit touched it, or its status says so.
pub open spec fn known_to_git(facts: FileFactsView, rel: Seq<char>) -> bool {
    facts.commits.len() > 0 || match entry_of(facts.entries, rel) {
        Some(e) => !e.untracked,
        None => false,
    }
}

/// What `trail inspect` says about a file. One that is neither tracked nor
/// there cannot be inspected.
pub open spec fn inspected(
    repository: RepositoryContextView,
    rel: Seq<char>,
    facts: FileFactsView,
) -> Result<InspectReportView, TrailErrorView> {
    let status = entry_of(facts.entries, rel);
    let is_untracked = status is Some && status->Some_0.untracked;
    if !known_to_git(facts, rel) && !facts.exists {
        Err(TrailErrorView::FileNotFound(rel))
    } else {
        Ok(
            InspectReportView {
                repository,
                path: rel,
                is_tracked: known_to_git(facts, rel),
                exists: facts.exists,
                status,
                worktree_stat: if is_untracked {
                    first_stat(facts.untracked_stats, rel)
                } else {
                    first_stat(facts.head_stats, rel)
                },
                base_stat: if is_untracked {
                    first_stat(facts.untracked_stats, rel)
                } else {
                    first_stat(facts.base_stats, rel)
                },
                last_modified: if facts.exists {
                    facts.modified
                } else {
                    None
                },
                commits: facts.commits.map_values(
                    |c: FileCommitView|
                        InspectCommitView { commit: c, on_branch: facts.on_branch.contains(c.id) },
                ),
            },
        )
    }
}

/// Status, line stats and the commits of a single file, given relative to the
/// repository root.
pub fn build_inspect(repository: RepositoryContext, rel: String, facts: &FileFacts) -> (r: Result<
    InspectReport,
    TrailError,
>)
    ensures
        outcome(r) == inspected(repository.deep_view(), rel@, facts.deep_view()),
{
    let ghost f = facts.deep_view();
    let status: Option<&StatusEntry> = find_entry(&facts.entries, &rel);
    let is_untracked: bool = match status {
        Some(s) => s.untracked,
        None => false,
    };
    let is_tracked: bool = facts.commits.len() > 0 || match status {
        Some(s) => !s.untracked,
        None => false,
    };
    if !is_tracked && !facts.exists {
        return Err(TrailError::FileNotFound(rel));
    }
    let worktree_stat: Option<&FileStat> = if is_untracked {
        find_first_stat(&facts.untracked_stats, &rel)
    } else {
        find_first_stat(&facts.head_stats, &rel)
    };
    let base_stat: Option<&FileStat> = if is_untracked {
        find_first_stat(&facts.untracked_stats, &rel)
    } else {
        find_first_stat(&facts.base_stats, &rel)
    };
    let ghost mark = |c: FileCommitView|
        InspectCommitView { commit: c, on_branch: f.on_branch.contains(c.id) };
    let ghost want = f.commits.map_values(mark);
    let mut commits: Vec<InspectCommit> = Vec::new();
    let mut k: usize = 0;
    while k < facts.commits.len()
        invariant
            k <= facts.commits.len(),
            f == facts.deep_view(),
            mark == (|c: FileCommitView|
                InspectCommitView { commit: c, on_branch: f.on_branch.contains(c.id) }),
            want == f.commits.map_values(mark),
            commits.deep_view() =~= want.take(k as int),
        decreases facts.commits.len() - k,
    {
        let ghost was = commits.deep_view();
        let c: &FileCommit = &facts.commits[k];
        let on_branch: bool = contains_text(&facts.on_branch, &c.id);
        assert(f.commits[k as int] == c.deep_view());
        let ic = InspectCommit { commit: c.dup(), on_branch };
        assert(ic.deep_view() =~= want[k as int]);
        commits.push(ic);
        assert(commits.deep_view() =~= was.push(want[k as int]));
        k += 1;
    }
    assert(want.take(k as int) =~= want);
    let r = InspectReport {
        repository,
        is_tracked,
        exists: facts.exists,
        status: match status {
            Some(s) => Some(s.dup()),
            None => None,
        },
        worktree_stat: match worktree_stat {
            Some(s) => Some(s.dup()),
            None => None,
        },
        base_stat: match base_stat {
            Some(s) => Some(s.dup()),
            None => None,
        },
        last_modified: if facts.exists {
            facts.modified
        } else {
            None
        },
        commits,
        path: rel,
    };
    assert(r.deep_view() =~= inspected(repository.deep_view(), rel@, f)->Ok_0);
    Ok(r)
}

// ---------------------------------------------------------------------------
// Sessions
/// A recorded session, with whether its worktree and its snapshots are there.
#[derive(Debug, Clone, PartialEq, Eq)]
pub struct FoundSession {
    pub file: SessionFile,
    pub worktree_exists: bool,
    pub snapshots: bool,
}

/// What a [`FoundSession`] denotes.
#[verifier::ext_equal]
pub struct FoundSessionView {
    pub file: SessionFileView,
    pub worktree_exists: bool,
    pub snapshots: bool,
}

impl DeepView for FoundSession {
    type V = FoundSessionView;

    open spec fn deep_view(&self) -> FoundSessionView {
        FoundSessionView {
            file: self.file.deep_view(),
            worktree_exists: self.worktree_exists.deep_view(),
            snapshots: self.snapshots.deep_view(),
        }
    }
}

impl Dup for FoundSession {
    fn dup(&self) -> (r: FoundSession) {
        FoundSession {
            file: self.file.dup(),
            worktree_exists: self.worktree_exists.dup(),
            snapshots: self.snapshots.dup(),
        }
    }
}

pub open spec fn session_summary(s: FoundSessionView) -> SessionSummaryView {
    SessionSummaryView {
        session_id: s.file.header.session_id,
        worktree_id: s.file.header.worktree_id,
        worktree_path: s.file.header.worktree_path,
        worktree_exists: s.worktree_exists,
        branch: s.file.header.branch,
        started_at: s.file.header.started_at,
        ended_at: s.file.ended_at,
        last_activity: last_activity_of(s.file),
        events: s.file.events,
        checkpoints: checkpoints_of(s.file.header.session_id, s.file.records).len() as usize,
        snapshots: s.snapshots,
        path: s.file.path,
    }
}

fn summarize_session(s: &FoundSession) -> (r: SessionSummary)
    requires
        s.file.records.len() < u32::MAX,
    ensures
        r.deep_view() == session_summary(s.deep_view()),
{
    let records = s.file.records.as_slice();
    assert(records.deep_view() =~= s.file.records.deep_view());
    let cps: Vec<Checkpoint> = build_checkpoints(&s.file.header.session_id, records);
    assert(cps.deep_view().len() == cps.len());
    let r = SessionSummary {
        session_id: s.file.header.session_id.dup(),
        worktree_id: s.file.header.worktree_id.dup(),
        worktree_path: s.file.header.worktree_path.dup(),
        worktree_exists: s.worktree_exists,
        branch: s.file.header.branch.dup(),
        started_at: s.file.header.started_at,
        ended_at: s.file.ended_at,
        last_activity: s.file.last_activity(),
        events: s.file.events,
        checkpoints: cps.len(),
        snapshots: s.snapshots,
        path: s.file.path.dup(),
    };
    assert(r.deep_view() =~= session_summary(s.deep_view()));
    r
}

/// Every recorded session of the repository.
pub fn build_sessions(repository: &str, sessions: &Vec<FoundSession>) -> (r: SessionsReport)
    requires
        forall|i: int|
            0 <= i < sessions.len() ==> (#[trigger] sessions[i]).file.records.len() < u32::MAX,
    ensures
        r.deep_view() == (SessionsReportView {
            repository: repository@,
            sessions: sessions.deep_view().map_values(|s: FoundSessionView| session_summary(s)),
        }),
{
    let ghost all = sessions.deep_view();
    let ghost f = |s: FoundSessionView| session_summary(s);
    let ghost want = all.map_values(f);
    let mut out: Vec<SessionSummary> = Vec::new();
    let mut k: usize = 0;
    while k < sessions.len()
        invariant
            k <= sessions.len(),
            all == sessions.deep_view(),
            f == (|s: FoundSessionView| session_summary(s)),
            want == all.map_values(f),
            out.deep_view() =~= want.take(k as int),
            forall|i: int|
                0 <= i < sessions.len() ==> (#[trigger] sessions[i]).file.records.len() < u32::MAX,
        decreases sessions.len() - k,
    {
        let ghost was = out.deep_view();
        assert(all[k as int] == sessions[k as int].deep_view());
        out.push(summarize_session(&sessions[k]));
        assert(out.deep_view() =~= was.push(want[k as int]));
        k += 1;
    }
    assert(want.take(k as int) =~= want);
    SessionsReport { repository: repository.to_owned(), sessions: out }
}

// ---------------------------------------------------------------------------
// Changes since a baseline
/// How git's kinds of change are shown in a list of files.
pub open spec fn list_kind(kind: ChangeKind) -> checkpoint::ChangeKind {
    match kind {
        ChangeKind::Added | ChangeKind::Copied => checkpoint::ChangeKind::Created,
        ChangeKind::Deleted => checkpoint::ChangeKind::Deleted,
        ChangeKind::Renamed => checkpoint::ChangeKind::Renamed,
        _ => checkpoint::ChangeKind::Modified,
    }
}

/// What the last commit that touched a file did to it; a file is created by a
/// series of commits when the first of them added it.
pub open spec fn committed_kind(commits: Seq<CommitInfoView>, p: Seq<char>) -> Option<ChangeKind>
    decreases commits.len(),
{
    if commits.len() == 0 {
        None
    } else {
        let before = committed_kind(commits.drop_last(), p);
        match kind_in(commits.last().files, p) {
            Some(kind) => if before == Some(ChangeKind::Added) && kind != ChangeKind::Deleted {
                before
            } else {
                Some(kind)
            },
            None => before,
        }
    }
}

/// What one commit did to a file.
pub open spec fn kind_in(files: Seq<CommitFileView>, p: Seq<char>) -> Option<ChangeKind>
    decreases files.len(),
{
    if files.len() == 0 {
        None
    } else if path::same_path(files.last().path, p) {
        Some(files.last().kind)
    } else {
        kind_in(files.drop_last(), p)
    }
}

/// One file that differs from the baseline: what happened to it, by its status
/// in the working tree or else by the commits.
pub open spec fn changed_file(
    stat: FileStatView,
    entries: Seq<StatusEntryView>,
    commits: Seq<CommitInfoView>,
) -> ChangedFileView {
    let status = entry_of(entries, stat.path);
    ChangedFileView {
        kind: match committed_kind(commits, stat.path) {
            Some(kind) => match status {
                Some(e) => if e.effective() == ChangeKind::Modified {
                    list_kind(kind)
                } else {
                    list_kind(e.effective())
                },
                None => list_kind(kind),
            },
            None => match status {
                Some(e) => list_kind(e.effective()),
                None => if stat.old_path is Some {
                    checkpoint::ChangeKind::Renamed
                } else {
                    checkpoint::ChangeKind::Modified
                },
            },
        },
        stat,
        status,
    }
}

fn to_list_kind(kind: ChangeKind) -> (r: checkpoint::ChangeKind)
    ensures
        r == list_kind(kind),
{
    match kind {
        ChangeKind::Added => checkpoint::ChangeKind::Created,
        ChangeKind::Copied => checkpoint::ChangeKind::Created,
        ChangeKind::Deleted => checkpoint::ChangeKind::Deleted,
        ChangeKind::Renamed => checkpoint::ChangeKind::Renamed,
        _ => checkpoint::ChangeKind::Modified,
    }
}

fn find_kind(files: &Vec<CommitFile>, p: &str) -> (r: Option<ChangeKind>)
    ensures
        r == kind_in(files.deep_view(), p@),
{
    let ghost all = files.deep_view();
    let mut k: usize = files.len();
    assert(all.take(k as int) =~= all);
    while k > 0
        invariant
            k <= files.len(),
            all == files.deep_view(),
            kind_in(all, p@) == kind_in(all.take(k as int), p@),
        decreases k,
    {
        assert(all.take(k as int).last() == files[k - 1].deep_view());
        if path::same(&files[k - 1].path, p) {
            return Some(files[k - 1].kind);
        }
        assert(all.take(k as int).drop_last() =~= all.take(k - 1));
        k -= 1;
    }
    None
}

fn find_committed_kind(commits: &Vec<CommitInfo>, p: &str) -> (r: Option<ChangeKind>)
    ensures
        r == committed_kind(commits.deep_view(), p@),
{
    let ghost all = commits.deep_view();
    let mut found: Option<ChangeKind> = None;
    let mut k: usize = 0;
    assert(all.take(0) =~= Seq::empty());
    while k < commits.len()
        invariant
            k <= commits.len(),
            all == commits.deep_view(),
            found == committed_kind(all.take(k as int), p@),
        decreases commits.len() - k,
    {
        proof {
            assert(all.take(k + 1).drop_last() =~= all.take(k as int));
            assert(all.take(k + 1).last() == commits[k as int].deep_view());
        }
        match find_kind(&commits[k].files, p) {
            Some(kind) => {
                let created: bool = match found {
                    Some(ChangeKind::Added) => true,
                    _ => false,
                };
                if !(created && kind != ChangeKind::Deleted) {
                    found = Some(kind);
                }
            },
            None => {},
        }
        k += 1;
    }
    assert(all.take(k as int) =~= all);
    found
}

fn to_changed_file(
    stat: &FileStat,
    entries: &Vec<StatusEntry>,
    commits: &Vec<CommitInfo>,
) -> (r: ChangedFile)
    ensures
        r.deep_view() == changed_file(
            stat.deep_view(),
            entries.deep_view(),
            commits.deep_view(),
        ),
{
    let status: Option<&StatusEntry> = find_entry(entries, &stat.path);
    let kind: checkpoint::ChangeKind = match find_committed_kind(commits, &stat.path) {
        Some(kind) => match status {
            Some(e) => {
                let now: ChangeKind = e.effective_kind();
                if now == ChangeKind::Modified {
                    to_list_kind(kind)
                } else {
                    to_list_kind(now)
                }
            },
            None => to_list_kind(kind),
        },
        None => match status {
            Some(e) => to_list_kind(e.effective_kind()),
            None => if stat.old_path.is_some() {
                checkpoint::ChangeKind::Renamed
            } else {
                checkpoint::ChangeKind::Modified
            },
        },
    };
    ChangedFile {
        kind,
        stat: stat.dup(),
        status: match status {
            Some(e) => Some(e.dup()),
            None => None,
        },
    }
}

/// What changed since a baseline: commits, files and recorded checkpoints.
pub fn build_changes(
    repository: RepositoryContext,
    commits: Vec<CommitInfo>,
    entries: &Vec<StatusEntry>,
    base_stats: &Vec<FileStat>,
    checkpoints: usize,
) -> (r: ChangesReport)
    requires
        summable(base_stats.deep_view()),
    ensures
        r.deep_view() == (ChangesReportView {
            repository: repository.deep_view(),
            commits: commits.deep_view(),
            files: base_stats.deep_view().map_values(
                |s: FileStatView| changed_file(s, entries.deep_view(), commits.deep_view()),
            ),
            checkpoints,
            counts: counts_of(entries.deep_view()),
            stats: total_of(base_stats.deep_view()),
        }),
{
    let ghost all = base_stats.deep_view();
    let ghost f = |s: FileStatView| changed_file(s, entries.deep_view(), commits.deep_view());
    let ghost want = all.map_values(f);
    let mut files: Vec<ChangedFile> = Vec::new();
    let mut k: usize = 0;
    while k < base_stats.len()
        invariant
            k <= base_stats.len(),
            all == base_stats.deep_view(),
            f == (|s: FileStatView|
                changed_file(s, entries.deep_view(), commits.deep_view())),
            want == all.map_values(f),
            files.deep_view() =~= want.take(k as int),
        decreases base_stats.len() - k,
    {
        let ghost was = files.deep_view();
        assert(all[k as int] == base_stats[k as int].deep_view());
        files.push(to_changed_file(&base_stats[k], entries, &commits));
        assert(files.deep_view() =~= was.push(want[k as int]));
        k += 1;
    }
    assert(want.take(k as int) =~= want);
    ChangesReport {
        repository,
        files,
        checkpoints,
        counts: kind_counts(entries),
        stats: LineStats::sum(base_stats),
        commits,
    }
}

} // verus!
