//! Building a review from a trail, the commits it shows and the contents behind
//! them.

use super::{
    CommitFile, CommitFileView, CommitReview, CommitReviewView, FileRow, FileRowView,
    REVIEW_VERSION, ReviewCheckpoint, ReviewCheckpointView, ReviewFile, ReviewFileView,
    ReviewSection, ReviewSectionView, ReviewSummary, ReviewWorktree, ReviewWorktreeView,
    WorkingTreeFile, WorkingTreeFileView, WorkingTreeReview, WorkingTreeReviewView, WorktreeReview,
    WorktreeReviewView,
};
use super::diff::{
    self, added_lines, content, hunks_between, lemma_matchable, looks_binary, matchable,
    removed_lines,
};
use crate::data::Dup;
use crate::git::diff::{or_zero, FileStat, FileStatView, LineStats, StatusEntry, StatusEntryView};
use crate::git::history::{
    CommitFile as GitCommitFile, CommitFileView as GitCommitFileView, CommitInfo, CommitInfoView,
};
use crate::git::repository::{worktree_id_of, Repo, RepoView};
use crate::map::{lemma_map_of, map_of, TextMap};
use crate::path;
use crate::recorder::checkpoint::{FileChange, FileChangeView};
use crate::text;
use crate::time::{earlier, epoch, later_of, Timestamp};
use crate::trail::{Trail, TrailView};
use crate::trail::builder::{find_stat, stat_of, visible_checkpoint};
use crate::trail::event::{TrailEvent, TrailEventType, TrailEventView};
use vstd::prelude::*;

verus! {

/// What is known of the working tree: its status, and its line statistics
/// against HEAD, untracked files apart.
#[derive(Debug, Clone, PartialEq, Eq)]
pub struct WorkState {
    pub entries: Vec<StatusEntry>,
    pub stats: Vec<FileStat>,
    pub untracked: Vec<FileStat>,
}

/// What a [`WorkState`] denotes.
#[verifier::ext_equal]
pub struct WorkStateView {
    pub entries: Seq<StatusEntryView>,
    pub stats: Seq<FileStatView>,
    pub untracked: Seq<FileStatView>,
}

impl DeepView for WorkState {
    type V = WorkStateView;

    open spec fn deep_view(&self) -> WorkStateView {
        WorkStateView {
            entries: self.entries.deep_view(),
            stats: self.stats.deep_view(),
            untracked: self.untracked.deep_view(),
        }
    }
}

impl Dup for WorkState {
    fn dup(&self) -> (r: WorkState) {
        WorkState {
            entries: self.entries.dup(),
            stats: self.stats.dup(),
            untracked: self.untracked.dup(),
        }
    }
}

// ---------------------------------------------------------------------------
// Contents
/// Every content can be compared line by line.
pub open spec fn comparable(blobs: Map<Seq<char>, Seq<u8>>) -> bool {
    forall|h: Seq<char>| blobs.dom().contains(h) ==> matchable(#[trigger] blobs[h])
}

/// Whether every content can be compared line by line.
pub fn can_compare(blobs: &TextMap<Vec<u8>>) -> (r: bool)
    ensures
        r == comparable(blobs.deep_view()),
{
    let entries: &Vec<(String, Vec<u8>)> = blobs.entries();
    let ghost all = entries.deep_view();
    let ghost map = blobs.deep_view();
    let mut k: usize = 0;
    while k < entries.len()
        invariant
            k <= entries.len(),
            all == entries.deep_view(),
            map == blobs.deep_view(),
            map == map_of(all),
            forall|i: int| 0 <= i < k ==> matchable(map[(#[trigger] all[i]).0]),
        decreases entries.len() - k,
    {
        proof {
            lemma_map_of(all, all[k as int].0);
            assert(all[k as int].0 == entries[k as int].0@);
        }
        match blobs.get(&entries[k].0) {
            Some(data) => {
                assert(data.deep_view() =~= data@);
                if !diff::is_matchable(data.as_slice()) {
                    assert(!matchable(map[all[k as int].0]));
                    return false;
                }
            },
            None => {},
        }
        k += 1;
    }
    proof {
        assert forall|h: Seq<char>| map.dom().contains(h) implies matchable(#[trigger] map[h]) by {
            lemma_map_of(all, h);
            let i = choose|i: int| 0 <= i < all.len() && (#[trigger] all[i]).0 == h;
            assert(matchable(map[all[i].0]));
        }
    }
    true
}

/// One side of a diff: `Some(None)` for "no file" (created/deleted), `None`
/// when the content is not there.
pub open spec fn side_of(blobs: Map<Seq<char>, Seq<u8>>, hash: Option<Seq<char>>) -> Option<
    Option<Seq<u8>>,
> {
    match hash {
        None => Some(None),
        Some(h) => if blobs.dom().contains(h) {
            Some(Some(blobs[h]))
        } else {
            None
        },
    }
}

/// One side of a diff, with nothing for what is not there.
pub open spec fn side_or_nothing(
    blobs: Map<Seq<char>, Seq<u8>>,
    hash: Option<Seq<char>>,
) -> Option<Seq<u8>> {
    match side_of(blobs, hash) {
        Some(side) => side,
        None => None,
    }
}

/// Whether the content behind a hash is there to be compared.
fn has_side(blobs: &TextMap<Vec<u8>>, hash: &Option<String>) -> (r: bool)
    ensures
        r == (side_of(blobs.deep_view(), hash.deep_view()) is Some),
{
    match hash {
        None => true,
        Some(h) => blobs.get(h).is_some(),
    }
}

/// The content behind a hash; nothing where there is none.
pub(crate) fn side<'a>(blobs: &'a TextMap<Vec<u8>>, hash: &Option<String>) -> (r: Option<
    &'a [u8],
>)
    ensures
        r.deep_view() == side_or_nothing(blobs.deep_view(), hash.deep_view()),
        comparable(blobs.deep_view()) ==> matchable(content(r.deep_view())),
{
    proof {
        lemma_nothing_matchable();
    }
    match hash {
        None => None,
        Some(h) => match blobs.get(h) {
            Some(data) => {
                let s = data.as_slice();
                assert(s.deep_view() =~= data.deep_view());
                Some(s)
            },
            None => None,
        },
    }
}

proof fn lemma_nothing_matchable()
    ensures
        matchable(Seq::<u8>::empty()),
{
}

/// The line counts of a change of content; none when a side is binary.
pub open spec fn counts_between(before: Seq<u8>, after: Seq<u8>) -> Option<LineStats> {
    if looks_binary(before) || looks_binary(after) {
        None
    } else {
        Some(
            LineStats {
                additions: added_lines(hunks_between(before, after)) as u64,
                deletions: removed_lines(hunks_between(before, after)) as u64,
            },
        )
    }
}

fn compare(before: Option<&[u8]>, after: Option<&[u8]>) -> (r: Option<LineStats>)
    requires
        matchable(content(before.deep_view())),
        matchable(content(after.deep_view())),
    ensures
        r == counts_between(content(before.deep_view()), content(after.deep_view())),
        r is Some ==> r->Some_0.additions <= u32::MAX && r->Some_0.deletions <= u32::MAX,
{
    let nothing: Vec<u8> = Vec::new();
    let b: &[u8] = match before {
        Some(data) => data,
        None => nothing.as_slice(),
    };
    let a: &[u8] = match after {
        Some(data) => data,
        None => nothing.as_slice(),
    };
    assert(b@ =~= content(before.deep_view()));
    assert(a@ =~= content(after.deep_view()));
    if diff::is_binary(b) || diff::is_binary(a) {
        None
    } else {
        proof {
            lemma_matchable(b@, a@);
        }
        Some(diff::line_stats(b, a))
    }
}

pub open spec fn opt_additions(s: Option<LineStats>) -> Option<u64> {
    match s {
        Some(s) => Some(s.additions),
        None => None,
    }
}

pub open spec fn opt_deletions(s: Option<LineStats>) -> Option<u64> {
    match s {
        Some(s) => Some(s.deletions),
        None => None,
    }
}

/// A file of a checkpoint, with line counts from its snapshots.
pub open spec fn review_file_of(
    blobs: Map<Seq<char>, Seq<u8>>,
    change: FileChangeView,
) -> ReviewFileView {
    let before = side_of(blobs, change.before_hash);
    let after = side_of(blobs, change.after_hash);
    let snapshot = before is Some && after is Some;
    let stats = if snapshot {
        counts_between(content(before->Some_0), content(after->Some_0))
    } else {
        None
    };
    ReviewFileView {
        path: change.path,
        kind: change.kind,
        from_path: change.from_path,
        before_hash: change.before_hash,
        after_hash: change.after_hash,
        additions: opt_additions(stats),
        deletions: opt_deletions(stats),
        binary: snapshot && stats is None,
        snapshot,
        edits: change.edits,
    }
}

fn review_file(blobs: &TextMap<Vec<u8>>, change: &FileChange) -> (r: ReviewFile)
    requires
        comparable(blobs.deep_view()),
    ensures
        r.deep_view() == review_file_of(blobs.deep_view(), change.deep_view()),
        or_zero(r.additions) <= u32::MAX,
        or_zero(r.deletions) <= u32::MAX,
{
    let snapshot: bool = has_side(blobs, &change.before_hash) && has_side(
        blobs,
        &change.after_hash,
    );
    let stats: Option<LineStats> = if snapshot {
        compare(side(blobs, &change.before_hash), side(blobs, &change.after_hash))
    } else {
        None
    };
    let r = ReviewFile {
        path: change.path.dup(),
        kind: change.kind,
        from_path: change.from_path.dup(),
        before_hash: change.before_hash.dup(),
        after_hash: change.after_hash.dup(),
        additions: match stats {
            Some(s) => Some(s.additions),
            None => None,
        },
        deletions: match stats {
            Some(s) => Some(s.deletions),
            None => None,
        },
        binary: snapshot && stats.is_none(),
        snapshot,
        edits: change.edits,
    };
    assert(r.deep_view() =~= review_file_of(blobs.deep_view(), change.deep_view()));
    r
}

/// A commit's file with line counts from its blobs.
pub open spec fn commit_file_of(
    blobs: Map<Seq<char>, Seq<u8>>,
    file: GitCommitFileView,
) -> CommitFileView {
    let stats = counts_between(
        content(side_or_nothing(blobs, file.before_id)),
        content(side_or_nothing(blobs, file.after_id)),
    );
    CommitFileView {
        path: file.path,
        old_path: file.old_path,
        kind: file.kind,
        before_id: file.before_id,
        after_id: file.after_id,
        additions: opt_additions(stats),
        deletions: opt_deletions(stats),
        binary: stats is None,
    }
}

fn commit_file(blobs: &TextMap<Vec<u8>>, file: &GitCommitFile) -> (r: CommitFile)
    requires
        comparable(blobs.deep_view()),
    ensures
        r.deep_view() == commit_file_of(blobs.deep_view(), file.deep_view()),
        or_zero(r.additions) <= u32::MAX,
        or_zero(r.deletions) <= u32::MAX,
{
    let stats: Option<LineStats> = compare(
        side(blobs, &file.before_id),
        side(blobs, &file.after_id),
    );
    let r = CommitFile {
        path: file.path.dup(),
        old_path: file.old_path.dup(),
        kind: file.kind,
        before_id: file.before_id.dup(),
        after_id: file.after_id.dup(),
        additions: match stats {
            Some(s) => Some(s.additions),
            None => None,
        },
        deletions: match stats {
            Some(s) => Some(s.deletions),
            None => None,
        },
        binary: stats.is_none(),
    };
    assert(r.deep_view() =~= commit_file_of(blobs.deep_view(), file.deep_view()));
    r
}

// ---------------------------------------------------------------------------
// Checkpoints
pub open spec fn review_files(
    blobs: Map<Seq<char>, Seq<u8>>,
    changes: Seq<FileChangeView>,
) -> Seq<ReviewFileView> {
    changes.map_values(|c: FileChangeView| review_file_of(blobs, c))
}

pub open spec fn lines_added(files: Seq<ReviewFileView>) -> int
    decreases files.len(),
{
    if files.len() == 0 {
        0
    } else {
        lines_added(files.drop_last()) + or_zero(files.last().additions)
    }
}

pub open spec fn lines_deleted(files: Seq<ReviewFileView>) -> int
    decreases files.len(),
{
    if files.len() == 0 {
        0
    } else {
        lines_deleted(files.drop_last()) + or_zero(files.last().deletions)
    }
}

/// When a checkpoint began: its own time, or the first change if that is earlier.
pub open spec fn first_of(start: Timestamp, changes: Seq<FileChangeView>) -> Timestamp
    decreases changes.len(),
{
    if changes.len() == 0 {
        start
    } else {
        let before = first_of(start, changes.drop_last());
        if earlier(changes.last().first_seen, before) {
            changes.last().first_seen
        } else {
            before
        }
    }
}

/// When a checkpoint ended: its own time, or the last change if that is later.
pub open spec fn last_of(start: Timestamp, changes: Seq<FileChangeView>) -> Timestamp
    decreases changes.len(),
{
    if changes.len() == 0 {
        start
    } else {
        later_of(last_of(start, changes.drop_last()), changes.last().last_seen)
    }
}

pub open spec fn start_of(e: TrailEventView) -> Timestamp {
    match e.timestamp {
        Some(t) => t,
        None => epoch(),
    }
}

/// The selector of a checkpoint.
pub open spec fn label_of(section: int, number: int) -> Seq<char> {
    text::decimal(section as nat) + "."@ + text::decimal(number as nat)
}

/// A checkpoint in its place.
pub open spec fn numbered(
    blobs: Map<Seq<char>, Seq<u8>>,
    e: TrailEventView,
    section: int,
    number: int,
) -> ReviewCheckpointView {
    let files = review_files(blobs, e.event_type->changes);
    ReviewCheckpointView {
        section: section as usize,
        number: number as usize,
        label: label_of(section, number),
        id: e.event_type->Checkpoint_id,
        title: e.event_type->Checkpoint_title,
        annotation: e.event_type->annotation,
        started_at: first_of(start_of(e), e.event_type->changes),
        ended_at: last_of(start_of(e), e.event_type->changes),
        bulk: e.event_type->bulk,
        attachment: e.event_type->attachment,
        files,
        stats: LineStats {
            additions: lines_added(files) as u64,
            deletions: lines_deleted(files) as u64,
        },
    }
}

/// Some checkpoints, numbered from one.
pub open spec fn numbered_all(
    blobs: Map<Seq<char>, Seq<u8>>,
    events: Seq<TrailEventView>,
    section: int,
) -> Seq<ReviewCheckpointView> {
    Seq::new(events.len(), |i: int| numbered(blobs, events[i], section, i + 1))
}

/// The checkpoints a review shows, in reading order.
pub open spec fn pending(events: Seq<TrailEventView>) -> Seq<TrailEventView>
    decreases events.len(),
{
    if events.len() == 0 {
        Seq::empty()
    } else if visible_checkpoint(events.last()) {
        pending(events.drop_last()).push(events.last())
    } else {
        pending(events.drop_last())
    }
}

/// The commits of a trail, oldest first.
pub open spec fn commit_ids(events: Seq<TrailEventView>) -> Seq<Seq<char>>
    decreases events.len(),
{
    if events.len() == 0 {
        Seq::empty()
    } else if events.last().event_type is Commit {
        commit_ids(events.drop_last()).push(events.last().event_type->Commit_id)
    } else {
        commit_ids(events.drop_last())
    }
}

/// The checkpoints that were work towards one commit.
pub open spec fn towards(events: Seq<TrailEventView>, id: Seq<char>) -> Seq<TrailEventView>
    decreases events.len(),
{
    if events.len() == 0 {
        Seq::empty()
    } else if events.last().event_type->commit == Some(id) {
        towards(events.drop_last(), id).push(events.last())
    } else {
        towards(events.drop_last(), id)
    }
}

/// Attached to none of some commits.
pub open spec fn unattached(e: TrailEventView, ids: Seq<Seq<char>>) -> bool {
    match e.event_type->commit {
        Some(c) => !ids.contains(c),
        None => true,
    }
}

/// The checkpoints that were work towards nothing committed yet.
pub open spec fn uncommitted(events: Seq<TrailEventView>, ids: Seq<Seq<char>>) -> Seq<
    TrailEventView,
>
    decreases events.len(),
{
    if events.len() == 0 {
        Seq::empty()
    } else if unattached(events.last(), ids) {
        uncommitted(events.drop_last(), ids).push(events.last())
    } else {
        uncommitted(events.drop_last(), ids)
    }
}

// ---------------------------------------------------------------------------
// Sections
pub open spec fn commit_files(
    blobs: Map<Seq<char>, Seq<u8>>,
    files: Seq<GitCommitFileView>,
) -> Seq<CommitFileView> {
    files.map_values(|f: GitCommitFileView| commit_file_of(blobs, f))
}

pub open spec fn commit_added(files: Seq<CommitFileView>) -> int
    decreases files.len(),
{
    if files.len() == 0 {
        0
    } else {
        commit_added(files.drop_last()) + or_zero(files.last().additions)
    }
}

pub open spec fn commit_deleted(files: Seq<CommitFileView>) -> int
    decreases files.len(),
{
    if files.len() == 0 {
        0
    } else {
        commit_deleted(files.drop_last()) + or_zero(files.last().deletions)
    }
}

/// The section of a commit, with the checkpoints that led to it.
pub open spec fn commit_section(
    blobs: Map<Seq<char>, Seq<u8>>,
    number: int,
    c: CommitInfoView,
    checkpoints: Seq<ReviewCheckpointView>,
) -> CommitReviewView {
    let files = commit_files(blobs, c.files);
    CommitReviewView {
        number: number as usize,
        id: c.id,
        short_id: c.short_id,
        summary: c.summary,
        author: c.author,
        time: c.time,
        is_merge: c.parent_count > 1,
        diff_parent: c.first_parent,
        checkpoints,
        files,
        stats: LineStats {
            additions: commit_added(files) as u64,
            deletions: commit_deleted(files) as u64,
        },
    }
}

/// The first commit with an id.
pub open spec fn info_of(infos: Seq<CommitInfoView>, id: Seq<char>) -> Option<CommitInfoView>
    decreases infos.len(),
{
    if infos.len() == 0 {
        None
    } else if infos[0].id == id {
        Some(infos[0])
    } else {
        info_of(infos.drop_first(), id)
    }
}

/// The sections of the first commits, and their checkpoints in reading order.
pub open spec fn commit_sections(
    blobs: Map<Seq<char>, Seq<u8>>,
    infos: Seq<CommitInfoView>,
    steps: Seq<TrailEventView>,
    ids: Seq<Seq<char>>,
) -> (Seq<ReviewSectionView>, Seq<ReviewCheckpointView>)
    decreases ids.len(),
{
    if ids.len() == 0 {
        (Seq::empty(), Seq::empty())
    } else {
        let (sections, flat) = commit_sections(blobs, infos, steps, ids.drop_last());
        match info_of(infos, ids.last()) {
            Some(info) => {
                let cps = numbered_all(blobs, towards(steps, ids.last()), ids.len() as int);
                (
                    sections.push(
                        ReviewSectionView::Commit(
                            commit_section(blobs, ids.len() as int, info, cps),
                        ),
                    ),
                    flat + cps,
                )
            },
            None => (sections, flat),
        }
    }
}

/// One file of the working tree.
pub open spec fn work_file(
    e: StatusEntryView,
    stats: Seq<FileStatView>,
) -> WorkingTreeFileView {
    let stat = stat_of(stats, e.path);
    let binary = stat is Some && stat->Some_0.additions is None;
    WorkingTreeFileView {
        path: e.path,
        old_path: e.orig_path,
        kind: e.effective(),
        staged: e.staged is Some,
        unstaged: e.unstaged is Some,
        untracked: e.untracked,
        additions: if binary || stat is None {
            None
        } else {
            stat->Some_0.additions
        },
        deletions: if binary || stat is None {
            None
        } else {
            stat->Some_0.deletions
        },
        binary,
    }
}

pub open spec fn work_files(work: WorkStateView) -> Seq<WorkingTreeFileView> {
    work.entries.map_values(|e: StatusEntryView| work_file(e, work.stats + work.untracked))
}

pub open spec fn work_added(files: Seq<WorkingTreeFileView>) -> int
    decreases files.len(),
{
    if files.len() == 0 {
        0
    } else {
        work_added(files.drop_last()) + or_zero(files.last().additions)
    }
}

pub open spec fn work_deleted(files: Seq<WorkingTreeFileView>) -> int
    decreases files.len(),
{
    if files.len() == 0 {
        0
    } else {
        work_deleted(files.drop_last()) + or_zero(files.last().deletions)
    }
}

pub open spec fn staged_count(entries: Seq<StatusEntryView>) -> nat {
    crate::trail::tally(entries, |e: StatusEntryView| !e.untracked && e.staged is Some)
}

pub open spec fn unstaged_count(entries: Seq<StatusEntryView>) -> nat {
    crate::trail::tally(entries, |e: StatusEntryView| !e.untracked && e.unstaged is Some)
}

pub open spec fn untracked_count(entries: Seq<StatusEntryView>) -> nat {
    crate::trail::tally(entries, |e: StatusEntryView| e.untracked)
}

/// The section of the working tree.
pub open spec fn work_section(
    number: int,
    live: bool,
    work: WorkStateView,
    checkpoints: Seq<ReviewCheckpointView>,
) -> WorkingTreeReviewView {
    let files = work_files(work);
    WorkingTreeReviewView {
        number: number as usize,
        available: live,
        checkpoints,
        files,
        staged: staged_count(work.entries) as usize,
        unstaged: unstaged_count(work.entries) as usize,
        untracked: untracked_count(work.entries) as usize,
        stats: LineStats {
            additions: work_added(files) as u64,
            deletions: work_deleted(files) as u64,
        },
    }
}

// ---------------------------------------------------------------------------
// The whole review
pub open spec fn checkpoint_paths(cps: Seq<ReviewCheckpointView>) -> Seq<Seq<char>>
    decreases cps.len(),
{
    if cps.len() == 0 {
        Seq::empty()
    } else {
        checkpoint_paths(cps.drop_last()) + cps.last().files.map_values(|f: ReviewFileView| f.path)
    }
}

pub open spec fn section_paths(sections: Seq<ReviewSectionView>) -> Seq<Seq<char>>
    decreases sections.len(),
{
    if sections.len() == 0 {
        Seq::empty()
    } else {
        section_paths(sections.drop_last()) + sections.last().rows().map_values(
            |r: FileRowView| r.path,
        )
    }
}

pub open spec fn checkpoints_added(cps: Seq<ReviewCheckpointView>) -> int
    decreases cps.len(),
{
    if cps.len() == 0 {
        0
    } else {
        checkpoints_added(cps.drop_last()) + cps.last().stats.additions
    }
}

pub open spec fn checkpoints_deleted(cps: Seq<ReviewCheckpointView>) -> int
    decreases cps.len(),
{
    if cps.len() == 0 {
        0
    } else {
        checkpoints_deleted(cps.drop_last()) + cps.last().stats.deletions
    }
}

pub open spec fn sections_added(sections: Seq<ReviewSectionView>) -> int
    decreases sections.len(),
{
    if sections.len() == 0 {
        0
    } else {
        sections_added(sections.drop_last()) + sections.last().total().additions
    }
}

pub open spec fn sections_deleted(sections: Seq<ReviewSectionView>) -> int
    decreases sections.len(),
{
    if sections.len() == 0 {
        0
    } else {
        sections_deleted(sections.drop_last()) + sections.last().total().deletions
    }
}

/// The sections of a review and its checkpoints in reading order.
pub open spec fn sections_of(
    live: bool,
    events: Seq<TrailEventView>,
    infos: Seq<CommitInfoView>,
    blobs: Map<Seq<char>, Seq<u8>>,
    work: WorkStateView,
) -> (Seq<ReviewSectionView>, Seq<ReviewCheckpointView>) {
    let ids = commit_ids(events);
    let steps = pending(events);
    let (sections, flat) = commit_sections(blobs, infos, steps, ids);
    let number = sections.len() + 1;
    let cps = numbered_all(blobs, uncommitted(steps, ids), number as int);
    (
        sections.push(
            ReviewSectionView::WorkingTree(work_section(number as int, live, work, cps)),
        ),
        flat + cps,
    )
}

/// The review of a worktree.
pub open spec fn review_of(
    repo: RepoView,
    trail: TrailView,
    infos: Seq<CommitInfoView>,
    blobs: Map<Seq<char>, Seq<u8>>,
    work: WorkStateView,
    current: bool,
) -> WorktreeReviewView {
    let (sections, flat) = sections_of(repo.live, trail.events, infos, blobs, work);
    WorktreeReviewView {
        version: REVIEW_VERSION,
        repository: trail.repository,
        worktree: ReviewWorktreeView {
            id: worktree_id_of(repo.worktree),
            path: repo.worktree.root,
            branch: repo.head.branch(),
            exists: repo.live,
            current,
        },
        sections,
        checkpoints: flat,
        summary: ReviewSummary {
            commits: commit_ids(trail.events).len() as usize,
            checkpoints: flat.len() as usize,
            uncommitted_checkpoints: sections.last().steps().len() as usize,
            files_changed: path::distinct(section_paths(sections)) as usize,
            stats: LineStats {
                additions: sections_added(sections) as u64,
                deletions: sections_deleted(sections) as u64,
            },
        },
        files_changed: path::distinct(checkpoint_paths(flat)) as usize,
        stats: LineStats {
            additions: checkpoints_added(flat) as u64,
            deletions: checkpoints_deleted(flat) as u64,
        },
    }
}

// ---------------------------------------------------------------------------
// Limits
/// How many changes some checkpoints hold.
pub open spec fn change_count(events: Seq<TrailEventView>) -> nat
    decreases events.len(),
{
    if events.len() == 0 {
        0
    } else {
        change_count(events.drop_last()) + events.last().event_type->changes.len()
    }
}

/// How many changes the checkpoints of some commits hold.
pub open spec fn committed_changes(
    infos: Seq<CommitInfoView>,
    steps: Seq<TrailEventView>,
    ids: Seq<Seq<char>>,
) -> nat
    decreases ids.len(),
{
    if ids.len() == 0 {
        0
    } else {
        committed_changes(infos, steps, ids.drop_last()) + if info_of(infos, ids.last()) is Some {
            change_count(towards(steps, ids.last()))
        } else {
            0
        }
    }
}

/// How many files some commits touch.
pub open spec fn committed_files(infos: Seq<CommitInfoView>, ids: Seq<Seq<char>>) -> nat
    decreases ids.len(),
{
    if ids.len() == 0 {
        0
    } else {
        committed_files(infos, ids.drop_last()) + match info_of(infos, ids.last()) {
            Some(info) => info.files.len(),
            None => 0,
        }
    }
}

/// The numbers of a review stay within 64 bits.
pub open spec fn within_limits(
    events: Seq<TrailEventView>,
    infos: Seq<CommitInfoView>,
    work: WorkStateView,
) -> bool {
    let ids = commit_ids(events);
    let steps = pending(events);
    let files = work_files(work);
    &&& committed_changes(infos, steps, ids) + change_count(uncommitted(steps, ids)) <= u32::MAX
    &&& committed_files(infos, ids) * u32::MAX + work_added(files) <= u64::MAX
    &&& committed_files(infos, ids) * u32::MAX + work_deleted(files) <= u64::MAX
    &&& work.entries.len() < usize::MAX
    &&& events.len() < usize::MAX
}

proof fn lemma_work_sums(files: Seq<WorkingTreeFileView>, k: int)
    requires
        0 <= k <= files.len(),
    ensures
        0 <= work_added(files.take(k)) <= work_added(files),
        0 <= work_deleted(files.take(k)) <= work_deleted(files),
    decreases files.len(),
{
    if k == files.len() {
        assert(files.take(k) =~= files);
        if k > 0 {
            lemma_work_sums(files.drop_last(), k - 1);
        }
    } else {
        assert(files.drop_last().take(k) =~= files.take(k));
        lemma_work_sums(files.drop_last(), k);
    }
}

// ---------------------------------------------------------------------------
fn number_checkpoint(
    blobs: &TextMap<Vec<u8>>,
    e: &TrailEvent,
    section: usize,
    number: usize,
) -> (r: ReviewCheckpoint)
    requires
        comparable(blobs.deep_view()),
        e.deep_view().event_type is Checkpoint,
        e.deep_view().event_type->changes.len() <= u32::MAX,
    ensures
        r.deep_view() == numbered(
            blobs.deep_view(),
            e.deep_view(),
            section as int,
            number as int,
        ),
        r.stats.additions <= e.deep_view().event_type->changes.len() * u32::MAX,
        r.stats.deletions <= e.deep_view().event_type->changes.len() * u32::MAX,
{
    let ghost ev = e.deep_view();
    let ghost bv = blobs.deep_view();
    let start: Timestamp = match e.timestamp {
        Some(t) => t,
        None => Timestamp { secs: 0, nanos: 0 },
    };
    match &e.event_type {
        TrailEventType::Checkpoint {
            id,
            session_id: _,
            title,
            annotation,
            bulk,
            hidden: _,
            boundary: _,
            commit: _,
            attachment,
            changes,
        } => {
            let ghost cs = changes.deep_view();
            let ghost want = review_files(bv, cs);
            let mut files: Vec<ReviewFile> = Vec::new();
            let mut additions: u64 = 0;
            let mut deletions: u64 = 0;
            let mut started_at: Timestamp = start;
            let mut ended_at: Timestamp = start;
            let mut k: usize = 0;
            assert(want.take(0) =~= Seq::empty());
            assert(cs.take(0) =~= Seq::empty());
            while k < changes.len()
                invariant
                    k <= changes.len() <= u32::MAX,
                    bv == blobs.deep_view(),
                    comparable(bv),
                    cs == changes.deep_view(),
                    want == review_files(bv, cs),
                    files.deep_view() =~= want.take(k as int),
                    additions == lines_added(want.take(k as int)),
                    deletions == lines_deleted(want.take(k as int)),
                    additions <= k * u32::MAX,
                    deletions <= k * u32::MAX,
                    started_at == first_of(start, cs.take(k as int)),
                    ended_at == last_of(start, cs.take(k as int)),
                decreases changes.len() - k,
            {
                let ghost was = files.deep_view();
                let c: &FileChange = &changes[k];
                proof {
                    assert(cs.take(k + 1).drop_last() =~= cs.take(k as int));
                    assert(cs.take(k + 1).last() == c.deep_view());
                    assert(want.take(k + 1).drop_last() =~= want.take(k as int));
                    assert(want.take(k + 1).last() == want[k as int]);
                    assert((k + 1) * u32::MAX <= u32::MAX * u32::MAX) by (nonlinear_arith)
                        requires
                            k + 1 <= u32::MAX,
                    ;
                }
                let f: ReviewFile = review_file(blobs, c);
                assert(f.deep_view() == want[k as int]);
                additions = additions + f.additions.unwrap_or(0);
                deletions = deletions + f.deletions.unwrap_or(0);
                files.push(f);
                assert(files.deep_view() =~= was.push(want[k as int]));
                if c.first_seen.before(&started_at) {
                    started_at = c.first_seen;
                }
                ended_at = ended_at.later(&c.last_seen);
                k += 1;
            }
            assert(want.take(k as int) =~= want);
            assert(cs.take(k as int) =~= cs);
            let label: String = text::cat3(
                &text::decimal_of(section as u64),
                ".",
                &text::decimal_of(number as u64),
            );
            let r = ReviewCheckpoint {
                section,
                number,
                label,
                id: id.dup(),
                title: title.dup(),
                annotation: annotation.dup(),
                started_at,
                ended_at,
                bulk: *bulk,
                attachment: *attachment,
                files,
                stats: LineStats { additions, deletions },
            };
            assert(r.deep_view() =~= numbered(bv, ev, section as int, number as int));
            r
        },
        _ => vstd::pervasive::unreached(),
    }
}

/// Every one of some events is a checkpoint.
pub open spec fn all_checkpoints(events: Seq<TrailEventView>) -> bool {
    forall|i: int| 0 <= i < events.len() ==> (#[trigger] events[i]).event_type is Checkpoint
}

proof fn lemma_pending(events: Seq<TrailEventView>)
    ensures
        all_checkpoints(pending(events)),
    decreases events.len(),
{
    if events.len() > 0 {
        lemma_pending(events.drop_last());
    }
}

proof fn lemma_towards(events: Seq<TrailEventView>, id: Seq<char>)
    requires
        all_checkpoints(events),
    ensures
        all_checkpoints(towards(events, id)),
    decreases events.len(),
{
    if events.len() > 0 {
        assert(events[events.len() - 1].event_type is Checkpoint);
        assert forall|i: int| 0 <= i < events.drop_last().len() implies (
        #[trigger] events.drop_last()[i]).event_type is Checkpoint by {
            assert(events.drop_last()[i] == events[i]);
        }
        lemma_towards(events.drop_last(), id);
    }
}

proof fn lemma_uncommitted(events: Seq<TrailEventView>, ids: Seq<Seq<char>>)
    requires
        all_checkpoints(events),
    ensures
        all_checkpoints(uncommitted(events, ids)),
    decreases events.len(),
{
    if events.len() > 0 {
        assert(events[events.len() - 1].event_type is Checkpoint);
        assert forall|i: int| 0 <= i < events.drop_last().len() implies (
        #[trigger] events.drop_last()[i]).event_type is Checkpoint by {
            assert(events.drop_last()[i] == events[i]);
        }
        lemma_uncommitted(events.drop_last(), ids);
    }
}

proof fn lemma_change_take(events: Seq<TrailEventView>, k: int)
    requires
        0 <= k <= events.len(),
    ensures
        change_count(events.take(k)) <= change_count(events),
    decreases events.len(),
{
    if k == events.len() {
        assert(events.take(k) =~= events);
    } else {
        assert(events.drop_last().take(k) =~= events.take(k));
        lemma_change_take(events.drop_last(), k);
    }
}

/// Numbers some checkpoints from one.
fn number_all(
    blobs: &TextMap<Vec<u8>>,
    events: &Vec<&TrailEvent>,
    section: usize,
) -> (r: Vec<ReviewCheckpoint>)
    requires
        comparable(blobs.deep_view()),
        all_checkpoints(events.deep_view()),
        change_count(events.deep_view()) <= u32::MAX,
        events.len() < usize::MAX,
    ensures
        r.deep_view() == numbered_all(blobs.deep_view(), events.deep_view(), section as int),
        checkpoints_added(r.deep_view()) <= change_count(events.deep_view()) * u32::MAX,
        checkpoints_deleted(r.deep_view()) <= change_count(events.deep_view()) * u32::MAX,
{
    let ghost es = events.deep_view();
    let ghost want = numbered_all(blobs.deep_view(), es, section as int);
    let mut out: Vec<ReviewCheckpoint> = Vec::new();
    let mut k: usize = 0;
    assert(want.take(0) =~= Seq::empty());
    assert(es.take(0) =~= Seq::empty());
    while k < events.len()
        invariant
            k <= events.len() < usize::MAX,
            comparable(blobs.deep_view()),
            es == events.deep_view(),
            all_checkpoints(es),
            change_count(es) <= u32::MAX,
            want == numbered_all(blobs.deep_view(), es, section as int),
            out.deep_view() == want.take(k as int),
            checkpoints_added(want.take(k as int)) <= change_count(es.take(k as int)) * u32::MAX,
            checkpoints_deleted(want.take(k as int)) <= change_count(es.take(k as int)) * u32::MAX,
        decreases events.len() - k,
    {
        let ghost was = out.deep_view();
        proof {
            assert(es[k as int] == events[k as int].deep_view());
            assert(es[k as int].event_type is Checkpoint);
            assert(es.take(k + 1).drop_last() =~= es.take(k as int));
            assert(es.take(k + 1).last() == es[k as int]);
            lemma_change_take(es, k + 1);
            lemma_change_take(es, k as int);
            assert(want.take(k + 1).drop_last() =~= want.take(k as int));
            assert(want.take(k + 1).last() == want[k as int]);
        }
        let cp: ReviewCheckpoint = number_checkpoint(blobs, events[k], section, k + 1);
        assert(cp.deep_view() == want[k as int]);
        out.push(cp);
        assert(out.deep_view() =~= was.push(want[k as int]));
        assert(was.push(want[k as int]) =~= want.take(k + 1));
        proof {
            let a = change_count(es.take(k as int)) as int;
            let b = es[k as int].event_type->changes.len() as int;
            assert((a + b) * u32::MAX == a * u32::MAX + b * u32::MAX) by (nonlinear_arith);
        }
        k += 1;
    }
    assert(want.take(k as int) =~= want);
    assert(es.take(k as int) =~= es);
    out
}

fn collect_pending<'a>(events: &'a Vec<TrailEvent>) -> (r: Vec<&'a TrailEvent>)
    ensures
        r.deep_view() == pending(events.deep_view()),
        r.len() <= events.len(),
{
    let ghost all = events.deep_view();
    let mut out: Vec<&TrailEvent> = Vec::new();
    let mut k: usize = 0;
    assert(out.deep_view() =~= pending(all.take(0)));
    while k < events.len()
        invariant
            k <= events.len(),
            out.len() <= k,
            all == events.deep_view(),
            out.deep_view() == pending(all.take(k as int)),
        decreases events.len() - k,
    {
        let ghost was = out.deep_view();
        proof {
            assert(all.take(k + 1).drop_last() =~= all.take(k as int));
            assert(all.take(k + 1).last() == events[k as int].deep_view());
        }
        let shown: bool = match &events[k].event_type {
            TrailEventType::Checkpoint {
                id: _,
                session_id: _,
                title: _,
                annotation: _,
                bulk: _,
                hidden,
                boundary: _,
                commit: _,
                attachment: _,
                changes: _,
            } => !*hidden,
            _ => false,
        };
        if shown {
            out.push(&events[k]);
            assert(out.deep_view() =~= was.push(all[k as int]));
        }
        k += 1;
    }
    assert(all.take(k as int) =~= all);
    out
}

fn collect_ids(events: &Vec<TrailEvent>) -> (r: Vec<String>)
    ensures
        r.deep_view() == commit_ids(events.deep_view()),
        r.len() <= events.len(),
{
    let ghost all = events.deep_view();
    let mut out: Vec<String> = Vec::new();
    let mut k: usize = 0;
    assert(out.deep_view() =~= commit_ids(all.take(0)));
    while k < events.len()
        invariant
            k <= events.len(),
            out.len() <= k,
            all == events.deep_view(),
            out.deep_view() == commit_ids(all.take(k as int)),
        decreases events.len() - k,
    {
        let ghost was = out.deep_view();
        proof {
            assert(all.take(k + 1).drop_last() =~= all.take(k as int));
            assert(all.take(k + 1).last() == events[k as int].deep_view());
        }
        match &events[k].event_type {
            TrailEventType::Commit { id, short_id: _, summary: _, author: _, is_merge: _ } => {
                out.push(id.dup());
                assert(out.deep_view() =~= was.push(id@));
            },
            _ => {},
        }
        k += 1;
    }
    assert(all.take(k as int) =~= all);
    out
}

fn commit_of<'a>(e: &'a TrailEvent) -> (r: Option<&'a String>)
    requires
        e.deep_view().event_type is Checkpoint,
    ensures
        r.deep_view() == e.deep_view().event_type->commit,
{
    match &e.event_type {
        TrailEventType::Checkpoint {
            id: _,
            session_id: _,
            title: _,
            annotation: _,
            bulk: _,
            hidden: _,
            boundary: _,
            commit,
            attachment: _,
            changes: _,
        } => match commit {
            Some(c) => Some(c),
            None => None,
        },
        _ => None,
    }
}

fn select_towards<'a>(steps: &Vec<&'a TrailEvent>, id: &str) -> (r: Vec<&'a TrailEvent>)
    requires
        all_checkpoints(steps.deep_view()),
    ensures
        r.deep_view() == towards(steps.deep_view(), id@),
        r.len() <= steps.len(),
{
    let ghost all = steps.deep_view();
    let mut out: Vec<&'a TrailEvent> = Vec::new();
    let mut k: usize = 0;
    assert(out.deep_view() =~= towards(all.take(0), id@));
    while k < steps.len()
        invariant
            k <= steps.len(),
            out.len() <= k,
            all == steps.deep_view(),
            all_checkpoints(all),
            out.deep_view() == towards(all.take(k as int), id@),
        decreases steps.len() - k,
    {
        let ghost was = out.deep_view();
        proof {
            assert(all.take(k + 1).drop_last() =~= all.take(k as int));
            assert(all.take(k + 1).last() == steps[k as int].deep_view());
            assert(all[k as int].event_type is Checkpoint);
        }
        let hit: bool = match commit_of(steps[k]) {
            Some(c) => text::same(c, id),
            None => false,
        };
        if hit {
            out.push(steps[k]);
            assert(out.deep_view() =~= was.push(all[k as int]));
        }
        k += 1;
    }
    assert(all.take(k as int) =~= all);
    out
}

fn select_uncommitted<'a>(steps: &Vec<&'a TrailEvent>, ids: &Vec<String>) -> (r: Vec<
    &'a TrailEvent,
>)
    requires
        all_checkpoints(steps.deep_view()),
    ensures
        r.deep_view() == uncommitted(steps.deep_view(), ids.deep_view()),
        r.len() <= steps.len(),
{
    let ghost all = steps.deep_view();
    let ghost iv = ids.deep_view();
    let mut out: Vec<&'a TrailEvent> = Vec::new();
    let mut k: usize = 0;
    assert(out.deep_view() =~= uncommitted(all.take(0), iv));
    while k < steps.len()
        invariant
            k <= steps.len(),
            out.len() <= k,
            all == steps.deep_view(),
            iv == ids.deep_view(),
            all_checkpoints(all),
            out.deep_view() == uncommitted(all.take(k as int), iv),
        decreases steps.len() - k,
    {
        let ghost was = out.deep_view();
        proof {
            assert(all.take(k + 1).drop_last() =~= all.take(k as int));
            assert(all.take(k + 1).last() == steps[k as int].deep_view());
            assert(all[k as int].event_type is Checkpoint);
        }
        let free: bool = match commit_of(steps[k]) {
            Some(c) => !crate::data::contains_text(ids, c),
            None => true,
        };
        if free {
            out.push(steps[k]);
            assert(out.deep_view() =~= was.push(all[k as int]));
        }
        k += 1;
    }
    assert(all.take(k as int) =~= all);
    out
}

/// The commit section for `commit`, with the checkpoints that led to it.
pub fn commit_review(
    blobs: &TextMap<Vec<u8>>,
    number: usize,
    commit: &CommitInfo,
    checkpoints: Vec<ReviewCheckpoint>,
) -> (r: CommitReview)
    requires
        comparable(blobs.deep_view()),
        commit.files.len() * u32::MAX <= u64::MAX,
    ensures
        r.deep_view() == commit_section(
            blobs.deep_view(),
            number as int,
            commit.deep_view(),
            checkpoints.deep_view(),
        ),
        r.stats.additions <= commit.files.len() * u32::MAX,
        r.stats.deletions <= commit.files.len() * u32::MAX,
{
    let ghost bv = blobs.deep_view();
    let ghost fs = commit.files.deep_view();
    let ghost want = commit_files(bv, fs);
    let mut files: Vec<CommitFile> = Vec::new();
    let mut additions: u64 = 0;
    let mut deletions: u64 = 0;
    let mut k: usize = 0;
    assert(want.take(0) =~= Seq::empty());
    while k < commit.files.len()
        invariant
            k <= commit.files.len(),
            commit.files.len() * u32::MAX <= u64::MAX,
            bv == blobs.deep_view(),
            comparable(bv),
            fs == commit.files.deep_view(),
            want == commit_files(bv, fs),
            files.deep_view() =~= want.take(k as int),
            additions == commit_added(want.take(k as int)),
            deletions == commit_deleted(want.take(k as int)),
            additions <= k * u32::MAX,
            deletions <= k * u32::MAX,
        decreases commit.files.len() - k,
    {
        let ghost was = files.deep_view();
        proof {
            assert(fs[k as int] == commit.files[k as int].deep_view());
            assert(want.take(k + 1).drop_last() =~= want.take(k as int));
            assert(want.take(k + 1).last() == want[k as int]);
            assert((k + 1) * u32::MAX <= commit.files.len() * u32::MAX) by (nonlinear_arith)
                requires
                    k + 1 <= commit.files.len(),
            ;
        }
        let f: CommitFile = commit_file(blobs, &commit.files[k]);
        assert(f.deep_view() == want[k as int]);
        additions = additions + f.additions.unwrap_or(0);
        deletions = deletions + f.deletions.unwrap_or(0);
        files.push(f);
        assert(files.deep_view() =~= was.push(want[k as int]));
        k += 1;
    }
    assert(want.take(k as int) =~= want);
    let ghost cv = checkpoints.deep_view();
    let r = CommitReview {
        number,
        id: commit.id.dup(),
        short_id: commit.short_id.dup(),
        summary: commit.summary.dup(),
        author: commit.author.dup(),
        time: commit.time,
        is_merge: commit.parent_count > 1,
        diff_parent: commit.first_parent.dup(),
        checkpoints,
        files,
        stats: LineStats { additions, deletions },
    };
    assert(r.deep_view() =~= commit_section(bv, number as int, commit.deep_view(), cv));
    r
}

fn find_info<'a>(infos: &'a Vec<CommitInfo>, id: &str) -> (r: Option<&'a CommitInfo>)
    ensures
        r.deep_view() == info_of(infos.deep_view(), id@),
{
    let ghost all = infos.deep_view();
    let mut k: usize = 0;
    assert(all.skip(0) =~= all);
    while k < infos.len()
        invariant
            k <= infos.len(),
            all == infos.deep_view(),
            info_of(all, id@) == info_of(all.skip(k as int), id@),
        decreases infos.len() - k,
    {
        assert(all.skip(k as int)[0] == infos[k as int].deep_view());
        if text::same(&infos[k].id, id) {
            return Some(&infos[k]);
        }
        assert(all.skip(k as int).drop_first() =~= all.skip(k + 1));
        k += 1;
    }
    None
}

/// The files of the working tree.
fn tree_files(work: &WorkState) -> (r: Vec<WorkingTreeFile>)
    ensures
        r.deep_view() == work_files(work.deep_view()),
{
    let ghost w = work.deep_view();
    let ghost want = work_files(w);
    let mut all_stats: Vec<FileStat> = work.stats.dup();
    let mut more: Vec<FileStat> = work.untracked.dup();
    all_stats.append(&mut more);
    assert(all_stats.deep_view() =~= w.stats + w.untracked);
    let mut files: Vec<WorkingTreeFile> = Vec::new();
    let mut k: usize = 0;
    while k < work.entries.len()
        invariant
            k <= work.entries.len(),
            w == work.deep_view(),
            want == work_files(w),
            all_stats.deep_view() == w.stats + w.untracked,
            files.deep_view() =~= want.take(k as int),
        decreases work.entries.len() - k,
    {
        let ghost was = files.deep_view();
        let entry: &StatusEntry = &work.entries[k];
        assert(w.entries[k as int] == entry.deep_view());
        let stat: Option<&FileStat> = find_stat(&all_stats, &entry.path);
        let binary: bool = match stat {
            Some(s) => s.is_binary(),
            None => false,
        };
        let (add, del): (Option<u64>, Option<u64>) = match stat {
            Some(s) => if binary {
                (None, None)
            } else {
                (s.additions, s.deletions)
            },
            None => (None, None),
        };
        let f = WorkingTreeFile {
            path: entry.path.dup(),
            old_path: entry.orig_path.dup(),
            kind: entry.effective_kind(),
            staged: entry.staged.is_some(),
            unstaged: entry.unstaged.is_some(),
            untracked: entry.untracked,
            additions: add,
            deletions: del,
            binary,
        };
        assert(f.deep_view() =~= want[k as int]);
        files.push(f);
        assert(files.deep_view() =~= was.push(want[k as int]));
        k += 1;
    }
    assert(want.take(k as int) =~= want);
    files
}

/// The sums over some files of the working tree; nothing when they are no
/// numbers of 64 bits.
fn sum_files(files: &Vec<WorkingTreeFile>) -> (r: Option<LineStats>)
    ensures
        match r {
            Some(sum) => sum.additions == work_added(files.deep_view()) && sum.deletions
                == work_deleted(files.deep_view()),
            None => work_added(files.deep_view()) > u64::MAX || work_deleted(files.deep_view())
                > u64::MAX,
        },
{
    let ghost all = files.deep_view();
    let mut additions: u64 = 0;
    let mut deletions: u64 = 0;
    let mut k: usize = 0;
    assert(all.take(0) =~= Seq::empty());
    while k < files.len()
        invariant
            k <= files.len(),
            all == files.deep_view(),
            additions == work_added(all.take(k as int)),
            deletions == work_deleted(all.take(k as int)),
        decreases files.len() - k,
    {
        proof {
            assert(all.take(k + 1).drop_last() =~= all.take(k as int));
            assert(all.take(k + 1).last() == files[k as int].deep_view());
            lemma_work_sums(all, k + 1);
        }
        let added: u64 = files[k].additions.unwrap_or(0);
        let deleted: u64 = files[k].deletions.unwrap_or(0);
        if added > u64::MAX - additions || deleted > u64::MAX - deletions {
            return None;
        }
        additions = additions + added;
        deletions = deletions + deleted;
        k += 1;
    }
    assert(all.take(k as int) =~= all);
    Some(LineStats { additions, deletions })
}

fn working_tree_review(
    live: bool,
    number: usize,
    work: &WorkState,
    checkpoints: Vec<ReviewCheckpoint>,
) -> (r: WorkingTreeReview)
    requires
        work_added(work_files(work.deep_view())) <= u64::MAX,
        work_deleted(work_files(work.deep_view())) <= u64::MAX,
    ensures
        r.deep_view() == work_section(
            number as int,
            live,
            work.deep_view(),
            checkpoints.deep_view(),
        ),
{
    let ghost w = work.deep_view();
    let files: Vec<WorkingTreeFile> = tree_files(work);
    let stats: LineStats = match sum_files(&files) {
        Some(sum) => sum,
        None => vstd::pervasive::unreached(),
    };
    let counts = crate::trail::kind_counts(&work.entries);
    let ghost cv = checkpoints.deep_view();
    let r = WorkingTreeReview {
        number,
        available: live,
        checkpoints,
        files,
        staged: counts.staged,
        unstaged: counts.unstaged,
        untracked: counts.untracked,
        stats,
    };
    assert(r.deep_view() =~= work_section(number as int, live, w, cv));
    r
}

/// `from` and the changes of some checkpoints, counted up to `most`.
fn count_changes(steps: &Vec<&TrailEvent>, from: u64, most: u64) -> (r: Option<u64>)
    requires
        all_checkpoints(steps.deep_view()),
        from <= most,
    ensures
        match r {
            Some(n) => n == from + change_count(steps.deep_view()) && n <= most,
            None => from + change_count(steps.deep_view()) > most,
        },
{
    let ghost all = steps.deep_view();
    let mut n: u64 = from;
    let mut k: usize = 0;
    assert(all.take(0) =~= Seq::empty());
    while k < steps.len()
        invariant
            k <= steps.len(),
            all == steps.deep_view(),
            all_checkpoints(all),
            n <= most,
            n == from + change_count(all.take(k as int)),
        decreases steps.len() - k,
    {
        proof {
            assert(all.take(k + 1).drop_last() =~= all.take(k as int));
            assert(all.take(k + 1).last() == steps[k as int].deep_view());
            assert(all[k as int].event_type is Checkpoint);
            lemma_change_take(all, k + 1);
        }
        let held: usize = match &steps[k].event_type {
            TrailEventType::Checkpoint {
                id: _,
                session_id: _,
                title: _,
                annotation: _,
                bulk: _,
                hidden: _,
                boundary: _,
                commit: _,
                attachment: _,
                changes,
            } => {
                assert(changes.deep_view().len() == changes.len());
                changes.len()
            },
            _ => vstd::pervasive::unreached(),
        };
        if held as u128 > (most - n) as u128 {
            return None;
        }
        n = n + held as u64;
        k += 1;
    }
    assert(all.take(k as int) =~= all);
    Some(n)
}

/// More files than these make more lines than 64 bits can count.
const MOST_FILES: u64 = 4_294_967_297;

/// The changes and the files of some commits, each counted up to its limit.
fn count_committed(infos: &Vec<CommitInfo>, steps: &Vec<&TrailEvent>, ids: &Vec<String>) -> (r:
    Option<(u64, u64)>)
    requires
        all_checkpoints(steps.deep_view()),
    ensures
        match r {
            Some((changes, files)) => {
                &&& changes == committed_changes(
                    infos.deep_view(),
                    steps.deep_view(),
                    ids.deep_view(),
                )
                &&& files == committed_files(infos.deep_view(), ids.deep_view())
                &&& changes <= u32::MAX
                &&& files <= MOST_FILES
            },
            None => committed_changes(infos.deep_view(), steps.deep_view(), ids.deep_view())
                > u32::MAX || committed_files(infos.deep_view(), ids.deep_view()) > MOST_FILES,
        },
{
    let ghost iv = infos.deep_view();
    let ghost sv = steps.deep_view();
    let ghost all = ids.deep_view();
    let mut changes: u64 = 0;
    let mut files: u64 = 0;
    let mut k: usize = 0;
    assert(all.take(0) =~= Seq::empty());
    while k < ids.len()
        invariant
            k <= ids.len(),
            iv == infos.deep_view(),
            sv == steps.deep_view(),
            all == ids.deep_view(),
            all_checkpoints(sv),
            changes <= u32::MAX,
            files <= MOST_FILES,
            changes == committed_changes(iv, sv, all.take(k as int)),
            files == committed_files(iv, all.take(k as int)),
        decreases ids.len() - k,
    {
        proof {
            assert(all.take(k + 1).drop_last() =~= all.take(k as int));
            assert(all.take(k + 1).last() == ids[k as int]@);
            lemma_committed_take(iv, sv, all, k + 1);
            lemma_towards(sv, ids[k as int]@);
        }
        match find_info(infos, &ids[k]) {
            Some(info) => {
                let own: Vec<&TrailEvent> = select_towards(steps, &ids[k]);
                let touched: usize = info.files.len();
                assert(info.deep_view().files.len() == touched);
                match count_changes(&own, changes, u32::MAX as u64) {
                    Some(n) => {
                        changes = n;
                    },
                    None => {
                        return None;
                    },
                }
                if touched as u128 > (MOST_FILES - files) as u128 {
                    return None;
                }
                files = files + touched as u64;
            },
            None => {},
        }
        k += 1;
    }
    assert(all.take(k as int) =~= all);
    Some((changes, files))
}

/// Whether the numbers of a review stay within 64 bits.
pub fn fits(trail: &Trail, infos: &Vec<CommitInfo>, work: &WorkState) -> (r: bool)
    ensures
        r == within_limits(trail.deep_view().events, infos.deep_view(), work.deep_view()),
{
    let ids: Vec<String> = collect_ids(&trail.events);
    let steps: Vec<&TrailEvent> = collect_pending(&trail.events);
    proof {
        lemma_pending(trail.events.deep_view());
    }
    let own: Vec<&TrailEvent> = select_uncommitted(&steps, &ids);
    let ghost all = work_files(work.deep_view());
    proof {
        lemma_uncommitted(steps.deep_view(), ids.deep_view());
        lemma_work_sums(all, 0);
    }
    let (changes, files): (u64, u64) = match count_committed(infos, &steps, &ids) {
        Some(counts) => counts,
        None => {
            proof {
                let n = committed_files(infos.deep_view(), ids.deep_view()) as int;
                if n > MOST_FILES {
                    assert(n * u32::MAX > u64::MAX) by (nonlinear_arith)
                        requires
                            n > 4_294_967_297,
                    ;
                }
            }
            return false;
        },
    };
    let sum: LineStats = match sum_files(&tree_files(work)) {
        Some(sum) => sum,
        None => {
            proof {
                let n = committed_files(infos.deep_view(), ids.deep_view()) as int;
                assert(n * u32::MAX >= 0) by (nonlinear_arith)
                    requires
                        n >= 0,
                ;
            }
            return false;
        },
    };
    if count_changes(&own, changes, u32::MAX as u64).is_none() {
        return false;
    }
    let lines: u128 = files as u128 * 4_294_967_295;
    lines + sum.additions as u128 <= u64::MAX as u128 && lines + sum.deletions as u128
        <= u64::MAX as u128 && work.entries.len() < usize::MAX && trail.events.len() < usize::MAX
}

proof fn lemma_checkpoint_sums(a: Seq<ReviewCheckpointView>, b: Seq<ReviewCheckpointView>)
    ensures
        checkpoints_added(a + b) == checkpoints_added(a) + checkpoints_added(b),
        checkpoints_deleted(a + b) == checkpoints_deleted(a) + checkpoints_deleted(b),
    decreases b.len(),
{
    if b.len() == 0 {
        assert(a + b =~= a);
    } else {
        lemma_checkpoint_sums(a, b.drop_last());
        assert((a + b).drop_last() =~= a + b.drop_last());
    }
}

proof fn lemma_checkpoint_sums_take(cps: Seq<ReviewCheckpointView>, k: int)
    requires
        0 <= k <= cps.len(),
    ensures
        0 <= checkpoints_added(cps.take(k)) <= checkpoints_added(cps),
        0 <= checkpoints_deleted(cps.take(k)) <= checkpoints_deleted(cps),
    decreases cps.len(),
{
    if k == cps.len() {
        assert(cps.take(k) =~= cps);
        if k > 0 {
            lemma_checkpoint_sums_take(cps.drop_last(), k - 1);
        }
    } else {
        assert(cps.drop_last().take(k) =~= cps.take(k));
        lemma_checkpoint_sums_take(cps.drop_last(), k);
    }
}

proof fn lemma_section_sums_take(sections: Seq<ReviewSectionView>, k: int)
    requires
        0 <= k <= sections.len(),
    ensures
        0 <= sections_added(sections.take(k)) <= sections_added(sections),
        0 <= sections_deleted(sections.take(k)) <= sections_deleted(sections),
    decreases sections.len(),
{
    if k == sections.len() {
        assert(sections.take(k) =~= sections);
        if k > 0 {
            lemma_section_sums_take(sections.drop_last(), k - 1);
        }
    } else {
        assert(sections.drop_last().take(k) =~= sections.take(k));
        lemma_section_sums_take(sections.drop_last(), k);
    }
}

proof fn lemma_committed_take(
    infos: Seq<CommitInfoView>,
    steps: Seq<TrailEventView>,
    ids: Seq<Seq<char>>,
    k: int,
)
    requires
        0 <= k <= ids.len(),
    ensures
        committed_changes(infos, steps, ids.take(k)) <= committed_changes(infos, steps, ids),
        committed_files(infos, ids.take(k)) <= committed_files(infos, ids),
    decreases ids.len(),
{
    if k == ids.len() {
        assert(ids.take(k) =~= ids);
    } else {
        assert(ids.drop_last().take(k) =~= ids.take(k));
        lemma_committed_take(infos, steps, ids.drop_last(), k);
    }
}

/// The commit sections of a review and their checkpoints in reading order.
fn build_commits(
    infos: &Vec<CommitInfo>,
    blobs: &TextMap<Vec<u8>>,
    steps: &Vec<&TrailEvent>,
    ids: &Vec<String>,
) -> (r: (Vec<ReviewSection>, Vec<ReviewCheckpoint>))
    requires
        comparable(blobs.deep_view()),
        all_checkpoints(steps.deep_view()),
        steps.len() < usize::MAX,
        ids.len() < usize::MAX,
        committed_changes(infos.deep_view(), steps.deep_view(), ids.deep_view()) <= u32::MAX,
        committed_files(infos.deep_view(), ids.deep_view()) * u32::MAX <= u64::MAX,
    ensures
        (r.0.deep_view(), r.1.deep_view()) == commit_sections(
            blobs.deep_view(),
            infos.deep_view(),
            steps.deep_view(),
            ids.deep_view(),
        ),
        r.0.len() <= ids.len(),
        checkpoints_added(r.1.deep_view()) <= committed_changes(
            infos.deep_view(),
            steps.deep_view(),
            ids.deep_view(),
        ) * u32::MAX,
        checkpoints_deleted(r.1.deep_view()) <= committed_changes(
            infos.deep_view(),
            steps.deep_view(),
            ids.deep_view(),
        ) * u32::MAX,
        sections_added(r.0.deep_view()) <= committed_files(
            infos.deep_view(),
            ids.deep_view(),
        ) * u32::MAX,
        sections_deleted(r.0.deep_view()) <= committed_files(
            infos.deep_view(),
            ids.deep_view(),
        ) * u32::MAX,
{
    let ghost bv = blobs.deep_view();
    let ghost iv = infos.deep_view();
    let ghost sv = steps.deep_view();
    let ghost all = ids.deep_view();
    let mut sections: Vec<ReviewSection> = Vec::new();
    let mut flat: Vec<ReviewCheckpoint> = Vec::new();
    let mut k: usize = 0;
    assert(sections.deep_view() =~= Seq::empty());
    assert(flat.deep_view() =~= Seq::empty());
    assert(all.take(0) =~= Seq::empty());
    while k < ids.len()
        invariant
            k <= ids.len() < usize::MAX,
            sections.len() <= k,
            bv == blobs.deep_view(),
            comparable(bv),
            iv == infos.deep_view(),
            sv == steps.deep_view(),
            all_checkpoints(sv),
            steps.len() < usize::MAX,
            all == ids.deep_view(),
            committed_changes(iv, sv, all) <= u32::MAX,
            committed_files(iv, all) * u32::MAX <= u64::MAX,
            (sections.deep_view(), flat.deep_view()) == commit_sections(
                bv,
                iv,
                sv,
                all.take(k as int),
            ),
            checkpoints_added(flat.deep_view()) <= committed_changes(iv, sv, all.take(k as int))
                * u32::MAX,
            checkpoints_deleted(flat.deep_view()) <= committed_changes(iv, sv, all.take(k as int))
                * u32::MAX,
            sections_added(sections.deep_view()) <= committed_files(iv, all.take(k as int))
                * u32::MAX,
            sections_deleted(sections.deep_view()) <= committed_files(iv, all.take(k as int))
                * u32::MAX,
        decreases ids.len() - k,
    {
        let ghost was_s = sections.deep_view();
        let ghost was_f = flat.deep_view();
        let ghost done = all.take(k as int);
        proof {
            assert(all.take(k + 1).drop_last() =~= done);
            assert(all.take(k + 1).last() == ids[k as int]@);
            lemma_committed_take(iv, sv, all, k + 1);
            lemma_towards(sv, ids[k as int]@);
        }
        match find_info(infos, &ids[k]) {
            Some(info) => {
                let number: usize = k + 1;
                let own: Vec<&TrailEvent> = select_towards(steps, &ids[k]);
                let ghost n = change_count(own.deep_view()) as int;
                let cps: Vec<ReviewCheckpoint> = number_all(blobs, &own, number);
                let ghost cv = cps.deep_view();
                let mut copy: Vec<ReviewCheckpoint> = cps.dup();
                flat.append(&mut copy);
                assert(flat.deep_view() =~= was_f + cv);
                proof {
                    lemma_checkpoint_sums(was_f, cv);
                    let a = committed_changes(iv, sv, done) as int;
                    assert((a + n) * u32::MAX == a * u32::MAX + n * u32::MAX) by (nonlinear_arith);
                    let b = committed_files(iv, done) as int;
                    let m = info.files.len() as int;
                    let t = committed_files(iv, all) as int;
                    assert((b + m) * u32::MAX == b * u32::MAX + m * u32::MAX) by (nonlinear_arith);
                    assert(m * u32::MAX <= t * u32::MAX) by (nonlinear_arith)
                        requires
                            m <= t,
                    ;
                }
                let section: CommitReview = commit_review(blobs, number, info, cps);
                let ghost rv = ReviewSectionView::Commit(section.deep_view());
                sections.push(ReviewSection::Commit(section));
                assert(sections.deep_view() =~= was_s.push(rv));
                assert(sections.deep_view().drop_last() =~= was_s);
            },
            None => {},
        }
        k += 1;
    }
    assert(all.take(k as int) =~= all);
    (sections, flat)
}

fn collect_section_paths(sections: &Vec<ReviewSection>) -> (r: Vec<String>)
    ensures
        r.deep_view() == section_paths(sections.deep_view()),
{
    let ghost all = sections.deep_view();
    let mut out: Vec<String> = Vec::new();
    let mut k: usize = 0;
    assert(out.deep_view() =~= section_paths(all.take(0)));
    while k < sections.len()
        invariant
            k <= sections.len(),
            all == sections.deep_view(),
            out.deep_view() == section_paths(all.take(k as int)),
        decreases sections.len() - k,
    {
        let ghost base = out.deep_view();
        proof {
            assert(all.take(k + 1).drop_last() =~= all.take(k as int));
            assert(all.take(k + 1).last() == sections[k as int].deep_view());
        }
        let rows: Vec<FileRow> = sections[k].file_rows();
        let ghost want = rows.deep_view().map_values(|r: FileRowView| r.path);
        let mut j: usize = 0;
        assert(base + want.take(0) =~= base);
        while j < rows.len()
            invariant
                j <= rows.len(),
                want == rows.deep_view().map_values(|r: FileRowView| r.path),
                out.deep_view() == base + want.take(j as int),
            decreases rows.len() - j,
        {
            let ghost was = out.deep_view();
            out.push(rows[j].path.dup());
            assert(out.deep_view() =~= was.push(want[j as int]));
            assert(out.deep_view() =~= base + want.take(j + 1));
            j += 1;
        }
        assert(want.take(j as int) =~= want);
        k += 1;
    }
    assert(all.take(k as int) =~= all);
    out
}

fn collect_checkpoint_paths(cps: &Vec<ReviewCheckpoint>) -> (r: Vec<String>)
    ensures
        r.deep_view() == checkpoint_paths(cps.deep_view()),
{
    let ghost all = cps.deep_view();
    let mut out: Vec<String> = Vec::new();
    let mut k: usize = 0;
    assert(out.deep_view() =~= checkpoint_paths(all.take(0)));
    while k < cps.len()
        invariant
            k <= cps.len(),
            all == cps.deep_view(),
            out.deep_view() == checkpoint_paths(all.take(k as int)),
        decreases cps.len() - k,
    {
        let ghost base = out.deep_view();
        proof {
            assert(all.take(k + 1).drop_last() =~= all.take(k as int));
            assert(all.take(k + 1).last() == cps[k as int].deep_view());
        }
        let files: &Vec<ReviewFile> = &cps[k].files;
        let ghost want = files.deep_view().map_values(|f: ReviewFileView| f.path);
        let mut j: usize = 0;
        assert(base + want.take(0) =~= base);
        while j < files.len()
            invariant
                j <= files.len(),
                want == files.deep_view().map_values(|f: ReviewFileView| f.path),
                out.deep_view() == base + want.take(j as int),
            decreases files.len() - j,
        {
            let ghost was = out.deep_view();
            out.push(files[j].path.dup());
            assert(out.deep_view() =~= was.push(want[j as int]));
            assert(out.deep_view() =~= base + want.take(j + 1));
            j += 1;
        }
        assert(want.take(j as int) =~= want);
        k += 1;
    }
    assert(all.take(k as int) =~= all);
    out
}

fn sum_checkpoints(cps: &Vec<ReviewCheckpoint>) -> (r: LineStats)
    requires
        checkpoints_added(cps.deep_view()) <= u64::MAX,
        checkpoints_deleted(cps.deep_view()) <= u64::MAX,
    ensures
        r.additions == checkpoints_added(cps.deep_view()),
        r.deletions == checkpoints_deleted(cps.deep_view()),
{
    let ghost all = cps.deep_view();
    let mut additions: u64 = 0;
    let mut deletions: u64 = 0;
    let mut k: usize = 0;
    assert(all.take(0) =~= Seq::empty());
    while k < cps.len()
        invariant
            k <= cps.len(),
            all == cps.deep_view(),
            checkpoints_added(all) <= u64::MAX,
            checkpoints_deleted(all) <= u64::MAX,
            additions == checkpoints_added(all.take(k as int)),
            deletions == checkpoints_deleted(all.take(k as int)),
        decreases cps.len() - k,
    {
        proof {
            assert(all.take(k + 1).drop_last() =~= all.take(k as int));
            assert(all.take(k + 1).last() == cps[k as int].deep_view());
            lemma_checkpoint_sums_take(all, k + 1);
        }
        additions = additions + cps[k].stats.additions;
        deletions = deletions + cps[k].stats.deletions;
        k += 1;
    }
    assert(all.take(k as int) =~= all);
    LineStats { additions, deletions }
}

fn sum_sections(sections: &Vec<ReviewSection>) -> (r: LineStats)
    requires
        sections_added(sections.deep_view()) <= u64::MAX,
        sections_deleted(sections.deep_view()) <= u64::MAX,
    ensures
        r.additions == sections_added(sections.deep_view()),
        r.deletions == sections_deleted(sections.deep_view()),
{
    let ghost all = sections.deep_view();
    let mut additions: u64 = 0;
    let mut deletions: u64 = 0;
    let mut k: usize = 0;
    assert(all.take(0) =~= Seq::empty());
    while k < sections.len()
        invariant
            k <= sections.len(),
            all == sections.deep_view(),
            sections_added(all) <= u64::MAX,
            sections_deleted(all) <= u64::MAX,
            additions == sections_added(all.take(k as int)),
            deletions == sections_deleted(all.take(k as int)),
        decreases sections.len() - k,
    {
        proof {
            assert(all.take(k + 1).drop_last() =~= all.take(k as int));
            assert(all.take(k + 1).last() == sections[k as int].deep_view());
            lemma_section_sums_take(all, k + 1);
        }
        let st: LineStats = sections[k].stats();
        additions = additions + st.additions;
        deletions = deletions + st.deletions;
        k += 1;
    }
    assert(all.take(k as int) =~= all);
    LineStats { additions, deletions }
}

/// Build the review of a trail: commits with their checkpoints, then the
/// working tree. `infos` are the commits since the baseline, `blobs` the
/// contents that could be read, by their ids; `current` says whether `repo` is
/// the invoking worktree.
pub fn build(
    repo: &Repo,
    trail: &Trail,
    infos: &Vec<CommitInfo>,
    blobs: &TextMap<Vec<u8>>,
    work: &WorkState,
    current: bool,
) -> (r: WorktreeReview)
    requires
        comparable(blobs.deep_view()),
        within_limits(trail.deep_view().events, infos.deep_view(), work.deep_view()),
    ensures
        r.deep_view() == review_of(
            repo.deep_view(),
            trail.deep_view(),
            infos.deep_view(),
            blobs.deep_view(),
            work.deep_view(),
            current,
        ),
{
    let ghost ev = trail.events.deep_view();
    let ghost bv = blobs.deep_view();
    let ghost iv = infos.deep_view();
    // Commits in trail order (oldest first), and the checkpoints in reading
    // order (the metadata overlay may have permuted them).
    let ids: Vec<String> = collect_ids(&trail.events);
    let steps: Vec<&TrailEvent> = collect_pending(&trail.events);
    let ghost sv = steps.deep_view();
    let ghost idv = ids.deep_view();
    let ghost files = work_files(work.deep_view());
    proof {
        lemma_pending(ev);
        lemma_work_sums(files, 0);
        lemma_uncommitted(sv, idv);
    }
    let (sections, flat) = build_commits(infos, blobs, &steps, &ids);
    let mut sections: Vec<ReviewSection> = sections;
    let mut flat: Vec<ReviewCheckpoint> = flat;
    let ghost cs = sections.deep_view();
    let ghost cf = flat.deep_view();
    let number: usize = sections.len() + 1;
    let own: Vec<&TrailEvent> = select_uncommitted(&steps, &ids);
    let cps: Vec<ReviewCheckpoint> = number_all(blobs, &own, number);
    let ghost cv = cps.deep_view();
    let uncommitted_checkpoints: usize = cps.len();
    let mut copy: Vec<ReviewCheckpoint> = cps.dup();
    flat.append(&mut copy);
    assert(flat.deep_view() =~= cf + cv);
    let tree: WorkingTreeReview = working_tree_review(repo.live, number, work, cps);
    let ghost tv = ReviewSectionView::WorkingTree(tree.deep_view());
    sections.push(ReviewSection::WorkingTree(tree));
    assert(sections.deep_view() =~= cs.push(tv));
    assert(sections.deep_view().drop_last() =~= cs);
    proof {
        lemma_checkpoint_sums(cf, cv);
        let a = committed_changes(iv, sv, idv) as int;
        let b = change_count(uncommitted(sv, idv)) as int;
        assert((a + b) * u32::MAX == a * u32::MAX + b * u32::MAX) by (nonlinear_arith);
        assert((a + b) * u32::MAX <= u32::MAX * u32::MAX) by (nonlinear_arith)
            requires
                a + b <= u32::MAX,
        ;
        assert((sections.deep_view(), flat.deep_view()) == sections_of(
            repo.live,
            ev,
            iv,
            bv,
            work.deep_view(),
        ));
    }
    let files_changed: usize = path::count_distinct(&collect_checkpoint_paths(&flat));
    let cp_stats: LineStats = sum_checkpoints(&flat);
    let summary = ReviewSummary {
        commits: ids.len(),
        checkpoints: flat.len(),
        uncommitted_checkpoints,
        files_changed: path::count_distinct(&collect_section_paths(&sections)),
        stats: sum_sections(&sections),
    };
    let r = WorktreeReview {
        version: REVIEW_VERSION,
        repository: trail.repository.dup(),
        worktree: ReviewWorktree {
            id: repo.worktree_id(),
            path: repo.worktree.root.dup(),
            branch: match repo.head.branch_name() {
                Some(name) => Some(name.to_owned()),
                None => None,
            },
            exists: repo.live,
            current,
        },
        sections,
        checkpoints: flat,
        summary,
        files_changed,
        stats: cp_stats,
    };
    assert(r.deep_view() =~= review_of(
        repo.deep_view(),
        trail.deep_view(),
        iv,
        bv,
        work.deep_view(),
        current,
    ));
    r
}

} // verus!
