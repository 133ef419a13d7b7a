//! `trail worktrees`: every worktree of the repository, present or removed.
//!
//! Git knows the worktrees that exist (`.git/worktrees/<id>` plus the main
//! one). trail's store under the common dir knows every worktree that was
//! ever recorded, so a worktree that was removed with `git worktree remove`
//! still appears, with what its sessions remembered about it.

use crate::data::Dup;
use crate::error::{outcome, TrailError, TrailErrorView};
use crate::git::worktree::WorktreeKind;
use crate::order::{self, in_order, lemma_sorted, lemma_sorted_contains, sorted, ByText, Order};
use crate::recorder::checkpoint::{
    build_checkpoints, checkpoints_of, lemma_checkpoint_count, Checkpoint,
};
use crate::recorder::snapshot::{object_id, read_object_id};
use crate::recorder::store::{Record, RecordView, SessionFile, SessionFileView};
use crate::text;
use vstd::prelude::*;

verus! {

#[derive(Debug, Clone, PartialEq, Eq)]
pub struct WorktreeEntry {
    /// `main`, or the directory name under `.git/worktrees/`.
    pub id: String,
    pub path: String,
    pub kind: WorktreeKind,
    /// False when the directory is gone (`git worktree remove`).
    pub exists: bool,
    /// The worktree trail was invoked from.
    pub current: bool,
    pub branch: Option<String>,
    /// HEAD of the worktree; for a removed one, its last recorded position.
    pub head: Option<String>,
    /// Commits ahead of the base branch, when the tip is still known.
    pub commits: Option<usize>,
    pub sessions: usize,
    pub checkpoints: usize,
}

#[derive(Debug, Clone, PartialEq, Eq)]
pub struct WorktreesReport {
    pub repository: String,
    pub worktrees: Vec<WorktreeEntry>,
}

/// What the recorded sessions of one worktree remember about it.
#[derive(Debug, Clone, PartialEq, Eq)]
pub struct Recorded {
    pub path: String,
    pub branch: Option<String>,
    pub sessions: usize,
    pub checkpoints: usize,
    /// Last known HEAD: the last commit boundary of the latest session, or
    /// the HEAD the latest session started at.
    pub tip: Option<String>,
}

/// A worktree git currently has.
#[derive(Debug, Clone, PartialEq, Eq)]
pub struct ExistingWorktree {
    pub id: String,
    pub path: String,
    pub kind: WorktreeKind,
    /// Whether its directory is there; it may have been moved, or lie on an
    /// unmounted volume.
    pub on_disk: bool,
    /// Its branch, HEAD and commits ahead of the base branch, when it could be
    /// opened.
    pub state: Option<WorktreeState>,
}

#[derive(Debug, Clone, PartialEq, Eq)]
pub struct WorktreeState {
    pub branch: Option<String>,
    pub head: String,
    pub commits: Option<usize>,
}

/// A worktree that was removed: its tip and the commits ahead of the base
/// branch, when the tip is still known.
#[derive(Debug, Clone, PartialEq, Eq)]
pub struct RemovedTip {
    pub head: String,
    pub commits: Option<usize>,
}

/// What a [`WorktreeEntry`] denotes.
#[verifier::ext_equal]
pub struct WorktreeEntryView {
    pub id: Seq<char>,
    pub path: Seq<char>,
    pub kind: WorktreeKind,
    pub exists: bool,
    pub current: bool,
    pub branch: Option<Seq<char>>,
    pub head: Option<Seq<char>>,
    pub commits: Option<usize>,
    pub sessions: usize,
    pub checkpoints: usize,
}

impl DeepView for WorktreeEntry {
    type V = WorktreeEntryView;

    open spec fn deep_view(&self) -> WorktreeEntryView {
        WorktreeEntryView {
            id: self.id.deep_view(),
            path: self.path.deep_view(),
            kind: self.kind.deep_view(),
            exists: self.exists.deep_view(),
            current: self.current.deep_view(),
            branch: self.branch.deep_view(),
            head: self.head.deep_view(),
            commits: self.commits.deep_view(),
            sessions: self.sessions.deep_view(),
            checkpoints: self.checkpoints.deep_view(),
        }
    }
}

impl Dup for WorktreeEntry {
    fn dup(&self) -> (r: WorktreeEntry) {
        WorktreeEntry {
            id: self.id.dup(),
            path: self.path.dup(),
            kind: self.kind.dup(),
            exists: self.exists.dup(),
            current: self.current.dup(),
            branch: self.branch.dup(),
            head: self.head.dup(),
            commits: self.commits.dup(),
            sessions: self.sessions.dup(),
            checkpoints: self.checkpoints.dup(),
        }
    }
}

/// What a [`WorktreesReport`] denotes.
#[verifier::ext_equal]
pub struct WorktreesReportView {
    pub repository: Seq<char>,
    pub worktrees: Seq<WorktreeEntryView>,
}

impl DeepView for WorktreesReport {
    type V = WorktreesReportView;

    open spec fn deep_view(&self) -> WorktreesReportView {
        WorktreesReportView {
            repository: self.repository.deep_view(),
            worktrees: self.worktrees.deep_view(),
        }
    }
}

impl Dup for WorktreesReport {
    fn dup(&self) -> (r: WorktreesReport) {
        WorktreesReport {
            repository: self.repository.dup(),
            worktrees: self.worktrees.dup(),
        }
    }
}

/// What a [`Recorded`] denotes.
#[verifier::ext_equal]
pub struct RecordedView {
    pub path: Seq<char>,
    pub branch: Option<Seq<char>>,
    pub sessions: usize,
    pub checkpoints: usize,
    pub tip: Option<Seq<char>>,
}

impl DeepView for Recorded {
    type V = RecordedView;

    open spec fn deep_view(&self) -> RecordedView {
        RecordedView {
            path: self.path.deep_view(),
            branch: self.branch.deep_view(),
            sessions: self.sessions.deep_view(),
            checkpoints: self.checkpoints.deep_view(),
            tip: self.tip.deep_view(),
        }
    }
}

impl Dup for Recorded {
    fn dup(&self) -> (r: Recorded) {
        Recorded {
            path: self.path.dup(),
            branch: self.branch.dup(),
            sessions: self.sessions.dup(),
            checkpoints: self.checkpoints.dup(),
            tip: self.tip.dup(),
        }
    }
}

/// What a [`WorktreeState`] denotes.
#[verifier::ext_equal]
pub struct WorktreeStateView {
    pub branch: Option<Seq<char>>,
    pub head: Seq<char>,
    pub commits: Option<usize>,
}

impl DeepView for WorktreeState {
    type V = WorktreeStateView;

    open spec fn deep_view(&self) -> WorktreeStateView {
        WorktreeStateView {
            branch: self.branch.deep_view(),
            head: self.head.deep_view(),
            commits: self.commits.deep_view(),
        }
    }
}

impl Dup for WorktreeState {
    fn dup(&self) -> (r: WorktreeState) {
        WorktreeState {
            branch: self.branch.dup(),
            head: self.head.dup(),
            commits: self.commits.dup(),
        }
    }
}

/// What a [`ExistingWorktree`] denotes.
#[verifier::ext_equal]
pub struct ExistingWorktreeView {
    pub id: Seq<char>,
    pub path: Seq<char>,
    pub kind: WorktreeKind,
    pub on_disk: bool,
    pub state: Option<WorktreeStateView>,
}

impl DeepView for ExistingWorktree {
    type V = ExistingWorktreeView;

    open spec fn deep_view(&self) -> ExistingWorktreeView {
        ExistingWorktreeView {
            id: self.id.deep_view(),
            path: self.path.deep_view(),
            kind: self.kind.deep_view(),
            on_disk: self.on_disk.deep_view(),
            state: self.state.deep_view(),
        }
    }
}

impl Dup for ExistingWorktree {
    fn dup(&self) -> (r: ExistingWorktree) {
        ExistingWorktree {
            id: self.id.dup(),
            path: self.path.dup(),
            kind: self.kind.dup(),
            on_disk: self.on_disk.dup(),
            state: self.state.dup(),
        }
    }
}

/// What a [`RemovedTip`] denotes.
#[verifier::ext_equal]
pub struct RemovedTipView {
    pub head: Seq<char>,
    pub commits: Option<usize>,
}

impl DeepView for RemovedTip {
    type V = RemovedTipView;

    open spec fn deep_view(&self) -> RemovedTipView {
        RemovedTipView {
            head: self.head.deep_view(),
            commits: self.commits.deep_view(),
        }
    }
}

impl Dup for RemovedTip {
    fn dup(&self) -> (r: RemovedTip) {
        RemovedTip {
            head: self.head.dup(),
            commits: self.commits.dup(),
        }
    }
}

// ---------------------------------------------------------------------------
// What sessions remember
/// The last HEAD movement of a session.
pub open spec fn last_movement(records: Seq<RecordView>) -> Option<Seq<char>>
    decreases records.len(),
{
    if records.len() == 0 {
        None
    } else {
        match records.last() {
            RecordView::Commit { timestamp, from_head, to_head } => Some(to_head),
            _ => last_movement(records.drop_last()),
        }
    }
}

/// The last HEAD a session knows of, when that is an object id.
pub open spec fn last_head_of(s: SessionFileView) -> Option<Seq<char>> {
    let hex = match last_movement(s.records) {
        Some(h) => Some(h),
        None => s.header.start_head,
    };
    match hex {
        Some(h) => object_id(h),
        None => None,
    }
}

/// How many records some sessions have.
pub open spec fn total_records(sessions: Seq<SessionFileView>) -> nat
    decreases sessions.len(),
{
    if sessions.len() == 0 {
        0
    } else {
        total_records(sessions.drop_last()) + sessions.last().records.len()
    }
}

/// What the sessions of one worktree remember about it. They are given oldest
/// first, so the latest describes the worktree.
pub open spec fn remembered(sessions: Seq<SessionFileView>, id: Seq<char>) -> Option<RecordedView>
    decreases sessions.len(),
{
    if sessions.len() == 0 {
        None
    } else {
        let before = remembered(sessions.drop_last(), id);
        let s = sessions.last();
        if s.header.worktree_id != id {
            before
        } else {
            let n = checkpoints_of(s.header.session_id, s.records).len();
            Some(
                RecordedView {
                    path: s.header.worktree_path,
                    branch: s.header.branch,
                    sessions: (1 + match before {
                        Some(b) => b.sessions as int,
                        None => 0,
                    }) as usize,
                    checkpoints: (n + match before {
                        Some(b) => b.checkpoints as int,
                        None => 0,
                    }) as usize,
                    tip: match last_head_of(s) {
                        Some(h) => Some(h),
                        None => match before {
                            Some(b) => b.tip,
                            None => None,
                        },
                    },
                },
            )
        }
    }
}

/// The worktrees that some sessions were recorded in, in order of their ids.
pub open spec fn recorded_ids(sessions: Seq<SessionFileView>) -> Seq<Seq<char>> {
    without_repeats(
        sorted::<String, ByText>(
            sessions.map_values(|s: SessionFileView| s.header.worktree_id),
        ),
    )
}

/// A sorted list with each text once.
pub open spec fn without_repeats(ids: Seq<Seq<char>>) -> Seq<Seq<char>>
    decreases ids.len(),
{
    if ids.len() == 0 {
        Seq::empty()
    } else if ids.len() > 1 && ids[ids.len() - 2] == ids.last() {
        without_repeats(ids.drop_last())
    } else {
        without_repeats(ids.drop_last()).push(ids.last())
    }
}

fn find_movement<'a>(records: &'a Vec<Record>) -> (r: Option<&'a String>)
    ensures
        r.deep_view() == last_movement(records.deep_view()),
{
    let ghost all = records.deep_view();
    let mut k: usize = records.len();
    assert(all.take(k as int) =~= all);
    while k > 0
        invariant
            k <= records.len(),
            all == records.deep_view(),
            last_movement(all) == last_movement(all.take(k as int)),
        decreases k,
    {
        assert(all.take(k as int).last() == records[k - 1].deep_view());
        match &records[k - 1] {
            Record::Commit { timestamp: _, from_head: _, to_head } => {
                return Some(to_head);
            },
            _ => {},
        }
        assert(all.take(k as int).drop_last() =~= all.take(k - 1));
        k -= 1;
    }
    None
}

/// The last HEAD a session knows of, when that is an object id.
pub fn last_head(session: &SessionFile) -> (r: Option<String>)
    ensures
        r.deep_view() == last_head_of(session.deep_view()),
{
    match find_movement(&session.records) {
        Some(hex) => read_object_id(hex),
        None => match &session.header.start_head {
            Some(hex) => read_object_id(hex),
            None => None,
        },
    }
}

proof fn lemma_remembered_bound(sessions: Seq<SessionFileView>, id: Seq<char>)
    requires
        total_records(sessions) <= usize::MAX,
        sessions.len() <= usize::MAX,
    ensures
        remembered(sessions, id) is Some ==> remembered(sessions, id)->Some_0.checkpoints
            <= total_records(sessions) && remembered(sessions, id)->Some_0.sessions
            <= sessions.len(),
    decreases sessions.len(),
{
    if sessions.len() > 0 {
        lemma_remembered_bound(sessions.drop_last(), id);
        let s = sessions.last();
        lemma_checkpoint_count(s.header.session_id, s.records);
    }
}

proof fn lemma_total_take(sessions: Seq<SessionFileView>, k: int)
    requires
        0 <= k <= sessions.len(),
    ensures
        total_records(sessions.take(k)) <= total_records(sessions),
    decreases sessions.len(),
{
    if k == sessions.len() {
        assert(sessions.take(k) =~= sessions);
    } else {
        assert(sessions.drop_last().take(k) =~= sessions.take(k));
        lemma_total_take(sessions.drop_last(), k);
    }
}

/// Sessions whose records can be counted.
pub open spec fn countable(sessions: Seq<SessionFileView>) -> bool {
    &&& total_records(sessions) <= usize::MAX
    &&& forall|i: int| 0 <= i < sessions.len() ==> (#[trigger] sessions[i]).records.len() < u32::MAX
}

/// What the sessions of one worktree remember about it.
pub fn recorded_in(sessions: &Vec<SessionFile>, id: &str) -> (r: Option<Recorded>)
    requires
        countable(sessions.deep_view()),
    ensures
        r.deep_view() == remembered(sessions.deep_view(), id@),
{
    let ghost all = sessions.deep_view();
    let mut found: Option<Recorded> = None;
    let mut k: usize = 0;
    assert(all.take(0) =~= Seq::empty());
    while k < sessions.len()
        invariant
            k <= sessions.len(),
            all == sessions.deep_view(),
            countable(all),
            found.deep_view() == remembered(all.take(k as int), id@),
        decreases sessions.len() - k,
    {
        let s: &SessionFile = &sessions[k];
        proof {
            assert(all.take(k + 1).drop_last() =~= all.take(k as int));
            assert(all.take(k + 1).last() == s.deep_view());
            lemma_total_take(all, k as int);
            lemma_total_take(all, k + 1);
            lemma_remembered_bound(all.take(k as int), id@);
            lemma_checkpoint_count(s.header.session_id@, s.records.deep_view());
            assert(all[k as int].records.len() < u32::MAX);
        }
        if text::same(&s.header.worktree_id, id) {
            let records = s.records.as_slice();
            assert(records.deep_view() =~= s.records.deep_view());
            let cps: Vec<Checkpoint> = build_checkpoints(&s.header.session_id, records);
            assert(cps.deep_view().len() == cps.len());
            let tip: Option<String> = last_head(s);
            let (sessions_before, checkpoints_before, tip_before): (
                usize,
                usize,
                Option<String>,
            ) = match &found {
                Some(b) => (b.sessions, b.checkpoints, b.tip.dup()),
                None => (0, 0, None),
            };
            let r = Recorded {
                path: s.header.worktree_path.dup(),
                branch: s.header.branch.dup(),
                sessions: sessions_before + 1,
                checkpoints: checkpoints_before + cps.len(),
                tip: if tip.is_some() {
                    tip
                } else {
                    tip_before
                },
            };
            assert(r.deep_view() =~= remembered(all.take(k + 1), id@)->Some_0);
            found = Some(r);
        }
        k += 1;
    }
    assert(all.take(k as int) =~= all);
    found
}

/// The worktrees that some sessions were recorded in, in order of their ids.
pub fn recorded_worktrees(sessions: &Vec<SessionFile>) -> (r: Vec<String>)
    ensures
        r.deep_view() == recorded_ids(sessions.deep_view()),
{
    let ghost all = sessions.deep_view();
    let ghost f = |s: SessionFileView| s.header.worktree_id;
    let ghost want = all.map_values(f);
    let mut names: Vec<String> = Vec::new();
    let mut k: usize = 0;
    while k < sessions.len()
        invariant
            k <= sessions.len(),
            all == sessions.deep_view(),
            f == (|s: SessionFileView| s.header.worktree_id),
            want == all.map_values(f),
            names.deep_view() =~= want.take(k as int),
        decreases sessions.len() - k,
    {
        let ghost was = names.deep_view();
        assert(all[k as int] == sessions[k as int].deep_view());
        names.push(sessions[k].header.worktree_id.dup());
        assert(names.deep_view() =~= was.push(want[k as int]));
        k += 1;
    }
    assert(want.take(k as int) =~= want);
    let ids: Vec<String> = order::sort::<String, ByText>(names);
    let ghost is = ids.deep_view();
    let mut out: Vec<String> = Vec::new();
    let mut k: usize = 0;
    assert(out.deep_view() =~= without_repeats(is.take(0)));
    while k < ids.len()
        invariant
            k <= ids.len(),
            is == ids.deep_view(),
            out.deep_view() == without_repeats(is.take(k as int)),
        decreases ids.len() - k,
    {
        let ghost was = out.deep_view();
        proof {
            assert(is.take(k + 1).drop_last() =~= is.take(k as int));
            assert(is.take(k + 1).last() == ids[k as int]@);
            if k > 0 {
                assert(is.take(k + 1)[k - 1] == ids[k - 1]@);
            }
        }
        if !(k > 0 && ids[k - 1] == ids[k]) {
            out.push(ids[k].dup());
            assert(out.deep_view() =~= was.push(is[k as int]));
        }
        k += 1;
    }
    assert(is.take(k as int) =~= is);
    out
}

// ---------------------------------------------------------------------------
// The list
pub open spec fn is_existing(existing: Seq<ExistingWorktreeView>, id: Seq<char>) -> bool {
    exists|i: int| 0 <= i < existing.len() && (#[trigger] existing[i]).id == id
}

fn known_to_git(existing: &Vec<ExistingWorktree>, id: &str) -> (r: bool)
    ensures
        r == is_existing(existing.deep_view(), id@),
{
    let ghost all = existing.deep_view();
    let mut k: usize = 0;
    while k < existing.len()
        invariant
            k <= existing.len(),
            all == existing.deep_view(),
            forall|i: int| 0 <= i < k ==> (#[trigger] all[i]).id != id@,
        decreases existing.len() - k,
    {
        assert(all[k as int].id == existing[k as int].id@);
        if text::same(&existing[k].id, id) {
            return true;
        }
        k += 1;
    }
    false
}

/// An existing worktree in the list: its own state, or else what its sessions
/// remember.
pub open spec fn existing_entry(
    w: ExistingWorktreeView,
    current_id: Seq<char>,
    rec: Option<RecordedView>,
) -> WorktreeEntryView {
    WorktreeEntryView {
        id: w.id,
        path: w.path,
        kind: w.kind,
        exists: w.on_disk,
        current: w.id == current_id,
        branch: match w.state {
            Some(s) => s.branch,
            None => match rec {
                Some(r) => r.branch,
                None => None,
            },
        },
        head: match w.state {
            Some(s) => Some(s.head),
            None => match rec {
                Some(r) => r.tip,
                None => None,
            },
        },
        commits: match w.state {
            Some(s) => s.commits,
            None => None,
        },
        sessions: match rec {
            Some(r) => r.sessions,
            None => 0,
        },
        checkpoints: match rec {
            Some(r) => r.checkpoints,
            None => 0,
        },
    }
}

/// A removed worktree in the list: what its sessions remember, and its tip when
/// that is still known.
pub open spec fn removed_entry(
    id: Seq<char>,
    rec: RecordedView,
    tip: Option<RemovedTipView>,
) -> WorktreeEntryView {
    WorktreeEntryView {
        id,
        path: rec.path,
        kind: WorktreeKind::Linked,
        exists: false,
        current: false,
        branch: rec.branch,
        head: match tip {
            Some(t) => Some(t.head),
            None => None,
        },
        commits: match tip {
            Some(t) => t.commits,
            None => None,
        },
        sessions: rec.sessions,
        checkpoints: rec.checkpoints,
    }
}

/// The recorded worktrees that git does not have any more.
pub open spec fn removed_of(ids: Seq<Seq<char>>, existing: Seq<ExistingWorktreeView>) -> Seq<
    Seq<char>,
>
    decreases ids.len(),
{
    if ids.len() == 0 {
        Seq::empty()
    } else if is_existing(existing, ids.last()) {
        removed_of(ids.drop_last(), existing)
    } else {
        removed_of(ids.drop_last(), existing).push(ids.last())
    }
}

/// The recorded worktrees that git does not have any more, in order of their
/// ids.
pub fn removed_worktrees(sessions: &Vec<SessionFile>, existing: &Vec<ExistingWorktree>) -> (r: Vec<
    String,
>)
    ensures
        r.deep_view() == removed_of(recorded_ids(sessions.deep_view()), existing.deep_view()),
{
    let ids: Vec<String> = recorded_worktrees(sessions);
    let ghost all = ids.deep_view();
    let ghost es = existing.deep_view();
    let mut out: Vec<String> = Vec::new();
    let mut k: usize = 0;
    assert(out.deep_view() =~= removed_of(all.take(0), es));
    while k < ids.len()
        invariant
            k <= ids.len(),
            all == ids.deep_view(),
            es == existing.deep_view(),
            out.deep_view() == removed_of(all.take(k as int), es),
        decreases ids.len() - k,
    {
        let ghost was = out.deep_view();
        proof {
            assert(all.take(k + 1).drop_last() =~= all.take(k as int));
            assert(all.take(k + 1).last() == ids[k as int]@);
        }
        if !known_to_git(existing, &ids[k]) {
            out.push(ids[k].dup());
            assert(out.deep_view() =~= was.push(all[k as int]));
        }
        k += 1;
    }
    assert(all.take(k as int) =~= all);
    out
}

/// The tip of a removed worktree: the branch ref when the recorded HEAD is
/// still part of it (commits made after the recorder stopped are then
/// included), otherwise the recorded HEAD itself.
pub open spec fn removed_head_of(
    id: Seq<char>,
    recorded_tip: Option<Seq<char>>,
    branch_tip: Option<Seq<char>>,
    part_of_branch: bool,
) -> Result<Seq<char>, TrailErrorView> {
    match (recorded_tip, branch_tip) {
        (Some(rec), Some(br)) => if part_of_branch {
            Ok(br)
        } else {
            Ok(rec)
        },
        (Some(rec), None) => Ok(rec),
        (None, Some(br)) => Ok(br),
        (None, None) => Err(
            TrailErrorView::WorktreeUnavailable(
                "worktree "@ + id
                    + " was removed and its last recorded commit is no longer in the repository"@,
            ),
        ),
    }
}

/// The tip of a removed worktree. `recorded_tip` is the recorded HEAD if it is
/// still in the repository, `branch_tip` where its branch is now, and
/// `part_of_branch` whether the one is an ancestor of the other.
pub fn removed_head(
    id: &str,
    recorded_tip: Option<String>,
    branch_tip: Option<String>,
    part_of_branch: bool,
) -> (r: Result<String, TrailError>)
    ensures
        outcome(r) == removed_head_of(
            id@,
            recorded_tip.deep_view(),
            branch_tip.deep_view(),
            part_of_branch,
        ),
{
    match (recorded_tip, branch_tip) {
        (Some(rec), Some(br)) => if part_of_branch {
            Ok(br)
        } else {
            Ok(rec)
        },
        (Some(rec), None) => Ok(rec),
        (None, Some(br)) => Ok(br),
        (None, None) => Err(
            TrailError::WorktreeUnavailable(
                text::cat3(
                    "worktree ",
                    id,
                    " was removed and its last recorded commit is no longer in the repository",
                ),
            ),
        ),
    }
}

/// Every worktree: existing ones first (in git's order), then removed ones.
/// `tips` are those of the removed ones, in the order of [`removed_of`].
pub open spec fn worktree_list(
    current_id: Seq<char>,
    existing: Seq<ExistingWorktreeView>,
    sessions: Seq<SessionFileView>,
    tips: Seq<Option<RemovedTipView>>,
) -> Seq<WorktreeEntryView> {
    let removed = removed_of(recorded_ids(sessions), existing);
    existing.map_values(
        |w: ExistingWorktreeView| existing_entry(w, current_id, remembered(sessions, w.id)),
    ) + removed_entries(removed, sessions, tips)
}

pub open spec fn removed_entries(
    ids: Seq<Seq<char>>,
    sessions: Seq<SessionFileView>,
    tips: Seq<Option<RemovedTipView>>,
) -> Seq<WorktreeEntryView>
    decreases ids.len(),
{
    if ids.len() == 0 {
        Seq::empty()
    } else {
        let n = ids.len() - 1;
        let before = removed_entries(ids.drop_last(), sessions, tips);
        match remembered(sessions, ids.last()) {
            Some(rec) => before.push(
                removed_entry(
                    ids.last(),
                    rec,
                    if n < tips.len() {
                        tips[n]
                    } else {
                        None
                    },
                ),
            ),
            None => before,
        }
    }
}

fn opt_branch(rec: &Option<Recorded>) -> (r: Option<String>)
    ensures
        r.deep_view() == (match rec.deep_view() {
            Some(r) => r.branch,
            None => None,
        }),
{
    match rec {
        Some(r) => r.branch.dup(),
        None => None,
    }
}

fn opt_tip(rec: &Option<Recorded>) -> (r: Option<String>)
    ensures
        r.deep_view() == (match rec.deep_view() {
            Some(r) => r.tip,
            None => None,
        }),
{
    match rec {
        Some(r) => r.tip.dup(),
        None => None,
    }
}

/// Every worktree, existing ones first (in git's order), then removed ones.
pub fn build_worktrees(
    repository: &str,
    current_id: &str,
    existing: &Vec<ExistingWorktree>,
    sessions: &Vec<SessionFile>,
    tips: &Vec<Option<RemovedTip>>,
) -> (r: WorktreesReport)
    requires
        countable(sessions.deep_view()),
    ensures
        r.deep_view() == (WorktreesReportView {
            repository: repository@,
            worktrees: worktree_list(
                current_id@,
                existing.deep_view(),
                sessions.deep_view(),
                tips.deep_view(),
            ),
        }),
{
    let ghost es = existing.deep_view();
    let ghost ss = sessions.deep_view();
    let ghost ts = tips.deep_view();
    let ghost f = |w: ExistingWorktreeView|
        existing_entry(w, current_id@, remembered(ss, w.id));
    let ghost first = es.map_values(f);
    let mut out: Vec<WorktreeEntry> = Vec::new();
    let mut k: usize = 0;
    while k < existing.len()
        invariant
            k <= existing.len(),
            es == existing.deep_view(),
            ss == sessions.deep_view(),
            countable(ss),
            f == (|w: ExistingWorktreeView|
                existing_entry(w, current_id@, remembered(ss, w.id))),
            first == es.map_values(f),
            out.deep_view() =~= first.take(k as int),
        decreases existing.len() - k,
    {
        let ghost was = out.deep_view();
        let w: &ExistingWorktree = &existing[k];
        assert(es[k as int] == w.deep_view());
        let rec: Option<Recorded> = recorded_in(sessions, &w.id);
        let (sessions_n, checkpoints_n): (usize, usize) = match &rec {
            Some(r) => (r.sessions, r.checkpoints),
            None => (0, 0),
        };
        let (branch, head, commits): (Option<String>, Option<String>, Option<usize>) =
            match &w.state {
            Some(s) => (s.branch.dup(), Some(s.head.dup()), s.commits),
            None => (opt_branch(&rec), opt_tip(&rec), None),
        };
        let e = WorktreeEntry {
            current: text::same(&w.id, current_id),
            id: w.id.dup(),
            path: w.path.dup(),
            kind: w.kind,
            exists: w.on_disk,
            branch,
            head,
            commits,
            sessions: sessions_n,
            checkpoints: checkpoints_n,
        };
        assert(e.deep_view() =~= first[k as int]);
        out.push(e);
        assert(out.deep_view() =~= was.push(first[k as int]));
        k += 1;
    }
    assert(first.take(k as int) =~= first);
    let removed: Vec<String> = removed_worktrees(sessions, existing);
    let ghost rs = removed.deep_view();
    let mut k: usize = 0;
    assert(first + removed_entries(rs.take(0), ss, ts) =~= first);
    while k < removed.len()
        invariant
            k <= removed.len(),
            ss == sessions.deep_view(),
            countable(ss),
            ts == tips.deep_view(),
            rs == removed.deep_view(),
            out.deep_view() == first + removed_entries(rs.take(k as int), ss, ts),
        decreases removed.len() - k,
    {
        let ghost was = out.deep_view();
        proof {
            assert(rs.take(k + 1).drop_last() =~= rs.take(k as int));
            assert(rs.take(k + 1).last() == removed[k as int]@);
            if k < tips.len() {
                assert(ts[k as int] == tips[k as int].deep_view());
            }
        }
        match recorded_in(sessions, &removed[k]) {
            Some(rec) => {
                let (head, commits): (Option<String>, Option<usize>) = if k < tips.len() {
                    match &tips[k] {
                        Some(t) => (Some(t.head.dup()), t.commits),
                        None => (None, None),
                    }
                } else {
                    (None, None)
                };
                let ghost tip = if k < ts.len() {
                    ts[k as int]
                } else {
                    None
                };
                let ghost want = removed_entry(removed[k as int]@, rec.deep_view(), tip);
                let e = WorktreeEntry {
                    id: removed[k].dup(),
                    path: rec.path.dup(),
                    kind: WorktreeKind::Linked,
                    exists: false,
                    current: false,
                    branch: rec.branch.dup(),
                    head,
                    commits,
                    sessions: rec.sessions,
                    checkpoints: rec.checkpoints,
                };
                assert(e.deep_view() =~= want);
                out.push(e);
                assert(out.deep_view() =~= was.push(want));
                assert(out.deep_view() =~= first + removed_entries(rs.take(k + 1), ss, ts));
            },
            None => {},
        }
        k += 1;
    }
    assert(rs.take(k as int) =~= rs);
    WorktreesReport { repository: repository.to_owned(), worktrees: out }
}

// ---------------------------------------------------------------------------
// Selecting one
/// What `--worktree <id|branch>` names.
#[derive(Debug, Clone, PartialEq, Eq)]
pub enum WorktreeChoice {
    /// The worktree trail was invoked from.
    Current,
    /// Another worktree, at this path.
    Existing(String),
    /// A worktree that is gone, known by its recorded history.
    Removed(String),
}

/// What a [`WorktreeChoice`] denotes.
#[verifier::ext_equal]
pub enum WorktreeChoiceView {
    Current,
    Existing(Seq<char>),
    Removed(Seq<char>),
}

impl DeepView for WorktreeChoice {
    type V = WorktreeChoiceView;

    open spec fn deep_view(&self) -> WorktreeChoiceView {
        match *self {
            WorktreeChoice::Current => WorktreeChoiceView::Current,
            WorktreeChoice::Existing(x) => WorktreeChoiceView::Existing(x.deep_view()),
            WorktreeChoice::Removed(x) => WorktreeChoiceView::Removed(x.deep_view()),
        }
    }
}

impl Dup for WorktreeChoice {
    fn dup(&self) -> (r: WorktreeChoice) {
        match self {
            WorktreeChoice::Current => WorktreeChoice::Current,
            WorktreeChoice::Existing(x) => WorktreeChoice::Existing(x.dup()),
            WorktreeChoice::Removed(x) => WorktreeChoice::Removed(x.dup()),
        }
    }
}

/// An existing worktree that a selector names: by its id, or else by its branch.
pub open spec fn names_existing(w: ExistingWorktreeView, selector: Seq<char>, by_id: bool) -> bool {
    if by_id {
        w.id == selector
    } else {
        w.state is Some && w.state->Some_0.branch == Some(selector)
    }
}

pub open spec fn existing_matches(
    existing: Seq<ExistingWorktreeView>,
    selector: Seq<char>,
    by_id: bool,
) -> Seq<(Seq<char>, Option<Seq<char>>)>
    decreases existing.len(),
{
    if existing.len() == 0 {
        Seq::empty()
    } else if names_existing(existing.last(), selector, by_id) {
        existing_matches(existing.drop_last(), selector, by_id).push(
            (
                existing.last().id,
                if existing.last().on_disk {
                    Some(existing.last().path)
                } else {
                    None
                },
            ),
        )
    } else {
        existing_matches(existing.drop_last(), selector, by_id)
    }
}

/// A removed worktree that a selector names: by its id, or else by its last
/// branch.
pub open spec fn names_removed(
    sessions: Seq<SessionFileView>,
    id: Seq<char>,
    selector: Seq<char>,
    by_id: bool,
) -> bool {
    if by_id {
        id == selector
    } else {
        match remembered(sessions, id) {
            Some(rec) => rec.branch == Some(selector),
            None => false,
        }
    }
}

pub open spec fn removed_matches(
    ids: Seq<Seq<char>>,
    sessions: Seq<SessionFileView>,
    selector: Seq<char>,
    by_id: bool,
) -> Seq<(Seq<char>, Option<Seq<char>>)>
    decreases ids.len(),
{
    if ids.len() == 0 {
        Seq::empty()
    } else if names_removed(sessions, ids.last(), selector, by_id) {
        removed_matches(ids.drop_last(), sessions, selector, by_id).push((ids.last(), None))
    } else {
        removed_matches(ids.drop_last(), sessions, selector, by_id)
    }
}

/// The worktrees that a selector names by id or by branch, each with its path
/// if it is on disk.
pub open spec fn matches_by(
    existing: Seq<ExistingWorktreeView>,
    sessions: Seq<SessionFileView>,
    selector: Seq<char>,
    by_id: bool,
) -> Seq<(Seq<char>, Option<Seq<char>>)> {
    existing_matches(existing, selector, by_id) + removed_matches(
        removed_of(recorded_ids(sessions), existing),
        sessions,
        selector,
        by_id,
    )
}

/// Every worktree that a selector names. An id is one even where it is also
/// the name of a branch.
pub open spec fn worktree_matches(
    existing: Seq<ExistingWorktreeView>,
    sessions: Seq<SessionFileView>,
    selector: Seq<char>,
) -> Seq<(Seq<char>, Option<Seq<char>>)> {
    if matches_by(existing, sessions, selector, true).len() > 0 {
        matches_by(existing, sessions, selector, true)
    } else {
        matches_by(existing, sessions, selector, false)
    }
}

/// What a selector names. Ambiguous selectors are an error, never a guess.
pub open spec fn chosen_worktree(
    current_id: Seq<char>,
    existing: Seq<ExistingWorktreeView>,
    sessions: Seq<SessionFileView>,
    given: Seq<char>,
) -> Result<WorktreeChoiceView, TrailErrorView> {
    let selector = text::trim(given);
    let hits = worktree_matches(existing, sessions, selector);
    if hits.len() == 0 {
        Err(
            TrailErrorView::InvalidSelection(
                "no worktree with id or branch '"@ + selector
                    + "'\n  hint: `trail worktrees` lists them"@,
            ),
        )
    } else if hits.len() > 1 {
        Err(
            TrailErrorView::InvalidSelection(
                "'"@ + selector + "' matches several worktrees: "@ + text::join(
                    hits.map_values(|m: (Seq<char>, Option<Seq<char>>)| m.0),
                    ", "@,
                ) + "\n  hint: pass the worktree id instead of the branch"@,
            ),
        )
    } else if hits[0].0 == current_id {
        Ok(WorktreeChoiceView::Current)
    } else {
        match hits[0].1 {
            Some(path) => Ok(WorktreeChoiceView::Existing(path)),
            None => if remembered(sessions, hits[0].0) is Some {
                Ok(WorktreeChoiceView::Removed(hits[0].0))
            } else {
                Err(
                    TrailErrorView::WorktreeUnavailable(
                        "worktree "@ + hits[0].0
                            + " is missing from disk and has no recorded history"@,
                    ),
                )
            },
        }
    }
}

fn collect_matches(
    existing: &Vec<ExistingWorktree>,
    sessions: &Vec<SessionFile>,
    selector: &str,
    by_id: bool,
) -> (r: Vec<(String, Option<String>)>)
    requires
        countable(sessions.deep_view()),
    ensures
        r.deep_view() == matches_by(
            existing.deep_view(),
            sessions.deep_view(),
            selector@,
            by_id,
        ),
{
    let ghost es = existing.deep_view();
    let ghost ss = sessions.deep_view();
    let mut out: Vec<(String, Option<String>)> = Vec::new();
    let mut k: usize = 0;
    assert(out.deep_view() =~= existing_matches(es.take(0), selector@, by_id));
    while k < existing.len()
        invariant
            k <= existing.len(),
            es == existing.deep_view(),
            out.deep_view() == existing_matches(es.take(k as int), selector@, by_id),
        decreases existing.len() - k,
    {
        let ghost was = out.deep_view();
        let w: &ExistingWorktree = &existing[k];
        proof {
            assert(es.take(k + 1).drop_last() =~= es.take(k as int));
            assert(es.take(k + 1).last() == w.deep_view());
        }
        let named: bool = if by_id {
            text::same(&w.id, selector)
        } else {
            match &w.state {
                Some(s) => match &s.branch {
                    Some(b) => text::same(b, selector),
                    None => false,
                },
                None => false,
            }
        };
        if named {
            let path: Option<String> = if w.on_disk {
                Some(w.path.dup())
            } else {
                None
            };
            let ghost pv = path.deep_view();
            out.push((w.id.dup(), path));
            assert(out.deep_view() =~= was.push((w.id@, pv)));
        }
        k += 1;
    }
    assert(es.take(k as int) =~= es);
    let ghost first = out.deep_view();
    let removed: Vec<String> = removed_worktrees(sessions, existing);
    let ghost rs = removed.deep_view();
    let mut k: usize = 0;
    assert(first + removed_matches(rs.take(0), ss, selector@, by_id) =~= first);
    while k < removed.len()
        invariant
            k <= removed.len(),
            ss == sessions.deep_view(),
            countable(ss),
            rs == removed.deep_view(),
            out.deep_view() == first + removed_matches(rs.take(k as int), ss, selector@, by_id),
        decreases removed.len() - k,
    {
        let ghost was = out.deep_view();
        proof {
            assert(rs.take(k + 1).drop_last() =~= rs.take(k as int));
            assert(rs.take(k + 1).last() == removed[k as int]@);
        }
        let named: bool = if by_id {
            text::same(&removed[k], selector)
        } else {
            match recorded_in(sessions, &removed[k]) {
                Some(rec) => match &rec.branch {
                    Some(b) => text::same(b, selector),
                    None => false,
                },
                None => false,
            }
        };
        if named {
            out.push((removed[k].dup(), None));
            assert(out.deep_view() =~= was.push((removed[k as int]@, None)));
            assert(out.deep_view() =~= first + removed_matches(rs.take(k + 1), ss, selector@, by_id));
        }
        k += 1;
    }
    assert(rs.take(k as int) =~= rs);
    out
}

fn collect_all(
    existing: &Vec<ExistingWorktree>,
    sessions: &Vec<SessionFile>,
    selector: &str,
) -> (r: Vec<(String, Option<String>)>)
    requires
        countable(sessions.deep_view()),
    ensures
        r.deep_view() == worktree_matches(
            existing.deep_view(),
            sessions.deep_view(),
            selector@,
        ),
{
    let by_id: Vec<(String, Option<String>)> = collect_matches(existing, sessions, selector, true);
    assert(by_id.deep_view().len() == by_id.len());
    if by_id.len() > 0 {
        by_id
    } else {
        collect_matches(existing, sessions, selector, false)
    }
}

/// Resolve `--worktree <id|branch>`: the current worktree, another existing
/// one, or a removed one to be rebuilt from its recorded history. Ambiguous
/// selectors are an error, never a guess.
pub fn resolve_worktree(
    current_id: &str,
    existing: &Vec<ExistingWorktree>,
    sessions: &Vec<SessionFile>,
    selector: &str,
) -> (r: Result<WorktreeChoice, TrailError>)
    requires
        countable(sessions.deep_view()),
    ensures
        outcome(r) == chosen_worktree(
            current_id@,
            existing.deep_view(),
            sessions.deep_view(),
            selector@,
        ),
{
    let selector: &str = text::trim_of(selector);
    let hits: Vec<(String, Option<String>)> = collect_all(existing, sessions, selector);
    let ghost hv = hits.deep_view();
    if hits.len() == 0 {
        return Err(
            TrailError::InvalidSelection(
                text::cat3(
                    "no worktree with id or branch '",
                    selector,
                    "'\n  hint: `trail worktrees` lists them",
                ),
            ),
        );
    }
    if hits.len() > 1 {
        let ghost f = |m: (Seq<char>, Option<Seq<char>>)| m.0;
        let ghost want = hv.map_values(f);
        let mut ids: Vec<String> = Vec::new();
        let mut k: usize = 0;
        while k < hits.len()
            invariant
                k <= hits.len(),
                hv == hits.deep_view(),
                f == (|m: (Seq<char>, Option<Seq<char>>)| m.0),
                want == hv.map_values(f),
                ids.deep_view() =~= want.take(k as int),
            decreases hits.len() - k,
        {
            let ghost was = ids.deep_view();
            assert(hv[k as int].0 == hits[k as int].0@);
            ids.push(hits[k].0.dup());
            assert(ids.deep_view() =~= was.push(want[k as int]));
            k += 1;
        }
        assert(want.take(k as int) =~= want);
        return Err(
            TrailError::InvalidSelection(
                text::cat5(
                    "'",
                    selector,
                    "' matches several worktrees: ",
                    &text::join_of(&ids, ", "),
                    "\n  hint: pass the worktree id instead of the branch",
                ),
            ),
        );
    }
    assert(hv[0] == (hits[0].0@, hits[0].1.deep_view()));
    if text::same(&hits[0].0, current_id) {
        return Ok(WorktreeChoice::Current);
    }
    match &hits[0].1 {
        Some(path) => Ok(WorktreeChoice::Existing(path.dup())),
        None => {
            if recorded_in(sessions, &hits[0].0).is_some() {
                Ok(WorktreeChoice::Removed(hits[0].0.dup()))
            } else {
                Err(
                    TrailError::WorktreeUnavailable(
                        text::cat3(
                            "worktree ",
                            &hits[0].0,
                            " is missing from disk and has no recorded history",
                        ),
                    ),
                )
            }
        },
    }
}

/// A selector that names two worktrees names none: it is an error.
pub proof fn lemma_ambiguous_selector_is_an_error(
    current_id: Seq<char>,
    existing: Seq<ExistingWorktreeView>,
    sessions: Seq<SessionFileView>,
    given: Seq<char>,
)
    requires
        worktree_matches(existing, sessions, text::trim(given)).len() > 1,
    ensures
        chosen_worktree(current_id, existing, sessions, given) is Err,
{
}

/// Every text of a list stands there once.
pub open spec fn once(ids: Seq<Seq<char>>) -> bool {
    forall|i: int, j: int| 0 <= i < j < ids.len() ==> #[trigger] ids[i] != #[trigger] ids[j]
}

proof fn lemma_without_repeats(ids: Seq<Seq<char>>)
    requires
        in_order::<String, ByText>(ids),
    ensures
        once(without_repeats(ids)),
        forall|x: Seq<char>| #[trigger] without_repeats(ids).contains(x) <==> ids.contains(x),
    decreases ids.len(),
{
    if ids.len() > 0 {
        let rest = ids.drop_last();
        let before = without_repeats(rest);
        let after = without_repeats(ids);
        assert forall|i: int, j: int| 0 <= i < j < rest.len() implies !ByText::lt(
            #[trigger] rest[j],
            #[trigger] rest[i],
        ) by {
            assert(!ByText::lt(ids[j], ids[i]));
        }
        lemma_without_repeats(rest);
        assert forall|x: Seq<char>| #[trigger] after.contains(x) <==> ids.contains(x) by {
            if after.contains(x) {
                let k = choose|k: int| 0 <= k < after.len() && after[k] == x;
                if k < before.len() {
                    assert(before[k] == x);
                    assert(before.contains(x));
                    let m = choose|m: int| 0 <= m < rest.len() && rest[m] == x;
                    assert(ids[m] == x);
                } else {
                    assert(ids[ids.len() - 1] == x);
                }
            }
            if ids.contains(x) {
                let m = choose|m: int| 0 <= m < ids.len() && ids[m] == x;
                if m < rest.len() {
                    assert(rest[m] == x);
                    assert(before.contains(x));
                    let k = choose|k: int| 0 <= k < before.len() && before[k] == x;
                    assert(after[k] == x);
                } else if after.len() == before.len() {
                    assert(rest[rest.len() - 1] == x);
                    assert(before.contains(x));
                } else {
                    assert(after[after.len() - 1] == x);
                }
            }
        }
        if !(ids.len() > 1 && ids[ids.len() - 2] == ids.last()) {
            assert forall|i: int, j: int| 0 <= i < j < after.len() implies #[trigger] after[i]
                != #[trigger] after[j] by {
                if j == before.len() && after[i] == after[j] {
                    assert(before.contains(before[i]));
                    let m = choose|m: int| 0 <= m < rest.len() && rest[m] == before[i];
                    let n = ids.len() - 1;
                    assert(ids[m] == ids[n]);
                    text::lemma_less_total(ids[n - 1], ids[n]);
                    assert(!ByText::lt(ids[n], ids[n - 1]));
                    assert(m < n - 1);
                    assert(!ByText::lt(ids[n - 1], ids[m]));
                }
            }
        }
    }
}

pub(crate) proof fn lemma_removed(ids: Seq<Seq<char>>, existing: Seq<ExistingWorktreeView>)
    ensures
        once(ids) ==> once(removed_of(ids, existing)),
        forall|x: Seq<char>| #[trigger]
            removed_of(ids, existing).contains(x) <==> ids.contains(x) && !is_existing(existing, x),
    decreases ids.len(),
{
    if ids.len() > 0 {
        let rest = ids.drop_last();
        let before = removed_of(rest, existing);
        let after = removed_of(ids, existing);
        lemma_removed(rest, existing);
        assert forall|x: Seq<char>| #[trigger] after.contains(x) <==> ids.contains(x)
            && !is_existing(existing, x) by {
            if after.contains(x) {
                let k = choose|k: int| 0 <= k < after.len() && after[k] == x;
                if k < before.len() {
                    assert(before[k] == x);
                    assert(before.contains(x));
                    let m = choose|m: int| 0 <= m < rest.len() && rest[m] == x;
                    assert(ids[m] == x);
                } else {
                    assert(ids[ids.len() - 1] == x);
                }
            }
            if ids.contains(x) && !is_existing(existing, x) {
                let m = choose|m: int| 0 <= m < ids.len() && ids[m] == x;
                if m < rest.len() {
                    assert(rest[m] == x);
                    assert(before.contains(x));
                    let k = choose|k: int| 0 <= k < before.len() && before[k] == x;
                    assert(after[k] == x);
                } else {
                    assert(after[after.len() - 1] == x);
                }
            }
        }
        if once(ids) {
            assert forall|i: int, j: int| 0 <= i < j < rest.len() implies #[trigger] rest[i]
                != #[trigger] rest[j] by {
                assert(ids[i] != ids[j]);
            }
            if !is_existing(existing, ids.last()) {
                assert forall|i: int, j: int| 0 <= i < j < after.len() implies #[trigger] after[i]
                    != #[trigger] after[j] by {
                    if j == before.len() && after[i] == after[j] {
                        assert(before.contains(before[i]));
                        let m = choose|m: int| 0 <= m < rest.len() && rest[m] == before[i];
                        assert(ids[m] != ids[ids.len() - 1]);
                    }
                }
            }
        }
    }
}

pub(crate) proof fn lemma_recorded_ids(sessions: Seq<SessionFileView>)
    ensures
        once(recorded_ids(sessions)),
        forall|i: int|
            0 <= i < sessions.len() ==> recorded_ids(sessions).contains(
                (#[trigger] sessions[i]).header.worktree_id,
            ),
        forall|id: Seq<char>|
            #[trigger] recorded_ids(sessions).contains(id) ==> sessions.map_values(
                |s: SessionFileView| s.header.worktree_id,
            ).contains(id),
{
    let ids = sessions.map_values(|s: SessionFileView| s.header.worktree_id);
    lemma_sorted::<String, ByText>(ids);
    lemma_without_repeats(sorted::<String, ByText>(ids));
    assert forall|i: int| 0 <= i < sessions.len() implies recorded_ids(sessions).contains(
        (#[trigger] sessions[i]).header.worktree_id,
    ) by {
        assert(ids[i] == sessions[i].header.worktree_id);
        lemma_sorted_contains::<String, ByText>(ids, ids[i]);
    }
    assert forall|id: Seq<char>|
        #[trigger] recorded_ids(sessions).contains(id) implies ids.contains(id) by {
        lemma_sorted_contains::<String, ByText>(ids, id);
    }
}

pub(crate) proof fn lemma_remembered(sessions: Seq<SessionFileView>, i: int)
    requires
        0 <= i < sessions.len(),
    ensures
        remembered(sessions, sessions[i].header.worktree_id) is Some,
    decreases sessions.len(),
{
    if i < sessions.len() - 1 {
        assert(sessions.drop_last()[i] == sessions[i]);
        lemma_remembered(sessions.drop_last(), i);
    }
}

proof fn lemma_no_existing_match(existing: Seq<ExistingWorktreeView>, id: Seq<char>)
    requires
        !is_existing(existing, id),
    ensures
        existing_matches(existing, id, true).len() == 0,
    decreases existing.len(),
{
    if existing.len() > 0 {
        let rest = existing.drop_last();
        assert(existing[existing.len() - 1].id != id);
        assert forall|i: int| 0 <= i < rest.len() implies (#[trigger] rest[i]).id != id by {
            assert(rest[i] == existing[i]);
        }
        lemma_no_existing_match(rest, id);
    }
}

/// The worktrees git has are told apart by their ids.
pub open spec fn ids_differ(existing: Seq<ExistingWorktreeView>) -> bool {
    forall|i: int, j: int|
        0 <= i < j < existing.len() ==> (#[trigger] existing[i]).id != (#[trigger] existing[j]).id
}

proof fn lemma_one_existing_match(existing: Seq<ExistingWorktreeView>, i: int)
    requires
        ids_differ(existing),
        0 <= i < existing.len(),
    ensures
        existing_matches(existing, existing[i].id, true) == seq![
            (
                existing[i].id,
                if existing[i].on_disk {
                    Some(existing[i].path)
                } else {
                    None
                },
            ),
        ],
    decreases existing.len(),
{
    let rest = existing.drop_last();
    let id = existing[i].id;
    if i == rest.len() {
        assert forall|j: int| 0 <= j < rest.len() implies (#[trigger] rest[j]).id != id by {
            assert(rest[j] == existing[j]);
        }
        lemma_no_existing_match(rest, id);
        assert(existing_matches(rest, id, true) =~= Seq::empty());
    } else {
        assert(rest[i] == existing[i]);
        assert forall|j: int, k: int| 0 <= j < k < rest.len() implies (#[trigger] rest[j]).id != (
        #[trigger] rest[k]).id by {
            assert(existing[j].id != existing[k].id);
        }
        lemma_one_existing_match(rest, i);
        assert(existing[existing.len() - 1].id != id);
    }
    assert(existing_matches(existing, id, true) =~= seq![
        (
            id,
            if existing[i].on_disk {
                Some(existing[i].path)
            } else {
                None
            },
        ),
    ]);
}

proof fn lemma_removed_matches(ids: Seq<Seq<char>>, sessions: Seq<SessionFileView>, id: Seq<char>)
    requires
        once(ids),
    ensures
        removed_matches(ids, sessions, id, true) == (if ids.contains(id) {
            seq![(id, None::<Seq<char>>)]
        } else {
            Seq::empty()
        }),
    decreases ids.len(),
{
    if ids.len() > 0 {
        let rest = ids.drop_last();
        assert forall|i: int, j: int| 0 <= i < j < rest.len() implies #[trigger] rest[i]
            != #[trigger] rest[j] by {
            assert(ids[i] != ids[j]);
        }
        lemma_removed_matches(rest, sessions, id);
        if ids.last() == id {
            if rest.contains(id) {
                let m = choose|m: int| 0 <= m < rest.len() && rest[m] == id;
                assert(ids[m] != ids[ids.len() - 1]);
            }
            assert(ids[ids.len() - 1] == id);
        } else if ids.contains(id) {
            let m = choose|m: int| 0 <= m < ids.len() && ids[m] == id;
            assert(rest[m] == id);
        } else if rest.contains(id) {
            let m = choose|m: int| 0 <= m < rest.len() && rest[m] == id;
            assert(ids[m] == id);
        }
        assert(removed_matches(ids, sessions, id, true) =~= (if ids.contains(id) {
            seq![(id, None::<Seq<char>>)]
        } else {
            Seq::empty()
        }));
    }
}

/// The id of a worktree git has always selects it, whatever branches are
/// called.
pub proof fn lemma_id_selects_existing(
    current_id: Seq<char>,
    existing: Seq<ExistingWorktreeView>,
    sessions: Seq<SessionFileView>,
    i: int,
)
    requires
        ids_differ(existing),
        0 <= i < existing.len(),
        text::trim(existing[i].id) == existing[i].id,
    ensures
        existing[i].id == current_id ==> chosen_worktree(
            current_id,
            existing,
            sessions,
            existing[i].id,
        ) == Ok::<_, TrailErrorView>(WorktreeChoiceView::Current),
        existing[i].id != current_id && existing[i].on_disk ==> chosen_worktree(
            current_id,
            existing,
            sessions,
            existing[i].id,
        ) == Ok::<_, TrailErrorView>(WorktreeChoiceView::Existing(existing[i].path)),
{
    let id = existing[i].id;
    let removed = removed_of(recorded_ids(sessions), existing);
    lemma_one_existing_match(existing, i);
    lemma_recorded_ids(sessions);
    lemma_removed(recorded_ids(sessions), existing);
    lemma_removed_matches(removed, sessions, id);
    assert(is_existing(existing, id));
    assert(!removed.contains(id));
    assert(worktree_matches(existing, sessions, id) =~= existing_matches(existing, id, true));
}

/// The id of a worktree that was removed always selects it, as long as one of
/// its sessions is there.
pub proof fn lemma_id_selects_removed(
    current_id: Seq<char>,
    existing: Seq<ExistingWorktreeView>,
    sessions: Seq<SessionFileView>,
    i: int,
)
    requires
        0 <= i < sessions.len(),
        !is_existing(existing, sessions[i].header.worktree_id),
        sessions[i].header.worktree_id != current_id,
        text::trim(sessions[i].header.worktree_id) == sessions[i].header.worktree_id,
    ensures
        chosen_worktree(current_id, existing, sessions, sessions[i].header.worktree_id) == Ok::<
            _,
            TrailErrorView,
        >(WorktreeChoiceView::Removed(sessions[i].header.worktree_id)),
{
    let id = sessions[i].header.worktree_id;
    let removed = removed_of(recorded_ids(sessions), existing);
    lemma_no_existing_match(existing, id);
    lemma_recorded_ids(sessions);
    lemma_removed(recorded_ids(sessions), existing);
    lemma_removed_matches(removed, sessions, id);
    lemma_remembered(sessions, i);
    assert(removed.contains(id));
    assert(worktree_matches(existing, sessions, id) =~= seq![(id, None::<Seq<char>>)]);
}

proof fn lemma_removed_entries(
    ids: Seq<Seq<char>>,
    sessions: Seq<SessionFileView>,
    tips: Seq<Option<RemovedTipView>>,
    id: Seq<char>,
) -> (k: int)
    requires
        ids.contains(id),
        remembered(sessions, id) is Some,
    ensures
        0 <= k < removed_entries(ids, sessions, tips).len(),
        removed_entries(ids, sessions, tips)[k].id == id,
        !removed_entries(ids, sessions, tips)[k].exists,
    decreases ids.len(),
{
    if ids.last() == id {
        removed_entries(ids, sessions, tips).len() - 1
    } else {
        let m = choose|m: int| 0 <= m < ids.len() && ids[m] == id;
        assert(ids.drop_last()[m] == id);
        lemma_removed_entries(ids.drop_last(), sessions, tips, id)
    }
}

/// Every worktree that was ever recorded is listed: as one git has, or as one
/// that was removed.
pub proof fn lemma_every_recorded_worktree_listed(
    current_id: Seq<char>,
    existing: Seq<ExistingWorktreeView>,
    sessions: Seq<SessionFileView>,
    tips: Seq<Option<RemovedTipView>>,
    i: int,
) -> (k: int)
    requires
        0 <= i < sessions.len(),
    ensures
        0 <= k < worktree_list(current_id, existing, sessions, tips).len(),
        worktree_list(current_id, existing, sessions, tips)[k].id
            == sessions[i].header.worktree_id,
        k < existing.len() <==> is_existing(existing, sessions[i].header.worktree_id),
{
    let id = sessions[i].header.worktree_id;
    let removed = removed_of(recorded_ids(sessions), existing);
    let all = worktree_list(current_id, existing, sessions, tips);
    if is_existing(existing, id) {
        let k = choose|k: int| 0 <= k < existing.len() && (#[trigger] existing[k]).id == id;
        assert(all[k] == existing_entry(
            existing[k],
            current_id,
            remembered(sessions, existing[k].id),
        ));
        k
    } else {
        lemma_recorded_ids(sessions);
        lemma_removed(recorded_ids(sessions), existing);
        lemma_remembered(sessions, i);
        assert(removed.contains(id));
        let k = lemma_removed_entries(removed, sessions, tips, id);
        assert(all[existing.len() + k] == removed_entries(removed, sessions, tips)[k]);
        existing.len() + k
    }
}

} // verus!
