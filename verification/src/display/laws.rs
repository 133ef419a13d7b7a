//! What every view shows.

use super::reports::{
    changed_all_text, changed_text, changes_text, commit_lines, diff_file_text, diff_files_text,
    diff_text, group_text, groups_text, inspect_text, related_all_text, related_text,
    session_list_text, session_text, sessions_text, worktree_list_text, worktree_text,
    worktrees_text,
};
use super::review::{
    checkpoint_rows, checkpoint_text, commit_rows, commit_text, path_lines, path_text,
    review_checkpoint_text, review_file_text, review_text, row_line, section_list_text,
    section_text, step_line, step_lines, work_rows, working_tree_text,
};
use super::terminal::{
    body_text, event_text, history_text, is_hidden, timeline_text, trail_text, Style,
};
use crate::choice::{
    lemma_flattened, lemma_occurs_left, lemma_occurs_right, lemma_occurs_self, lemma_selects_last,
    lemma_selects_none, lists, lists_parts, occurs, selects,
};
use crate::git::diff::FileStatView;
use crate::git::history::CommitInfoView;
use crate::review::{
    CommitFileView, CommitReviewView, ReviewCheckpointView, ReviewFileView, ReviewSectionView,
    WorkingTreeFileView, WorkingTreeReviewView, WorktreeReviewView,
};
use crate::review::select::FileDiffReportView;
use crate::trail::{
    ChangedFileView, ChangesReportView, DiffGroupView, DiffReportView, InspectCommitView,
    InspectReportView, SessionSummaryView, SessionsReportView, TrailView,
};
use crate::trail::event::{TrailEventTypeView, TrailEventView};
use crate::trail::worktrees::{WorktreeEntryView, WorktreesReportView};
use vstd::prelude::*;

verus! {

// ---------------------------------------------------------------------------
// Reports
/// A group is shown with its directory, and below it every file, in order, by
/// its path.
pub open spec fn shows_group(g: DiffGroupView, text: Seq<char>) -> bool {
    &&& occurs(text, g.directory)
    &&& lists(text, g.files.len(), |i: int, part: Seq<char>| occurs(part, g.files[i].path))
}

proof fn lemma_group(g: DiffGroupView, style: Style)
    ensures
        shows_group(g, group_text(g, style)),
{
    broadcast use {lemma_occurs_left, lemma_occurs_right, lemma_occurs_self};

    let part = |f: FileStatView| diff_file_text(f);
    lemma_flattened(g.files, part, |s: Seq<FileStatView>| diff_files_text(s));
    let parts = g.files.map_values(part);
    let fits = |i: int, part: Seq<char>| occurs(part, g.files[i].path);
    assert forall|i: int| 0 <= i < g.files.len() implies fits(i, #[trigger] parts[i]) by {
        assert(occurs(diff_file_text(g.files[i]), g.files[i].path));
    }
    assert(occurs(group_text(g, style), parts.flatten()));
    assert(lists_parts(group_text(g, style), g.files.len(), fits, parts));
    assert(occurs(group_text(g, style), g.directory));
}

/// The differences from the base show every directory, and in each every file.
pub proof fn lemma_diff_shows_every_file(d: DiffReportView, style: Style)
    ensures
        lists(
            diff_text(d, style),
            d.groups.len(),
            |i: int, part: Seq<char>| shows_group(d.groups[i], part),
        ),
{
    broadcast use {lemma_occurs_left, lemma_occurs_right, lemma_occurs_self};

    let part = |g: DiffGroupView| group_text(g, style);
    lemma_flattened(d.groups, part, |s: Seq<DiffGroupView>| groups_text(s, style));
    let parts = d.groups.map_values(part);
    let fits = |i: int, part: Seq<char>| shows_group(d.groups[i], part);
    assert forall|i: int| 0 <= i < d.groups.len() implies fits(i, #[trigger] parts[i]) by {
        lemma_group(d.groups[i], style);
    }
    if d.groups.len() == 0 {
        let none = Seq::<char>::empty();
        assert(parts.flatten() =~= none);
        assert(diff_text(d, style) =~= none + none + diff_text(d, style));
    }
    assert(occurs(diff_text(d, style), parts.flatten()));
    assert(lists_parts(diff_text(d, style), d.groups.len(), fits, parts));
}

/// An inspection shows the path, and every commit, in order, by its id and its
/// summary.
pub proof fn lemma_inspections_show_every_commit(
    r: InspectReportView,
    style: Style,
    zone: Seq<(i64, i32)>,
)
    ensures
        occurs(inspect_text(r, style, zone), r.path),
        lists(
            inspect_text(r, style, zone),
            r.commits.len(),
            |i: int, part: Seq<char>|
                occurs(part, r.commits[i].commit.short_id) && occurs(
                    part,
                    r.commits[i].commit.summary,
                ),
        ),
{
    broadcast use {lemma_occurs_left, lemma_occurs_right, lemma_occurs_self};

    let part = |c: InspectCommitView| related_text(c);
    lemma_flattened(r.commits, part, |s: Seq<InspectCommitView>| related_all_text(s));
    let parts = r.commits.map_values(part);
    let fits = |i: int, part: Seq<char>|
        occurs(part, r.commits[i].commit.short_id) && occurs(part, r.commits[i].commit.summary);
    assert forall|i: int| 0 <= i < r.commits.len() implies fits(i, #[trigger] parts[i]) by {
        assert(occurs(related_text(r.commits[i]), r.commits[i].commit.short_id));
        assert(occurs(related_text(r.commits[i]), r.commits[i].commit.summary));
    }
    assert(occurs(inspect_text(r, style, zone), parts.flatten()));
    assert(lists_parts(inspect_text(r, style, zone), r.commits.len(), fits, parts));
}

/// The list of sessions shows every session, in order, by its id.
pub proof fn lemma_every_session_is_shown(
    r: SessionsReportView,
    style: Style,
    zone: Seq<(i64, i32)>,
)
    ensures
        lists(
            sessions_text(r, style, zone),
            r.sessions.len(),
            |i: int, part: Seq<char>| occurs(part, r.sessions[i].session_id),
        ),
{
    broadcast use {lemma_occurs_left, lemma_occurs_right, lemma_occurs_self};

    let part = |s: SessionSummaryView| session_text(s, style, zone);
    lemma_flattened(
        r.sessions,
        part,
        |s: Seq<SessionSummaryView>| session_list_text(s, style, zone),
    );
    let parts = r.sessions.map_values(part);
    let fits = |i: int, part: Seq<char>| occurs(part, r.sessions[i].session_id);
    assert forall|i: int| 0 <= i < r.sessions.len() implies fits(i, #[trigger] parts[i]) by {
        assert(occurs(session_text(r.sessions[i], style, zone), r.sessions[i].session_id));
    }
    if r.sessions.len() == 0 {
        let none = Seq::<char>::empty();
        assert(parts.flatten() =~= none);
        assert(sessions_text(r, style, zone) =~= none + none + sessions_text(r, style, zone));
    }
    assert(occurs(sessions_text(r, style, zone), parts.flatten()));
    assert(lists_parts(sessions_text(r, style, zone), r.sessions.len(), fits, parts));
}

/// The list of worktrees shows every worktree, in order, by its id and its path.
pub proof fn lemma_every_worktree_is_shown(r: WorktreesReportView, style: Style)
    ensures
        lists(
            worktrees_text(r, style),
            r.worktrees.len(),
            |i: int, part: Seq<char>|
                occurs(part, r.worktrees[i].id) && occurs(part, r.worktrees[i].path),
        ),
{
    broadcast use {lemma_occurs_left, lemma_occurs_right, lemma_occurs_self};

    let part = |w: WorktreeEntryView| worktree_text(w, style);
    lemma_flattened(r.worktrees, part, |s: Seq<WorktreeEntryView>| worktree_list_text(s, style));
    let parts = r.worktrees.map_values(part);
    let fits = |i: int, part: Seq<char>|
        occurs(part, r.worktrees[i].id) && occurs(part, r.worktrees[i].path);
    assert forall|i: int| 0 <= i < r.worktrees.len() implies fits(i, #[trigger] parts[i]) by {
        assert(occurs(worktree_text(r.worktrees[i], style), r.worktrees[i].id));
        assert(occurs(worktree_text(r.worktrees[i], style), r.worktrees[i].path));
    }
    assert(occurs(worktrees_text(r, style), parts.flatten()));
    assert(lists_parts(worktrees_text(r, style), r.worktrees.len(), fits, parts));
}

/// The changes since a baseline show every commit and every file, in order.
#[verifier::rlimit(40)]
pub proof fn lemma_every_change_is_shown(r: ChangesReportView, style: Style)
    ensures
        lists(
            changes_text(r, style),
            r.commits.len(),
            |i: int, part: Seq<char>|
                occurs(part, r.commits[i].short_id) && occurs(part, r.commits[i].summary),
        ),
        lists(
            changes_text(r, style),
            r.files.len(),
            |i: int, part: Seq<char>| occurs(part, r.files[i].stat.path),
        ),
{
    broadcast use {lemma_occurs_left, lemma_occurs_right, lemma_occurs_self};

    let whole = changes_text(r, style);
    let line = |c: CommitInfoView| "  "@ + c.short_id + " "@ + c.summary + "\n"@;
    assert forall|s: Seq<CommitInfoView>| s.len() > 0 implies #[trigger] commit_lines(s)
        == commit_lines(s.drop_last()) + line(s.last()) by {
        assert(commit_lines(s) =~= commit_lines(s.drop_last()) + line(s.last()));
    }
    lemma_flattened(r.commits, line, |s: Seq<CommitInfoView>| commit_lines(s));
    let a = r.commits.map_values(line);
    let fits_a = |i: int, part: Seq<char>|
        occurs(part, r.commits[i].short_id) && occurs(part, r.commits[i].summary);
    assert forall|i: int| 0 <= i < r.commits.len() implies fits_a(i, #[trigger] a[i]) by {
        assert(occurs(line(r.commits[i]), r.commits[i].short_id));
        assert(occurs(line(r.commits[i]), r.commits[i].summary));
    }
    assert(occurs(whole, a.flatten()));
    assert(lists_parts(whole, r.commits.len(), fits_a, a));
    let part = |f: ChangedFileView| changed_text(f, style);
    lemma_flattened(r.files, part, |s: Seq<ChangedFileView>| changed_all_text(s, style));
    let b = r.files.map_values(part);
    let fits_b = |i: int, part: Seq<char>| occurs(part, r.files[i].stat.path);
    assert forall|i: int| 0 <= i < r.files.len() implies fits_b(i, #[trigger] b[i]) by {
        assert(occurs(changed_text(r.files[i], style), r.files[i].stat.path));
    }
    assert(occurs(whole, b.flatten()));
    assert(lists_parts(whole, r.files.len(), fits_b, b));
}

// ---------------------------------------------------------------------------
// Reviews
/// A checkpoint is shown by its label and its title.
pub open spec fn shows_step(c: ReviewCheckpointView, text: Seq<char>) -> bool {
    &&& occurs(text, c.label)
    &&& c.title is Some ==> occurs(text, c.title->Some_0)
}

proof fn lemma_step(c: ReviewCheckpointView, style: Style)
    ensures
        shows_step(c, checkpoint_text(c, style)),
        shows_step(c, step_line(c, style)),
{
    broadcast use {lemma_occurs_left, lemma_occurs_right, lemma_occurs_self};

    assert(occurs(checkpoint_text(c, style), c.label));
    if c.title is Some {
        assert(occurs(c.shown_title(), c.title->Some_0));
        assert(occurs(checkpoint_text(c, style), c.title->Some_0));
    }
    assert(occurs(step_line(c, style), c.label));
    if c.title is Some {
        assert(occurs(step_line(c, style), c.title->Some_0));
    }
}

/// The checkpoints of a section.
pub open spec fn steps_of(s: ReviewSectionView) -> Seq<ReviewCheckpointView> {
    match s {
        ReviewSectionView::Commit(c) => c.checkpoints,
        ReviewSectionView::WorkingTree(w) => w.checkpoints,
    }
}

/// A section is shown with its commit, if it has one, and every checkpoint, in
/// order.
pub open spec fn shows_section(s: ReviewSectionView, text: Seq<char>) -> bool {
    &&& s is Commit ==> occurs(text, s->Commit_0.short_id) && occurs(text, s->Commit_0.summary)
    &&& lists(
        text,
        steps_of(s).len(),
        |i: int, part: Seq<char>| shows_step(steps_of(s)[i], part),
    )
}

proof fn lemma_section(s: ReviewSectionView, style: Style, zone: Seq<(i64, i32)>)
    ensures
        shows_section(s, section_text(s, style, zone)),
{
    broadcast use {lemma_occurs_left, lemma_occurs_right, lemma_occurs_self};

    let whole = section_text(s, style, zone);
    let steps = steps_of(s);
    assert(steps == s.steps());
    let part = |c: ReviewCheckpointView| step_line(c, style);
    lemma_flattened(steps, part, |x: Seq<ReviewCheckpointView>| step_lines(x, style));
    let parts = steps.map_values(part);
    let fits = |i: int, part: Seq<char>| shows_step(steps_of(s)[i], part);
    assert forall|i: int| 0 <= i < steps.len() implies fits(i, #[trigger] parts[i]) by {
        lemma_step(steps[i], style);
    }
    assert(occurs(whole, parts.flatten()));
    assert(lists_parts(whole, steps.len(), fits, parts));
    match s {
        ReviewSectionView::Commit(c) => {
            assert(occurs(s.title(), c.short_id));
            assert(occurs(s.title(), c.summary));
            assert(occurs(whole, c.short_id));
            assert(occurs(whole, c.summary));
        },
        ReviewSectionView::WorkingTree(_) => {},
    }
}

/// A review shows every section, in order, and in each every checkpoint.
pub proof fn lemma_reviews_show_every_section(
    r: WorktreeReviewView,
    style: Style,
    zone: Seq<(i64, i32)>,
)
    ensures
        lists(
            review_text(r, style, zone),
            r.sections.len(),
            |i: int, part: Seq<char>| shows_section(r.sections[i], part),
        ),
{
    broadcast use {lemma_occurs_left, lemma_occurs_right, lemma_occurs_self};

    let whole = review_text(r, style, zone);
    let part = |s: ReviewSectionView| section_text(s, style, zone);
    lemma_flattened(
        r.sections,
        part,
        |x: Seq<ReviewSectionView>| section_list_text(x, style, zone),
    );
    let parts = r.sections.map_values(part);
    let fits = |i: int, part: Seq<char>| shows_section(r.sections[i], part);
    assert forall|i: int| 0 <= i < r.sections.len() implies fits(i, #[trigger] parts[i]) by {
        lemma_section(r.sections[i], style, zone);
    }
    assert(occurs(whole, parts.flatten()));
    assert(lists_parts(whole, r.sections.len(), fits, parts));
}

proof fn lemma_paths(
    whole: Seq<char>,
    cps: Seq<ReviewCheckpointView>,
    style: Style,
    zone: Seq<(i64, i32)>,
)
    requires
        occurs(whole, path_lines(cps, style, zone)),
    ensures
        lists(whole, cps.len(), |i: int, part: Seq<char>| shows_step(cps[i], part)),
{
    broadcast use {lemma_occurs_left, lemma_occurs_right, lemma_occurs_self};

    let part = |c: ReviewCheckpointView| path_text(c, style, zone);
    lemma_flattened(cps, part, |x: Seq<ReviewCheckpointView>| path_lines(x, style, zone));
    let parts = cps.map_values(part);
    let fits = |i: int, part: Seq<char>| shows_step(cps[i], part);
    assert forall|i: int| 0 <= i < cps.len() implies fits(i, #[trigger] parts[i]) by {
        lemma_step(cps[i], style);
        assert(occurs(path_text(cps[i], style, zone), cps[i].label));
        if cps[i].title is Some {
            assert(occurs(path_text(cps[i], style, zone), cps[i].title->Some_0));
        }
    }
    assert(lists_parts(whole, cps.len(), fits, parts));
}

/// A commit under review shows its id and summary, every checkpoint that led to
/// it, and every file, in order.
pub proof fn lemma_commits_show_everything(
    c: CommitReviewView,
    style: Style,
    zone: Seq<(i64, i32)>,
)
    ensures
        occurs(commit_text(c, style, zone), c.short_id),
        occurs(commit_text(c, style, zone), c.summary),
        lists(
            commit_text(c, style, zone),
            c.checkpoints.len(),
            |i: int, part: Seq<char>| shows_step(c.checkpoints[i], part),
        ),
        lists(
            commit_text(c, style, zone),
            c.files.len(),
            |i: int, part: Seq<char>| occurs(part, c.files[i].path),
        ),
{
    broadcast use {lemma_occurs_left, lemma_occurs_right, lemma_occurs_self};

    let whole = commit_text(c, style, zone);
    assert(occurs(whole, path_lines(c.checkpoints, style, zone)));
    lemma_paths(whole, c.checkpoints, style, zone);
    let part = |f: CommitFileView| row_line(f.as_row(), style);
    lemma_flattened(c.files, part, |x: Seq<CommitFileView>| commit_rows(x, style));
    let parts = c.files.map_values(part);
    let fits = |i: int, part: Seq<char>| occurs(part, c.files[i].path);
    assert forall|i: int| 0 <= i < c.files.len() implies fits(i, #[trigger] parts[i]) by {
        assert(occurs(c.files[i].as_row().name, c.files[i].path));
        assert(occurs(row_line(c.files[i].as_row(), style), c.files[i].path));
    }
    assert(occurs(whole, parts.flatten()));
    assert(lists_parts(whole, c.files.len(), fits, parts));
}

/// The working tree under review shows every checkpoint that led to no commit
/// yet, and every uncommitted change, in order.
pub proof fn lemma_working_trees_show_everything(
    w: WorkingTreeReviewView,
    style: Style,
    zone: Seq<(i64, i32)>,
)
    ensures
        lists(
            working_tree_text(w, style, zone),
            w.checkpoints.len(),
            |i: int, part: Seq<char>| shows_step(w.checkpoints[i], part),
        ),
        lists(
            working_tree_text(w, style, zone),
            w.files.len(),
            |i: int, part: Seq<char>| occurs(part, w.files[i].path),
        ),
{
    broadcast use {lemma_occurs_left, lemma_occurs_right, lemma_occurs_self};

    let whole = working_tree_text(w, style, zone);
    assert(occurs(whole, path_lines(w.checkpoints, style, zone)));
    lemma_paths(whole, w.checkpoints, style, zone);
    let part = |f: WorkingTreeFileView| row_line(f.as_row(), style);
    lemma_flattened(w.files, part, |x: Seq<WorkingTreeFileView>| work_rows(x, style));
    let parts = w.files.map_values(part);
    let fits = |i: int, part: Seq<char>| occurs(part, w.files[i].path);
    assert forall|i: int| 0 <= i < w.files.len() implies fits(i, #[trigger] parts[i]) by {
        assert(occurs(w.files[i].as_row().name, w.files[i].path));
        assert(occurs(row_line(w.files[i].as_row(), style), w.files[i].path));
    }
    assert(occurs(whole, parts.flatten()));
    assert(lists_parts(whole, w.files.len(), fits, parts));
}

/// A checkpoint under review shows its label, its title and every file, in
/// order.
pub proof fn lemma_checkpoints_show_everything(
    c: ReviewCheckpointView,
    style: Style,
    zone: Seq<(i64, i32)>,
)
    ensures
        shows_step(c, review_checkpoint_text(c, style, zone)),
        lists(
            review_checkpoint_text(c, style, zone),
            c.files.len(),
            |i: int, part: Seq<char>| occurs(part, c.files[i].path),
        ),
{
    broadcast use {lemma_occurs_left, lemma_occurs_right, lemma_occurs_self};

    let whole = review_checkpoint_text(c, style, zone);
    lemma_step(c, style);
    assert(occurs(whole, c.label));
    if c.title is Some {
        assert(occurs(whole, c.title->Some_0));
    }
    let part = |f: ReviewFileView| row_line(f.as_row(), style);
    lemma_flattened(c.files, part, |x: Seq<ReviewFileView>| checkpoint_rows(x, style));
    let parts = c.files.map_values(part);
    let fits = |i: int, part: Seq<char>| occurs(part, c.files[i].path);
    assert forall|i: int| 0 <= i < c.files.len() implies fits(i, #[trigger] parts[i]) by {
        assert(occurs(c.files[i].as_row().name, c.files[i].path));
        assert(occurs(row_line(c.files[i].as_row(), style), c.files[i].path));
    }
    assert(occurs(whole, parts.flatten()));
    assert(lists_parts(whole, c.files.len(), fits, parts));
}

/// The diff of a file is shown whole, below what it is the diff of; where it is
/// not available that is said.
pub proof fn lemma_file_diffs_are_shown(r: FileDiffReportView, style: Style)
    ensures
        occurs(review_file_text(r, style), r.heading),
        r.available ==> occurs(review_file_text(r, style), r.diff),
{
    broadcast use {lemma_occurs_left, lemma_occurs_right, lemma_occurs_self};

}

// ---------------------------------------------------------------------------
// Trails
/// An event is shown by what it is: a commit by its id and summary, a checkpoint
/// by its id and title, a movement of HEAD by its action, and a change of a file
/// by its path.
pub open spec fn shows_event(e: TrailEventView, text: Seq<char>) -> bool {
    match e.event_type {
        TrailEventTypeView::Commit { id, short_id, summary, author, is_merge } => occurs(
            text,
            short_id,
        ) && occurs(text, summary),
        TrailEventTypeView::Checkpoint {
            id,
            session_id,
            title,
            annotation,
            bulk,
            hidden,
            boundary,
            commit,
            attachment,
            changes,
        } => occurs(text, id) && (title is Some ==> occurs(text, title->Some_0)),
        TrailEventTypeView::RefUpdate { action, message } => occurs(text, action),
        _ => occurs(text, e.files[0]),
    }
}

proof fn lemma_event(
    e: TrailEventView,
    detailed: bool,
    style: Style,
    zone: Seq<(i64, i32)>,
    heading: Seq<char>,
    rest: Seq<char>,
)
    ensures
        shows_event(e, heading + event_text(e, detailed, style, zone) + "\n"@ + rest),
{
    broadcast use {lemma_occurs_left, lemma_occurs_right, lemma_occurs_self};

    let body = body_text(e, style);
    let text = event_text(e, detailed, style, zone);
    let whole = heading + text + "\n"@ + rest;
    match e.event_type {
        TrailEventTypeView::Commit { id, short_id, summary, author, is_merge } => {
            assert(occurs(body, short_id) && occurs(body, summary));
            assert(occurs(text, short_id) && occurs(text, summary));
            assert(occurs(whole, short_id) && occurs(whole, summary));
        },
        TrailEventTypeView::Checkpoint {
            id,
            session_id,
            title,
            annotation,
            bulk,
            hidden,
            boundary,
            commit,
            attachment,
            changes,
        } => {
            assert(occurs(body, id));
            assert(occurs(text, id));
            assert(occurs(whole, id));
            if title is Some {
                assert(occurs(body, title->Some_0));
                assert(occurs(text, title->Some_0));
                assert(occurs(whole, title->Some_0));
            }
        },
        TrailEventTypeView::RefUpdate { action, message } => {
            assert(occurs(body, action));
            assert(occurs(text, action));
            assert(occurs(whole, action));
        },
        _ => {
            assert(occurs(body, e.files[0]));
            assert(occurs(text, e.files[0]));
            assert(occurs(whole, e.files[0]));
        },
    }
}

/// The events that are not hidden checkpoints.
pub open spec fn are_visible(events: Seq<TrailEventView>, shown: Seq<TrailEventView>) -> bool {
    selects(
        events,
        |e: TrailEventView| !(e.event_type is Checkpoint && e.event_type->Checkpoint_hidden),
        shown,
    )
}

proof fn lemma_timeline(
    events: Seq<TrailEventView>,
    detailed: bool,
    style: Style,
    zone: Seq<(i64, i32)>,
) -> (r: (Seq<TrailEventView>, Seq<Seq<char>>))
    ensures
        are_visible(events, r.0),
        r.1.len() == r.0.len(),
        timeline_text(events, detailed, style, zone).0 == r.1.flatten(),
        forall|i: int| 0 <= i < r.0.len() ==> shows_event(r.0[i], #[trigger] r.1[i]),
    decreases events.len(),
{
    let pred = |e: TrailEventView|
        !(e.event_type is Checkpoint && e.event_type->Checkpoint_hidden);
    if events.len() == 0 {
        assert(events =~= Seq::empty());
        lemma_selects_none(pred);
        let parts = Seq::<Seq<char>>::empty();
        assert(parts.flatten() =~= Seq::empty());
        (Seq::empty(), parts)
    } else {
        let (shown, parts) = lemma_timeline(events.drop_last(), detailed, style, zone);
        let e = events.last();
        lemma_selects_last(events, pred, shown);
        if is_hidden(e) {
            (shown, parts)
        } else {
            let (before, days) = timeline_text(events.drop_last(), detailed, style, zone);
            let heading = super::terminal::day_heading(days, e.timestamp, style, zone);
            let rest = if detailed {
                super::terminal::details_text(e, style)
            } else {
                ""@
            };
            let part = heading + event_text(e, detailed, style, zone) + "\n"@ + rest;
            lemma_event(e, detailed, style, zone, heading, rest);
            parts.lemma_flatten_push(part);
            assert(timeline_text(events, detailed, style, zone).0 =~= before + part);
            let more = shown.push(e);
            let all = parts.push(part);
            assert forall|i: int| 0 <= i < more.len() implies shows_event(
                more[i],
                #[trigger] all[i],
            ) by {
                if i < shown.len() {
                    assert(more[i] == shown[i] && all[i] == parts[i]);
                }
            }
            (more, all)
        }
    }
}

/// A trail, in short and in detail, shows every event but hidden checkpoints, in
/// its order.
#[verifier::rlimit(40)]
pub proof fn lemma_trails_show_every_event(
    t: TrailView,
    style: Style,
    zone: Seq<(i64, i32)>,
) -> (shown: Seq<TrailEventView>)
    ensures
        are_visible(t.events, shown),
        lists(
            trail_text(t, style, zone),
            shown.len(),
            |i: int, part: Seq<char>| shows_event(shown[i], part),
        ),
        lists(
            history_text(t, style, zone),
            shown.len(),
            |i: int, part: Seq<char>| shows_event(shown[i], part),
        ),
{
    broadcast use {lemma_occurs_left, lemma_occurs_right, lemma_occurs_self};

    let (shown, a) = lemma_timeline(t.events, false, style, zone);
    let (other, b) = lemma_timeline(t.events, true, style, zone);
    crate::review::select_laws::lemma_one_selection(
        t.events,
        |e: TrailEventView| !(e.event_type is Checkpoint && e.event_type->Checkpoint_hidden),
        shown,
        other,
    );
    let fits = |i: int, part: Seq<char>| shows_event(shown[i], part);
    let none = Seq::<char>::empty();
    if t.events.len() == 0 {
        assert(a.flatten() =~= none);
        assert(b.flatten() =~= none);
        let x = trail_text(t, style, zone);
        let y = history_text(t, style, zone);
        assert(x =~= none + none + x);
        assert(y =~= none + none + y);
    }
    assert(occurs(trail_text(t, style, zone), a.flatten()));
    assert(occurs(history_text(t, style, zone), b.flatten()));
    assert(lists_parts(trail_text(t, style, zone), shown.len(), fits, a));
    assert(lists_parts(history_text(t, style, zone), shown.len(), fits, b));
    shown
}

} // verus!
