//! What the sections of a review hold.

use super::{
    CommitFileView, CommitReviewView, ReviewCheckpointView, ReviewFileView, ReviewSectionView,
    WorkingTreeFileView, WorkingTreeReviewView, WorktreeReviewView,
};
use super::assemble::{
    checkpoints_added, checkpoints_deleted, commit_added, commit_deleted, commit_file_of,
    commit_files, commit_ids, commit_section, commit_sections, first_of, info_of, last_of,
    lines_added, lines_deleted, numbered, numbered_all, pending, review_file_of, review_of,
    sections_added, sections_deleted, towards, unattached, uncommitted, work_added, work_deleted,
    work_file, work_files, work_section, WorkStateView,
};
use super::diff::{added_lines, hunks_between, removed_lines};
use super::diff_laws::held;
use crate::choice::{
    is_first, is_last, lemma_first_here, lemma_first_later, lemma_last_earlier, lemma_last_here,
    lemma_selects_last, lemma_selects_none, selects, sum_of,
};
use crate::git::diff::{FileStatView, LineStats, StatusEntryView};
use crate::git::history::{CommitFileView as GitCommitFileView, CommitInfoView};
use crate::git::repository::RepoView;
use crate::path;
use crate::recorder::checkpoint::FileChangeView;
use crate::text;
use crate::time::{earlier, Timestamp};
use crate::trail::{tally, TrailView};
use crate::trail::builder::stat_of;
use crate::trail::event::TrailEventView;
use vstd::prelude::*;

verus! {

// ---------------------------------------------------------------------------
// Files
/// Content with a zero byte near its start.
pub open spec fn has_zero(data: Option<Seq<u8>>) -> bool {
    data is Some && exists|i: int|
        0 <= i < data->Some_0.len() && i < 8192 && #[trigger] data->Some_0[i] == 0
}

/// The lines that were added and deleted between two contents, a missing one
/// being empty; nothing where one of them is binary.
pub open spec fn are_counts(
    before: Option<Seq<u8>>,
    after: Option<Seq<u8>>,
    additions: Option<u64>,
    deletions: Option<u64>,
) -> bool {
    let b = if before is Some {
        before->Some_0
    } else {
        Seq::empty()
    };
    let a = if after is Some {
        after->Some_0
    } else {
        Seq::empty()
    };
    if has_zero(before) || has_zero(after) {
        additions is None && deletions is None
    } else {
        &&& additions == Some(added_lines(hunks_between(b, a)) as u64)
        &&& deletions == Some(removed_lines(hunks_between(b, a)) as u64)
    }
}

/// A change is shown with its path, what happened, both hashes and how often it
/// was edited. If the content of both sides is there it has its lines, or is
/// binary; if one is missing it has neither.
pub open spec fn shows_change(
    blobs: Map<Seq<char>, Seq<u8>>,
    c: FileChangeView,
    f: ReviewFileView,
) -> bool {
    &&& f.path == c.path
    &&& f.kind == c.kind
    &&& f.from_path == c.from_path
    &&& f.before_hash == c.before_hash
    &&& f.after_hash == c.after_hash
    &&& f.edits == c.edits
    &&& f.snapshot <==> (c.before_hash is Some ==> blobs.dom().contains(c.before_hash->Some_0))
        && (c.after_hash is Some ==> blobs.dom().contains(c.after_hash->Some_0))
    &&& f.snapshot ==> are_counts(
        held(blobs, c.before_hash),
        held(blobs, c.after_hash),
        f.additions,
        f.deletions,
    )
    &&& f.snapshot ==> f.binary == (has_zero(held(blobs, c.before_hash)) || has_zero(
        held(blobs, c.after_hash),
    ))
    &&& !f.snapshot ==> f.additions is None && f.deletions is None && !f.binary
}

/// A file of a commit is shown as git says, with the lines between the content
/// before the commit and that after it.
pub open spec fn shows_commit_file(
    blobs: Map<Seq<char>, Seq<u8>>,
    g: GitCommitFileView,
    f: CommitFileView,
) -> bool {
    &&& f.path == g.path
    &&& f.old_path == g.old_path
    &&& f.kind == g.kind
    &&& f.before_id == g.before_id
    &&& f.after_id == g.after_id
    &&& are_counts(held(blobs, g.before_id), held(blobs, g.after_id), f.additions, f.deletions)
    &&& f.binary == (has_zero(held(blobs, g.before_id)) || has_zero(held(blobs, g.after_id)))
}

/// The last statistics of a file.
pub open spec fn is_stat(
    stats: Seq<FileStatView>,
    p: Seq<char>,
    found: Option<FileStatView>,
) -> bool {
    is_last(stats, |s: FileStatView| path::same_path(s.path, p), found)
}

/// An uncommitted change is shown as git says, with the last lines given for it;
/// a file whose lines git does not count is binary.
pub open spec fn shows_entry(
    work: WorkStateView,
    e: StatusEntryView,
    f: WorkingTreeFileView,
) -> bool {
    &&& f.path == e.path
    &&& f.old_path == e.orig_path
    &&& f.kind == e.effective()
    &&& f.staged == (e.staged is Some)
    &&& f.unstaged == (e.unstaged is Some)
    &&& f.untracked == e.untracked
    &&& exists|found: Option<FileStatView>| {
        &&& #[trigger] is_stat(work.stats + work.untracked, e.path, found)
        &&& f.binary <==> found is Some && found->Some_0.additions is None
        &&& found is None || f.binary ==> f.additions is None && f.deletions is None
        &&& found is Some && !f.binary ==> f.additions == found->Some_0.additions && f.deletions
            == found->Some_0.deletions
    }
}

proof fn lemma_shows_change(blobs: Map<Seq<char>, Seq<u8>>, c: FileChangeView)
    ensures
        shows_change(blobs, c, review_file_of(blobs, c)),
{
    lemma_zero(held(blobs, c.before_hash));
    lemma_zero(held(blobs, c.after_hash));
}

proof fn lemma_zero(data: Option<Seq<u8>>)
    ensures
        has_zero(data) == super::diff::looks_binary(super::diff::content(data)),
{
}

proof fn lemma_shows_commit_file(blobs: Map<Seq<char>, Seq<u8>>, g: GitCommitFileView)
    ensures
        shows_commit_file(blobs, g, commit_file_of(blobs, g)),
{
    lemma_zero(held(blobs, g.before_id));
    lemma_zero(held(blobs, g.after_id));
}

proof fn lemma_is_stat(stats: Seq<FileStatView>, p: Seq<char>)
    ensures
        is_stat(stats, p, stat_of(stats, p)),
    decreases stats.len(),
{
    let pred = |s: FileStatView| path::same_path(s.path, p);
    if stats.len() > 0 {
        if path::same_path(stats.last().path, p) {
            lemma_last_here(stats, pred);
        } else {
            lemma_is_stat(stats.drop_last(), p);
            lemma_last_earlier(stats, pred, stat_of(stats, p));
        }
    }
}

proof fn lemma_shows_entry(work: WorkStateView, e: StatusEntryView)
    ensures
        shows_entry(work, e, work_file(e, work.stats + work.untracked)),
{
    let all = work.stats + work.untracked;
    lemma_is_stat(all, e.path);
    assert(is_stat(all, e.path, stat_of(all, e.path)));
}

// ---------------------------------------------------------------------------
// Checkpoints
/// `t` is the earliest of `start` and the times its changes were first seen.
pub open spec fn is_earliest(t: Timestamp, start: Timestamp, changes: Seq<FileChangeView>) -> bool {
    &&& t == start || exists|i: int|
        0 <= i < changes.len() && (#[trigger] changes[i]).first_seen == t
    &&& !earlier(start, t)
    &&& forall|i: int| 0 <= i < changes.len() ==> !earlier((#[trigger] changes[i]).first_seen, t)
}

/// `t` is the latest of `start` and the times its changes were last seen.
pub open spec fn is_latest(t: Timestamp, start: Timestamp, changes: Seq<FileChangeView>) -> bool {
    &&& t == start || exists|i: int|
        0 <= i < changes.len() && (#[trigger] changes[i]).last_seen == t
    &&& !earlier(t, start)
    &&& forall|i: int| 0 <= i < changes.len() ==> !earlier(t, (#[trigger] changes[i]).last_seen)
}

proof fn lemma_earliest(start: Timestamp, changes: Seq<FileChangeView>)
    ensures
        is_earliest(first_of(start, changes), start, changes),
        is_latest(last_of(start, changes), start, changes),
    decreases changes.len(),
{
    if changes.len() > 0 {
        let rest = changes.drop_last();
        let n = rest.len() as int;
        lemma_earliest(start, rest);
        assert forall|i: int| 0 <= i < n implies rest[i] == #[trigger] changes[i] by {}
        assert(changes[n] == changes.last());
        let a = first_of(start, rest);
        let b = last_of(start, rest);
        if a != start {
            let i = choose|i: int| 0 <= i < rest.len() && (#[trigger] rest[i]).first_seen == a;
            assert(changes[i].first_seen == a);
        }
        if b != start {
            let i = choose|i: int| 0 <= i < rest.len() && (#[trigger] rest[i]).last_seen == b;
            assert(changes[i].last_seen == b);
        }
        assert forall|i: int| 0 <= i < changes.len() implies !earlier(
            (#[trigger] changes[i]).first_seen,
            first_of(start, changes),
        ) && !earlier(last_of(start, changes), changes[i].last_seen) by {
            if i < n {
                assert(rest[i] == changes[i]);
            }
        }
    }
}

/// A checkpoint of a trail is shown in a section: under its number there, with
/// what people said of it, when it began and ended, and all its files in order.
pub open spec fn shows_step(
    blobs: Map<Seq<char>, Seq<u8>>,
    e: TrailEventView,
    section: int,
    number: int,
    cp: ReviewCheckpointView,
) -> bool {
    let changes = e.event_type->changes;
    &&& e.event_type is Checkpoint
    &&& cp.section == section as usize
    &&& cp.number == number as usize
    &&& cp.label == text::decimal(section as nat) + "."@ + text::decimal(number as nat)
    &&& cp.id == e.event_type->Checkpoint_id
    &&& cp.title == e.event_type->Checkpoint_title
    &&& cp.annotation == e.event_type->annotation
    &&& cp.bulk == e.event_type->bulk
    &&& cp.attachment == e.event_type->attachment
    &&& e.timestamp is Some ==> is_earliest(cp.started_at, e.timestamp->Some_0, changes)
        && is_latest(cp.ended_at, e.timestamp->Some_0, changes)
    &&& cp.files.len() == changes.len()
    &&& forall|i: int|
        0 <= i < cp.files.len() ==> shows_change(blobs, changes[i], #[trigger] cp.files[i])
}

proof fn lemma_shows_step(
    blobs: Map<Seq<char>, Seq<u8>>,
    e: TrailEventView,
    section: int,
    number: int,
)
    requires
        e.event_type is Checkpoint,
    ensures
        shows_step(blobs, e, section, number, numbered(blobs, e, section, number)),
{
    let changes = e.event_type->changes;
    let cp = numbered(blobs, e, section, number);
    assert forall|i: int| 0 <= i < cp.files.len() implies shows_change(
        blobs,
        changes[i],
        #[trigger] cp.files[i],
    ) by {
        lemma_shows_change(blobs, changes[i]);
    }
    if e.timestamp is Some {
        lemma_earliest(e.timestamp->Some_0, changes);
    }
}

/// Checkpoints are shown in a section, numbered from one.
pub open spec fn show_steps(
    blobs: Map<Seq<char>, Seq<u8>>,
    es: Seq<TrailEventView>,
    section: int,
    cps: Seq<ReviewCheckpointView>,
) -> bool {
    &&& cps.len() == es.len()
    &&& forall|j: int|
        0 <= j < cps.len() ==> shows_step(blobs, es[j], section, j + 1, #[trigger] cps[j])
}

/// The checkpoints that are shown, in reading order.
pub open spec fn are_steps(events: Seq<TrailEventView>, steps: Seq<TrailEventView>) -> bool {
    selects(
        events,
        |e: TrailEventView| e.event_type is Checkpoint && !e.event_type->Checkpoint_hidden,
        steps,
    )
}

/// The commits of a trail, in order.
pub open spec fn are_commits(events: Seq<TrailEventView>, commits: Seq<TrailEventView>) -> bool {
    selects(events, |e: TrailEventView| e.event_type is Commit, commits)
}

/// The checkpoints that were work towards a commit.
pub open spec fn are_towards(
    steps: Seq<TrailEventView>,
    id: Seq<char>,
    es: Seq<TrailEventView>,
) -> bool {
    selects(steps, |e: TrailEventView| e.event_type->commit == Some(id), es)
}

/// The checkpoints that were work towards none of the commits.
pub open spec fn are_uncommitted(
    steps: Seq<TrailEventView>,
    commits: Seq<TrailEventView>,
    es: Seq<TrailEventView>,
) -> bool {
    selects(steps, |e: TrailEventView| is_loose(commits, e), es)
}

pub open spec fn is_loose(commits: Seq<TrailEventView>, e: TrailEventView) -> bool {
    forall|i: int|
        0 <= i < commits.len() ==> e.event_type->commit != Some(
            (#[trigger] commits[i]).event_type->Commit_id,
        )
}

proof fn lemma_pending(events: Seq<TrailEventView>)
    ensures
        are_steps(events, pending(events)),
        forall|i: int|
            0 <= i < pending(events).len() ==> (#[trigger] pending(events)[i]).event_type
                is Checkpoint,
    decreases events.len(),
{
    let pred = |e: TrailEventView|
        e.event_type is Checkpoint && !e.event_type->Checkpoint_hidden;
    if events.len() == 0 {
        assert(events =~= Seq::empty());
        lemma_selects_none(pred);
    } else {
        lemma_pending(events.drop_last());
        lemma_selects_last(events, pred, pending(events.drop_last()));
    }
}

proof fn lemma_commits(events: Seq<TrailEventView>) -> (commits: Seq<TrailEventView>)
    ensures
        are_commits(events, commits),
        commits.len() == commit_ids(events).len(),
        forall|i: int|
            0 <= i < commits.len() ==> #[trigger] commits[i].event_type is Commit
                && commits[i].event_type->Commit_id == commit_ids(events)[i],
    decreases events.len(),
{
    let pred = |e: TrailEventView| e.event_type is Commit;
    if events.len() == 0 {
        assert(events =~= Seq::empty());
        lemma_selects_none(pred);
        Seq::empty()
    } else {
        let before = lemma_commits(events.drop_last());
        lemma_selects_last(events, pred, before);
        if events.last().event_type is Commit {
            before.push(events.last())
        } else {
            before
        }
    }
}

proof fn lemma_towards(steps: Seq<TrailEventView>, id: Seq<char>)
    ensures
        are_towards(steps, id, towards(steps, id)),
    decreases steps.len(),
{
    let pred = |e: TrailEventView| e.event_type->commit == Some(id);
    if steps.len() == 0 {
        assert(steps =~= Seq::empty());
        lemma_selects_none(pred);
    } else {
        lemma_towards(steps.drop_last(), id);
        lemma_selects_last(steps, pred, towards(steps.drop_last(), id));
    }
}

proof fn lemma_loose(
    ids: Seq<Seq<char>>,
    commits: Seq<TrailEventView>,
    e: TrailEventView,
)
    requires
        commits.len() == ids.len(),
        forall|i: int|
            0 <= i < commits.len() ==> (#[trigger] commits[i]).event_type->Commit_id == ids[i],
    ensures
        unattached(e, ids) == is_loose(commits, e),
{
    match e.event_type->commit {
        Some(c) => {
            if ids.contains(c) {
                let i = choose|i: int| 0 <= i < ids.len() && ids[i] == c;
                assert(commits[i].event_type->Commit_id == c);
            } else {
                assert forall|i: int| 0 <= i < commits.len() implies Some(c) != Some(
                    (#[trigger] commits[i]).event_type->Commit_id,
                ) by {
                    assert(ids.contains(ids[i]));
                }
            }
        },
        None => {},
    }
}

proof fn lemma_uncommitted(
    steps: Seq<TrailEventView>,
    ids: Seq<Seq<char>>,
    commits: Seq<TrailEventView>,
)
    requires
        commits.len() == ids.len(),
        forall|i: int|
            0 <= i < commits.len() ==> (#[trigger] commits[i]).event_type->Commit_id == ids[i],
    ensures
        are_uncommitted(steps, commits, uncommitted(steps, ids)),
    decreases steps.len(),
{
    let pred = |e: TrailEventView| is_loose(commits, e);
    if steps.len() == 0 {
        assert(steps =~= Seq::empty());
        lemma_selects_none(pred);
    } else {
        lemma_uncommitted(steps.drop_last(), ids, commits);
        lemma_loose(ids, commits, steps.last());
        lemma_selects_last(steps, pred, uncommitted(steps.drop_last(), ids));
    }
}

proof fn lemma_steps_shown(
    blobs: Map<Seq<char>, Seq<u8>>,
    steps: Seq<TrailEventView>,
    pred: spec_fn(TrailEventView) -> bool,
    es: Seq<TrailEventView>,
    section: int,
)
    requires
        selects(steps, pred, es),
        forall|i: int| 0 <= i < steps.len() ==> (#[trigger] steps[i]).event_type is Checkpoint,
    ensures
        show_steps(blobs, es, section, numbered_all(blobs, es, section)),
{
    let cps = numbered_all(blobs, es, section);
    crate::choice::lemma_selects_contains(steps, pred, es);
    assert forall|j: int| 0 <= j < cps.len() implies shows_step(
        blobs,
        es[j],
        section,
        j + 1,
        #[trigger] cps[j],
    ) by {
        assert(pred(es[j]));
        let k = choose|k: int| 0 <= k < steps.len() && #[trigger] steps[k] == es[j];
        assert(steps[k].event_type is Checkpoint);
        lemma_shows_step(blobs, es[j], section, j + 1);
    }
}

// ---------------------------------------------------------------------------
// Sections
/// A commit is shown as a section: what git says of it, the checkpoints that
/// were work towards it, and all its files in order.
pub open spec fn shows_commit(
    blobs: Map<Seq<char>, Seq<u8>>,
    steps: Seq<TrailEventView>,
    number: int,
    info: CommitInfoView,
    c: CommitReviewView,
) -> bool {
    &&& c.number == number as usize
    &&& c.id == info.id
    &&& c.short_id == info.short_id
    &&& c.summary == info.summary
    &&& c.author == info.author
    &&& c.time == info.time
    &&& c.is_merge == (info.parent_count >= 2)
    &&& c.diff_parent == info.first_parent
    &&& exists|es: Seq<TrailEventView>|
        #[trigger] are_towards(steps, info.id, es) && show_steps(blobs, es, number, c.checkpoints)
    &&& c.files.len() == info.files.len()
    &&& forall|i: int|
        0 <= i < c.files.len() ==> shows_commit_file(blobs, info.files[i], #[trigger] c.files[i])
}

/// The working tree is shown as a section: whether it is there, the checkpoints
/// that were work towards no commit, and all uncommitted changes in order,
/// counted.
pub open spec fn shows_work(
    blobs: Map<Seq<char>, Seq<u8>>,
    steps: Seq<TrailEventView>,
    commits: Seq<TrailEventView>,
    number: int,
    live: bool,
    work: WorkStateView,
    w: WorkingTreeReviewView,
) -> bool {
    &&& w.number == number as usize
    &&& w.available == live
    &&& exists|es: Seq<TrailEventView>|
        #[trigger] are_uncommitted(steps, commits, es) && show_steps(
            blobs,
            es,
            number,
            w.checkpoints,
        )
    &&& w.files.len() == work.entries.len()
    &&& forall|i: int|
        0 <= i < w.files.len() ==> shows_entry(work, work.entries[i], #[trigger] w.files[i])
    &&& w.untracked == work.entries.filter(|e: StatusEntryView| e.untracked).len() as usize
    &&& w.staged == work.entries.filter(
        |e: StatusEntryView| !e.untracked && e.staged is Some,
    ).len() as usize
    &&& w.unstaged == work.entries.filter(
        |e: StatusEntryView| !e.untracked && e.unstaged is Some,
    ).len() as usize
}

proof fn lemma_info(infos: Seq<CommitInfoView>, id: Seq<char>)
    ensures
        is_first(infos, |c: CommitInfoView| c.id == id, info_of(infos, id)),
        info_of(infos, id) is Some ==> info_of(infos, id)->Some_0.id == id,
    decreases infos.len(),
{
    let pred = |c: CommitInfoView| c.id == id;
    if infos.len() > 0 {
        if infos[0].id == id {
            lemma_first_here(infos, pred);
        } else {
            lemma_info(infos.drop_first(), id);
            lemma_first_later(infos, pred, info_of(infos, id));
        }
    }
}

proof fn lemma_tally_filter(
    entries: Seq<StatusEntryView>,
    pred: spec_fn(StatusEntryView) -> bool,
)
    ensures
        tally(entries, pred) == entries.filter(pred).len(),
    decreases entries.len(),
{
    reveal(Seq::filter);
    if entries.len() > 0 {
        lemma_tally_filter(entries.drop_last(), pred);
    }
}

/// The first that is known of a commit.
pub open spec fn is_known(
    infos: Seq<CommitInfoView>,
    id: Seq<char>,
    info: CommitInfoView,
) -> bool {
    is_first(infos, |c: CommitInfoView| c.id == id, Some(info))
}

/// Section `i` shows the commit with an id.
pub open spec fn is_section_of(
    blobs: Map<Seq<char>, Seq<u8>>,
    steps: Seq<TrailEventView>,
    infos: Seq<CommitInfoView>,
    id: Seq<char>,
    number: int,
    s: ReviewSectionView,
) -> bool {
    exists|info: CommitInfoView| {
        &&& #[trigger] is_known(infos, id, info)
        &&& s is Commit
        &&& shows_commit(blobs, steps, number, info, s->Commit_0)
    }
}

#[verifier::rlimit(40)]
proof fn lemma_sections(
    blobs: Map<Seq<char>, Seq<u8>>,
    infos: Seq<CommitInfoView>,
    steps: Seq<TrailEventView>,
    ids: Seq<Seq<char>>,
)
    requires
        forall|i: int| 0 <= i < ids.len() ==> info_of(infos, #[trigger] ids[i]) is Some,
        forall|i: int| 0 <= i < steps.len() ==> (#[trigger] steps[i]).event_type is Checkpoint,
    ensures
        ({
            let sections = commit_sections(blobs, infos, steps, ids).0;
            &&& sections.len() == ids.len()
            &&& forall|i: int|
                0 <= i < sections.len() ==> is_section_of(
                    blobs,
                    steps,
                    infos,
                    ids[i],
                    i + 1,
                    #[trigger] sections[i],
                )
        }),
    decreases ids.len(),
{
    if ids.len() > 0 {
        let rest = ids.drop_last();
        let n = rest.len() as int;
        let id = ids.last();
        assert forall|i: int| 0 <= i < rest.len() implies info_of(
            infos,
            #[trigger] rest[i],
        ) is Some by {
            assert(rest[i] == ids[i]);
        }
        lemma_sections(blobs, infos, steps, rest);
        let before = commit_sections(blobs, infos, steps, rest).0;
        let sections = commit_sections(blobs, infos, steps, ids).0;
        assert(ids[n] == id);
        lemma_info(infos, id);
        let info = info_of(infos, id)->Some_0;
        let es = towards(steps, id);
        lemma_towards(steps, id);
        lemma_steps_shown(
            blobs,
            steps,
            |e: TrailEventView| e.event_type->commit == Some(id),
            es,
            n + 1,
        );
        let c = commit_section(blobs, n + 1, info, numbered_all(blobs, es, n + 1));
        assert(are_towards(steps, info.id, es));
        assert forall|i: int| 0 <= i < c.files.len() implies shows_commit_file(
            blobs,
            info.files[i],
            #[trigger] c.files[i],
        ) by {
            lemma_shows_commit_file(blobs, info.files[i]);
        }
        assert(shows_commit(blobs, steps, n + 1, info, c));
        assert(is_known(infos, id, info));
        assert(is_section_of(
            blobs,
            steps,
            infos,
            id,
            n + 1,
            ReviewSectionView::Commit(c),
        ));
        assert forall|i: int| 0 <= i < sections.len() implies is_section_of(
            blobs,
            steps,
            infos,
            ids[i],
            i + 1,
            #[trigger] sections[i],
        ) by {
            if i < n {
                assert(sections[i] == before[i]);
                assert(rest[i] == ids[i]);
            }
        }
    }
}

/// What a review is made of.
pub open spec fn is_review(
    review: WorktreeReviewView,
    live: bool,
    events: Seq<TrailEventView>,
    infos: Seq<CommitInfoView>,
    blobs: Map<Seq<char>, Seq<u8>>,
    work: WorkStateView,
    steps: Seq<TrailEventView>,
    commits: Seq<TrailEventView>,
) -> bool {
    let n = commits.len() as int;
    &&& are_steps(events, steps)
    &&& are_commits(events, commits)
    &&& review.sections.len() == n + 1
    &&& forall|i: int|
        0 <= i < n ==> is_section_of(
            blobs,
            steps,
            infos,
            commits[i].event_type->Commit_id,
            i + 1,
            #[trigger] review.sections[i],
        )
    &&& review.sections[n] is WorkingTree
    &&& shows_work(
        blobs,
        steps,
        commits,
        n + 1,
        live,
        work,
        review.sections[n]->WorkingTree_0,
    )
}

/// A review has one section for each commit of its trail, in order, and then one
/// for the working tree. A visible checkpoint is in the section of the commit it
/// was work towards, or else in that of the working tree, in reading order.
///
/// Every commit of the trail has to be known.
#[verifier::rlimit(40)]
pub proof fn lemma_what_a_review_shows(
    repo: RepoView,
    trail: TrailView,
    infos: Seq<CommitInfoView>,
    blobs: Map<Seq<char>, Seq<u8>>,
    work: WorkStateView,
    current: bool,
) -> (r: (Seq<TrailEventView>, Seq<TrailEventView>))
    requires
        forall|i: int|
            0 <= i < trail.events.len() && (#[trigger] trail.events[i]).event_type is Commit
                ==> exists|k: int|
                0 <= k < infos.len() && (#[trigger] infos[k]).id
                    == trail.events[i].event_type->Commit_id,
    ensures
        is_review(
            review_of(repo, trail, infos, blobs, work, current),
            repo.live,
            trail.events,
            infos,
            blobs,
            work,
            r.0,
            r.1,
        ),
{
    let events = trail.events;
    let review = review_of(repo, trail, infos, blobs, work, current);
    let steps = pending(events);
    let ids = commit_ids(events);
    lemma_pending(events);
    let commits = lemma_commits(events);
    let n = commits.len() as int;
    crate::choice::lemma_selects_contains(
        events,
        |e: TrailEventView| e.event_type is Commit,
        commits,
    );
    assert forall|i: int| 0 <= i < ids.len() implies info_of(infos, #[trigger] ids[i]) is Some by {
        let e = commits[i];
        let m = choose|m: int| 0 <= m < events.len() && #[trigger] events[m] == e;
        assert(events[m].event_type is Commit);
        lemma_info(infos, ids[i]);
        let k = choose|k: int|
            0 <= k < infos.len() && (#[trigger] infos[k]).id == events[m].event_type->Commit_id;
        if info_of(infos, ids[i]) is None {
            let pred = |c: CommitInfoView| c.id == ids[i];
            assert(!pred(infos[k]));
        }
    }
    lemma_sections(blobs, infos, steps, ids);
    lemma_uncommitted(steps, ids, commits);
    let es = uncommitted(steps, ids);
    lemma_steps_shown(
        blobs,
        steps,
        |e: TrailEventView| is_loose(commits, e),
        es,
        n + 1,
    );
    let w = work_section(n + 1, repo.live, work, numbered_all(blobs, es, n + 1));
    let sections = commit_sections(blobs, infos, steps, ids).0;
    assert(review.sections == sections.push(ReviewSectionView::WorkingTree(w)));
    assert(are_uncommitted(steps, commits, es));
    assert forall|i: int| 0 <= i < w.files.len() implies shows_entry(
        work,
        work.entries[i],
        #[trigger] w.files[i],
    ) by {
        lemma_shows_entry(work, work.entries[i]);
    }
    lemma_tally_filter(work.entries, |e: StatusEntryView| e.untracked);
    lemma_tally_filter(work.entries, |e: StatusEntryView| !e.untracked && e.staged is Some);
    lemma_tally_filter(work.entries, |e: StatusEntryView| !e.untracked && e.unstaged is Some);
    assert forall|i: int| 0 <= i < n implies is_section_of(
        blobs,
        steps,
        infos,
        commits[i].event_type->Commit_id,
        i + 1,
        #[trigger] review.sections[i],
    ) by {
        assert(review.sections[i] == sections[i]);
    }
    (steps, commits)
}

// ---------------------------------------------------------------------------
// Sums
pub open spec fn count_of(n: Option<u64>) -> int {
    if n is Some {
        n->Some_0 as int
    } else {
        0
    }
}

proof fn lemma_file_sums(
    files: Seq<ReviewFileView>,
    commit_files: Seq<CommitFileView>,
    work_files: Seq<WorkingTreeFileView>,
)
    ensures
        lines_added(files) == sum_of(files.map_values(|f: ReviewFileView| count_of(f.additions))),
        lines_deleted(files) == sum_of(
            files.map_values(|f: ReviewFileView| count_of(f.deletions)),
        ),
        commit_added(commit_files) == sum_of(
            commit_files.map_values(|f: CommitFileView| count_of(f.additions)),
        ),
        commit_deleted(commit_files) == sum_of(
            commit_files.map_values(|f: CommitFileView| count_of(f.deletions)),
        ),
        work_added(work_files) == sum_of(
            work_files.map_values(|f: WorkingTreeFileView| count_of(f.additions)),
        ),
        work_deleted(work_files) == sum_of(
            work_files.map_values(|f: WorkingTreeFileView| count_of(f.deletions)),
        ),
    decreases files.len() + commit_files.len() + work_files.len(),
{
    if files.len() + commit_files.len() + work_files.len() > 0 {
        let a = if files.len() > 0 {
            files.drop_last()
        } else {
            files
        };
        let b = if commit_files.len() > 0 {
            commit_files.drop_last()
        } else {
            commit_files
        };
        let c = if work_files.len() > 0 {
            work_files.drop_last()
        } else {
            work_files
        };
        lemma_file_sums(a, b, c);
        let fa = |f: ReviewFileView| count_of(f.additions);
        let fd = |f: ReviewFileView| count_of(f.deletions);
        let ca = |f: CommitFileView| count_of(f.additions);
        let cd = |f: CommitFileView| count_of(f.deletions);
        let wa = |f: WorkingTreeFileView| count_of(f.additions);
        let wd = |f: WorkingTreeFileView| count_of(f.deletions);
        if files.len() > 0 {
            assert(files.map_values(fa).drop_last() =~= a.map_values(fa));
            assert(files.map_values(fd).drop_last() =~= a.map_values(fd));
        }
        if commit_files.len() > 0 {
            assert(commit_files.map_values(ca).drop_last() =~= b.map_values(ca));
            assert(commit_files.map_values(cd).drop_last() =~= b.map_values(cd));
        }
        if work_files.len() > 0 {
            assert(work_files.map_values(wa).drop_last() =~= c.map_values(wa));
            assert(work_files.map_values(wd).drop_last() =~= c.map_values(wd));
        }
    }
}

/// The lines of a checkpoint, a commit and the working tree are the sums of
/// those of their files.
pub proof fn lemma_sections_sum_up_their_files(
    blobs: Map<Seq<char>, Seq<u8>>,
    e: TrailEventView,
    info: CommitInfoView,
    work: WorkStateView,
    section: int,
    number: int,
    live: bool,
    checkpoints: Seq<ReviewCheckpointView>,
)
    ensures
        ({
            let cp = numbered(blobs, e, section, number);
            let c = commit_section(blobs, section, info, checkpoints);
            let w = work_section(section, live, work, checkpoints);
            &&& cp.stats.additions == sum_of(
                cp.files.map_values(|f: ReviewFileView| count_of(f.additions)),
            ) as u64
            &&& cp.stats.deletions == sum_of(
                cp.files.map_values(|f: ReviewFileView| count_of(f.deletions)),
            ) as u64
            &&& c.stats.additions == sum_of(
                c.files.map_values(|f: CommitFileView| count_of(f.additions)),
            ) as u64
            &&& c.stats.deletions == sum_of(
                c.files.map_values(|f: CommitFileView| count_of(f.deletions)),
            ) as u64
            &&& w.stats.additions == sum_of(
                w.files.map_values(|f: WorkingTreeFileView| count_of(f.additions)),
            ) as u64
            &&& w.stats.deletions == sum_of(
                w.files.map_values(|f: WorkingTreeFileView| count_of(f.deletions)),
            ) as u64
        }),
{
    let cp = numbered(blobs, e, section, number);
    let c = commit_section(blobs, section, info, checkpoints);
    let w = work_section(section, live, work, checkpoints);
    lemma_file_sums(cp.files, c.files, w.files);
}

/// The lines of a section.
pub open spec fn lines_of(s: ReviewSectionView) -> LineStats {
    match s {
        ReviewSectionView::Commit(c) => c.stats,
        ReviewSectionView::WorkingTree(w) => w.stats,
    }
}

proof fn lemma_section_sums(sections: Seq<ReviewSectionView>)
    ensures
        sections_added(sections) == sum_of(
            sections.map_values(|s: ReviewSectionView| lines_of(s).additions as int),
        ),
        sections_deleted(sections) == sum_of(
            sections.map_values(|s: ReviewSectionView| lines_of(s).deletions as int),
        ),
    decreases sections.len(),
{
    if sections.len() > 0 {
        let rest = sections.drop_last();
        lemma_section_sums(rest);
        let a = |s: ReviewSectionView| lines_of(s).additions as int;
        let d = |s: ReviewSectionView| lines_of(s).deletions as int;
        assert(sections.map_values(a).drop_last() =~= rest.map_values(a));
        assert(sections.map_values(d).drop_last() =~= rest.map_values(d));
    }
}

proof fn lemma_checkpoint_sums(cps: Seq<ReviewCheckpointView>)
    ensures
        checkpoints_added(cps) == sum_of(
            cps.map_values(|c: ReviewCheckpointView| c.stats.additions as int),
        ),
        checkpoints_deleted(cps) == sum_of(
            cps.map_values(|c: ReviewCheckpointView| c.stats.deletions as int),
        ),
    decreases cps.len(),
{
    if cps.len() > 0 {
        let rest = cps.drop_last();
        lemma_checkpoint_sums(rest);
        let a = |c: ReviewCheckpointView| c.stats.additions as int;
        let d = |c: ReviewCheckpointView| c.stats.deletions as int;
        assert(cps.map_values(a).drop_last() =~= rest.map_values(a));
        assert(cps.map_values(d).drop_last() =~= rest.map_values(d));
    }
}

/// A review says which worktree it is of, and sums up: the lines of its sections,
/// the lines of its checkpoints, how many commits and checkpoints there are, and
/// how many of these are in the section of the working tree.
pub proof fn lemma_reviews_sum_up(
    repo: RepoView,
    trail: TrailView,
    infos: Seq<CommitInfoView>,
    blobs: Map<Seq<char>, Seq<u8>>,
    work: WorkStateView,
    current: bool,
)
    ensures
        ({
            let r = review_of(repo, trail, infos, blobs, work, current);
            &&& r.repository == trail.repository
            &&& r.worktree.path == repo.worktree.root
            &&& r.worktree.exists == repo.live
            &&& r.worktree.current == current
            &&& repo.worktree.id is Some ==> r.worktree.id == repo.worktree.id->Some_0
            &&& repo.worktree.id is None ==> r.worktree.id == "main"@
            &&& repo.head is Detached ==> r.worktree.branch is None
            &&& repo.head is Branch ==> r.worktree.branch == Some(repo.head->name)
            &&& r.summary.stats.additions == sum_of(
                r.sections.map_values(|s: ReviewSectionView| lines_of(s).additions as int),
            ) as u64
            &&& r.summary.stats.deletions == sum_of(
                r.sections.map_values(|s: ReviewSectionView| lines_of(s).deletions as int),
            ) as u64
            &&& r.stats.additions == sum_of(
                r.checkpoints.map_values(|c: ReviewCheckpointView| c.stats.additions as int),
            ) as u64
            &&& r.stats.deletions == sum_of(
                r.checkpoints.map_values(|c: ReviewCheckpointView| c.stats.deletions as int),
            ) as u64
            &&& r.summary.checkpoints == r.checkpoints.len() as usize
            &&& r.summary.commits == trail.events.filter(
                |e: TrailEventView| e.event_type is Commit,
            ).len() as usize
            &&& r.sections.len() > 0
            &&& r.sections.last() is WorkingTree
            &&& r.summary.uncommitted_checkpoints
                == r.sections.last()->WorkingTree_0.checkpoints.len() as usize
        }),
{
    let r = review_of(repo, trail, infos, blobs, work, current);
    lemma_section_sums(r.sections);
    lemma_checkpoint_sums(r.checkpoints);
    lemma_commit_count(trail.events);
}

proof fn lemma_commit_count(events: Seq<TrailEventView>)
    ensures
        commit_ids(events).len() == events.filter(
            |e: TrailEventView| e.event_type is Commit,
        ).len(),
    decreases events.len(),
{
    reveal(Seq::filter);
    if events.len() > 0 {
        lemma_commit_count(events.drop_last());
    }
}

} // verus!
