//! What a trail shows, and in which order.

use super::attach::{as_ids, attached};
use super::builder::{
    changes_in, checkpoint_event, checkpoint_events, checkpoints_in, commit_event, commit_events,
    covers, file_event, file_events, gathered, in_chosen_order, in_window,
    lemma_chosen_order_is_read, lemma_reordering_permutes, listed, listed_in, recorded,
    reflog_events, shown_checkpoints, stat_of, timeline, trail_of, uncommitted_in, with_id, ByTime,
    Scope, TrailFactsView,
};
use super::event::{Confidence, EventSource, TrailEvent, TrailEventTypeView, TrailEventView};
use super::laws::lemma_timeline_is_complete;
use crate::choice::{
    is_last, lemma_last_earlier, lemma_last_here, lemma_selects_contains, lemma_selects_last,
    lemma_selects_none, selects,
};
use crate::git::baseline::BaselineView;
use crate::git::diff::{
    sum_additions, sum_deletions, summable, ChangeKind, FileStatView, StatusEntryView,
};
use crate::git::history::{reflog_since, CommitInfoView, ReflogEntryView};
use crate::git::repository::{BaseRefView, HeadStateView, RepoView};
use crate::order::{lemma_sorted, sorted};
use crate::path;
use crate::recorder::checkpoint::{checkpoints_of, CheckpointView};
use crate::recorder::metadata::applied;
use crate::recorder::store::SessionFileView;
use crate::time::Timestamp;
use vstd::prelude::*;

verus! {

// ---------------------------------------------------------------------------
// Which checkpoints are recorded here
/// A session was recorded in this worktree, the main one going by `main`, and
/// on the branch that is checked out, or on none where none is.
pub open spec fn from_here(repo: RepoView, s: SessionFileView) -> bool {
    &&& match repo.worktree.id {
        Some(id) => s.header.worktree_id == id,
        None => s.header.worktree_id == "main"@,
    }
    &&& match repo.head {
        HeadStateView::Branch { name } => s.header.branch == Some(name),
        HeadStateView::Detached { short_id } => s.header.branch is None,
    }
}

/// The checkpoints recorded here are those of the sessions recorded in this
/// worktree on this branch, one session after the other.
pub proof fn lemma_recorded_here(repo: RepoView, sessions: Seq<SessionFileView>)
    ensures
        exists|here: Seq<SessionFileView>| {
            &&& #[trigger] selects_sessions(repo, sessions, here)
            &&& recorded(repo, sessions) == here.map_values(
                |s: SessionFileView| checkpoints_of(s.header.session_id, s.records),
            ).flatten()
        },
    decreases sessions.len(),
{
    let pred = |s: SessionFileView| from_here(repo, s);
    let of = |s: SessionFileView| checkpoints_of(s.header.session_id, s.records);
    if sessions.len() == 0 {
        assert(sessions =~= Seq::empty());
        lemma_selects_none(pred);
        let none = Seq::<SessionFileView>::empty();
        assert(selects_sessions(repo, sessions, none));
        assert(none.map_values(of) =~= Seq::empty());
    } else {
        let rest = sessions.drop_last();
        let last = sessions.last();
        lemma_recorded_here(repo, rest);
        let here = choose|here: Seq<SessionFileView>| {
            &&& #[trigger] selects_sessions(repo, rest, here)
            &&& recorded(repo, rest) == here.map_values(of).flatten()
        };
        lemma_selects_last(sessions, pred, here);
        if from_here(repo, last) {
            let more = here.push(last);
            assert(selects_sessions(repo, sessions, more));
            assert(more.map_values(of) =~= here.map_values(of).push(of(last)));
            here.map_values(of).lemma_flatten_push(of(last));
        } else {
            assert(selects_sessions(repo, sessions, here));
        }
    }
}

/// `here` are the sessions recorded in this worktree on this branch.
pub open spec fn selects_sessions(
    repo: RepoView,
    sessions: Seq<SessionFileView>,
    here: Seq<SessionFileView>,
) -> bool {
    selects(sessions, |s: SessionFileView| from_here(repo, s), here)
}

// ---------------------------------------------------------------------------
// Which checkpoints are shown
/// A checkpoint ended before the trail starts.
pub open spec fn is_over_by(cp: CheckpointView, since: Timestamp) -> bool {
    cp.ended_at.secs < since.secs || (cp.ended_at.secs == since.secs && cp.ended_at.nanos
        < since.nanos)
}

proof fn lemma_in_window(cps: Seq<CheckpointView>, since: Timestamp)
    ensures
        selects(cps, |cp: CheckpointView| !is_over_by(cp, since), in_window(cps, since)),
    decreases cps.len(),
{
    let pred = |cp: CheckpointView| !is_over_by(cp, since);
    if cps.len() == 0 {
        assert(cps =~= Seq::empty());
        lemma_selects_none(pred);
    } else {
        lemma_in_window(cps.drop_last(), since);
        lemma_selects_last(cps, pred, in_window(cps.drop_last(), since));
    }
}

/// An event shows a checkpoint: when it started, what it holds and what people
/// said of it, and the commit it was work towards, for which the commit that
/// HEAD was seen to move to is looked up.
pub open spec fn shows_checkpoint(
    e: TrailEventView,
    facts: TrailFactsView,
    cp: CheckpointView,
) -> bool {
    let original = if cp.boundary is Some && facts.identities.dom().contains(
        cp.boundary->Some_0.to_head,
    ) {
        Some(facts.identities[cp.boundary->Some_0.to_head])
    } else {
        None
    };
    let found = as_ids(attached(facts.commits, cp.boundary, cp.ended_at, original));
    &&& e.timestamp == Some(cp.started_at)
    &&& e.event_type == (TrailEventTypeView::Checkpoint {
        id: cp.id,
        session_id: cp.session_id,
        title: cp.title,
        annotation: cp.annotation,
        bulk: cp.bulk,
        hidden: cp.hidden,
        boundary: cp.boundary,
        commit: found.0,
        attachment: found.1,
        changes: cp.changes,
    })
    &&& e.files.len() == cp.changes.len()
    &&& forall|i: int| 0 <= i < e.files.len() ==> #[trigger] e.files[i] == cp.changes[i].path
    &&& e.source == cp.source
    &&& e.confidence == cp.confidence
    &&& e.stats is None
    &&& e.staged is None
}

/// Some events show some checkpoints, one each.
pub open spec fn show_checkpoints(
    events: Seq<TrailEventView>,
    facts: TrailFactsView,
    cps: Seq<CheckpointView>,
) -> bool {
    &&& events.len() == cps.len()
    &&& forall|i: int|
        0 <= i < events.len() ==> shows_checkpoint(#[trigger] events[i], facts, cps[i])
}

/// `window` are the checkpoints, with the overlay applied, that did not end
/// before the trail starts.
pub open spec fn is_window(
    repo: RepoView,
    facts: TrailFactsView,
    window: Seq<CheckpointView>,
) -> bool {
    selects(
        applied(facts.metadata, recorded(repo, facts.sessions)),
        |cp: CheckpointView| !is_over_by(cp, facts.since),
        window,
    )
}

// ---------------------------------------------------------------------------
// Commits, files and movements
/// An event shows a commit: when it was made, what it is, and the files it
/// changed.
pub open spec fn shows_commit(e: TrailEventView, c: CommitInfoView) -> bool {
    &&& e.timestamp == Some(c.time)
    &&& e.event_type == (TrailEventTypeView::Commit {
        id: c.id,
        short_id: c.short_id,
        summary: c.summary,
        author: c.author,
        is_merge: c.parent_count >= 2,
    })
    &&& e.files.len() == c.files.len()
    &&& forall|i: int| 0 <= i < e.files.len() ==> #[trigger] e.files[i] == c.files[i].path
    &&& e.source == EventSource::GitCommit
    &&& e.confidence == Confidence::Exact
    &&& e.stats is None
    &&& e.staged is None
}

/// Some events show some commits, one each.
pub open spec fn show_commits(events: Seq<TrailEventView>, commits: Seq<CommitInfoView>) -> bool {
    &&& events.len() == commits.len()
    &&& forall|i: int| 0 <= i < events.len() ==> shows_commit(#[trigger] events[i], commits[i])
}

/// A checkpoint in the window changes a file.
pub open spec fn is_told(window: Seq<CheckpointView>, p: Seq<char>) -> bool {
    exists|i: int, j: int|
        0 <= i < window.len() && 0 <= j < window[i].changes.len() && path::same_path(
            (#[trigger] window[i].changes[j]).path,
            p,
        )
}

/// The last statistics given for a file.
pub open spec fn is_last_stat(
    stats: Seq<FileStatView>,
    p: Seq<char>,
    found: Option<FileStatView>,
) -> bool {
    is_last(stats, |s: FileStatView| path::same_path(s.path, p), found)
}

/// An event shows an uncommitted change of a file: what happened to it, its
/// lines compared with HEAD as last given, whether all of it is staged, and the
/// time the file was modified, which a deleted file has not.
pub open spec fn shows_file(
    e: TrailEventView,
    entry: StatusEntryView,
    facts: TrailFactsView,
) -> bool {
    let kind = entry.effective();
    &&& e.files == seq![entry.path]
    &&& e.confidence == Confidence::Inferred
    &&& e.event_type is FileAdded <==> kind == ChangeKind::Added || kind == ChangeKind::Copied
    &&& e.event_type is FileDeleted <==> kind == ChangeKind::Deleted
    &&& e.event_type is FileRenamed <==> kind == ChangeKind::Renamed
    &&& e.event_type is FileModified <==> kind == ChangeKind::Modified || kind
        == ChangeKind::TypeChanged || kind == ChangeKind::Conflicted
    &&& e.event_type is FileRenamed && entry.orig_path is Some ==> e.event_type->from
        == entry.orig_path->Some_0
    &&& kind == ChangeKind::Deleted ==> e.timestamp is None && e.source == EventSource::WorkingTree
    &&& kind != ChangeKind::Deleted ==> e.source == EventSource::Filesystem && (
    facts.modified.dom().contains(entry.path) ==> e.timestamp == Some(facts.modified[entry.path]))
        && (!facts.modified.dom().contains(entry.path) ==> e.timestamp is None)
    &&& exists|found: Option<FileStatView>| {
        &&& #[trigger] is_last_stat(facts.head_stats, entry.path, found)
        &&& found is None <==> e.stats is None
        &&& found is Some ==> e.stats->Some_0.additions == (match found->Some_0.additions {
            Some(n) => n,
            None => 0,
        }) && e.stats->Some_0.deletions == (match found->Some_0.deletions {
            Some(n) => n,
            None => 0,
        })
    }
    &&& entry.untracked ==> e.staged is None
    &&& !entry.untracked ==> e.staged == Some(entry.staged is Some && entry.unstaged is None)
}

/// Some events show some uncommitted changes, one each.
pub open spec fn show_files(
    events: Seq<TrailEventView>,
    entries: Seq<StatusEntryView>,
    facts: TrailFactsView,
) -> bool {
    &&& events.len() == entries.len()
    &&& forall|i: int|
        0 <= i < events.len() ==> shows_file(#[trigger] events[i], entries[i], facts)
}

/// `rest` are the uncommitted changes that no checkpoint in the window tells
/// of.
pub open spec fn is_untold(
    facts: TrailFactsView,
    window: Seq<CheckpointView>,
    rest: Seq<StatusEntryView>,
) -> bool {
    selects(facts.entries, |e: StatusEntryView| !is_told(window, e.path), rest)
}

/// An event shows a movement of HEAD.
pub open spec fn shows_movement(e: TrailEventView, m: ReflogEntryView) -> bool {
    &&& e.timestamp == Some(m.time)
    &&& e.event_type == (TrailEventTypeView::RefUpdate { action: m.action, message: m.message })
    &&& e.files.len() == 0
    &&& e.source == EventSource::GitReflog
    &&& e.confidence == Confidence::Exact
    &&& e.stats is None
    &&& e.staged is None
}

/// Some events show some movements of HEAD, one each.
pub open spec fn show_movements(
    events: Seq<TrailEventView>,
    movements: Seq<ReflogEntryView>,
) -> bool {
    &&& events.len() == movements.len()
    &&& forall|i: int| 0 <= i < events.len() ==> shows_movement(#[trigger] events[i], movements[i])
}

/// `rest` are the movements of HEAD since the trail starts that made no plain
/// commit.
pub open spec fn is_moved(facts: TrailFactsView, rest: Seq<ReflogEntryView>) -> bool {
    selects(
        reflog_since(facts.reflog, facts.since),
        |m: ReflogEntryView| m.action != "commit"@ && m.action != "commit (initial)"@,
        rest,
    )
}

proof fn lemma_stat_of(stats: Seq<FileStatView>, p: Seq<char>)
    ensures
        is_last_stat(stats, p, stat_of(stats, p)),
    decreases stats.len(),
{
    let pred = |s: FileStatView| path::same_path(s.path, p);
    if stats.len() > 0 {
        if path::same_path(stats.last().path, p) {
            lemma_last_here(stats, pred);
        } else {
            lemma_stat_of(stats.drop_last(), p);
            lemma_last_earlier(stats, pred, stat_of(stats, p));
        }
    }
}

proof fn lemma_shows_file(entry: StatusEntryView, facts: TrailFactsView)
    ensures
        shows_file(file_event(entry, facts.head_stats, facts.modified), entry, facts),
{
    lemma_stat_of(facts.head_stats, entry.path);
    let e = file_event(entry, facts.head_stats, facts.modified);
    let found = stat_of(facts.head_stats, entry.path);
    assert(is_last_stat(facts.head_stats, entry.path, found));
}

proof fn lemma_file_events(
    entries: Seq<StatusEntryView>,
    window: Seq<CheckpointView>,
    facts: TrailFactsView,
) -> (rest: Seq<StatusEntryView>)
    ensures
        selects(entries, |e: StatusEntryView| !is_told(window, e.path), rest),
        show_files(
            file_events(entries, window, facts.head_stats, facts.modified),
            rest,
            facts,
        ),
    decreases entries.len(),
{
    let pred = |e: StatusEntryView| !is_told(window, e.path);
    if entries.len() == 0 {
        assert(entries =~= Seq::empty());
        lemma_selects_none(pred);
        Seq::empty()
    } else {
        let last = entries.last();
        let before = lemma_file_events(entries.drop_last(), window, facts);
        lemma_selects_last(entries, pred, before);
        lemma_shows_file(last, facts);
        assert(is_told(window, last.path) == covers(window, last.path));
        if is_told(window, last.path) {
            before
        } else {
            before.push(last)
        }
    }
}

proof fn lemma_reflog_events(entries: Seq<ReflogEntryView>) -> (rest: Seq<ReflogEntryView>)
    ensures
        selects(
            entries,
            |m: ReflogEntryView| m.action != "commit"@ && m.action != "commit (initial)"@,
            rest,
        ),
        show_movements(reflog_events(entries), rest),
    decreases entries.len(),
{
    let pred = |m: ReflogEntryView| m.action != "commit"@ && m.action != "commit (initial)"@;
    if entries.len() == 0 {
        assert(entries =~= Seq::empty());
        lemma_selects_none(pred);
        Seq::empty()
    } else {
        let last = entries.last();
        let before = lemma_reflog_events(entries.drop_last());
        lemma_selects_last(entries, pred, before);
        if pred(last) {
            before.push(last)
        } else {
            before
        }
    }
}

// ---------------------------------------------------------------------------
// The timeline
/// The parts a timeline is made of.
pub struct Parts {
    pub window: Seq<CheckpointView>,
    pub untold: Seq<StatusEntryView>,
    pub moved: Seq<ReflogEntryView>,
    pub commits: Seq<TrailEventView>,
    pub checkpoints: Seq<TrailEventView>,
    pub files: Seq<TrailEventView>,
    pub movements: Seq<TrailEventView>,
}

/// The events of a timeline: every commit; every checkpoint recorded here that
/// did not end before the trail starts; every uncommitted change that no such
/// checkpoint tells of; and, in detail, every movement of HEAD since then that
/// made no plain commit.
pub open spec fn is_made_of(
    events: Seq<TrailEventView>,
    repo: RepoView,
    scope: Scope,
    facts: TrailFactsView,
    parts: Parts,
) -> bool {
    &&& is_window(repo, facts, parts.window)
    &&& is_untold(facts, parts.window, parts.untold)
    &&& show_commits(parts.commits, facts.commits)
    &&& show_checkpoints(parts.checkpoints, facts, parts.window)
    &&& show_files(parts.files, parts.untold, facts)
    &&& show_movements(parts.movements, parts.moved)
    &&& match scope {
        Scope::Detailed => is_moved(facts, parts.moved),
        Scope::Overview => parts.moved.len() == 0,
    }
    &&& events.to_multiset() == (parts.commits + parts.checkpoints + parts.files
        + parts.movements).to_multiset()
}

/// A trail shows every commit, every checkpoint that did not end before it
/// starts, every uncommitted change that these do not tell of, and, in detail,
/// the movements of HEAD: all of them, each once, and nothing else.
#[verifier::rlimit(40)]
pub proof fn lemma_what_a_trail_shows(
    repo: RepoView,
    base: BaseRefView,
    baseline: BaselineView,
    scope: Scope,
    facts: TrailFactsView,
) -> (parts: Parts)
    ensures
        is_made_of(
            trail_of(repo, base, baseline, scope, facts).events,
            repo,
            scope,
            facts,
            parts,
        ),
{
    lemma_in_window(applied(facts.metadata, recorded(repo, facts.sessions)), facts.since);
    let window = shown_checkpoints(repo, facts);
    let untold = lemma_file_events(facts.entries, window, facts);
    let all_moved = lemma_reflog_events(reflog_since(facts.reflog, facts.since));
    let detailed = scope == Scope::Detailed;
    let parts = Parts {
        window,
        untold,
        moved: if detailed {
            all_moved
        } else {
            Seq::empty()
        },
        commits: commit_events(facts.commits),
        checkpoints: checkpoint_events(facts.commits, facts.identities, window),
        files: file_events(facts.entries, window, facts.head_stats, facts.modified),
        movements: if detailed {
            reflog_events(reflog_since(facts.reflog, facts.since))
        } else {
            Seq::empty()
        },
    };
    lemma_timeline_is_complete(repo, scope, facts);
    assert forall|i: int| 0 <= i < parts.commits.len() implies shows_commit(
        #[trigger] parts.commits[i],
        facts.commits[i],
    ) by {
        assert(parts.commits[i] == commit_event(facts.commits[i]));
    }
    assert forall|i: int| 0 <= i < parts.checkpoints.len() implies shows_checkpoint(
        #[trigger] parts.checkpoints[i],
        facts,
        window[i],
    ) by {
        assert(parts.checkpoints[i] == checkpoint_event(
            facts.commits,
            facts.identities,
            window[i],
        ));
    }
    assert(gathered(repo, scope, facts) == parts.commits + parts.checkpoints + parts.files
        + parts.movements);
    parts
}

proof fn lemma_same_events(
    a: Seq<TrailEventView>,
    b: Seq<TrailEventView>,
    e: TrailEventView,
)
    requires
        a.to_multiset() == b.to_multiset(),
    ensures
        a.contains(e) == b.contains(e),
{
    broadcast use vstd::seq_lib::group_to_multiset_ensures;

    assert(a.contains(e) == (a.to_multiset().count(e) > 0));
    assert(b.contains(e) == (b.to_multiset().count(e) > 0));
}

proof fn lemma_checkpoint_event_shows(
    events: Seq<TrailEventView>,
    repo: RepoView,
    scope: Scope,
    facts: TrailFactsView,
    parts: Parts,
    i: int,
) -> (k: int)
    requires
        is_made_of(events, repo, scope, facts, parts),
        0 <= i < events.len(),
        events[i].event_type is Checkpoint,
    ensures
        0 <= k < applied(facts.metadata, recorded(repo, facts.sessions)).len(),
        ({
            let cp = applied(facts.metadata, recorded(repo, facts.sessions))[k];
            !is_over_by(cp, facts.since) && shows_checkpoint(events[i], facts, cp)
        }),
{
    let cps = applied(facts.metadata, recorded(repo, facts.sessions));
    let pred = |cp: CheckpointView| !is_over_by(cp, facts.since);
    let all = parts.commits + parts.checkpoints + parts.files + parts.movements;
    let a = parts.commits.len() as int;
    let b = parts.checkpoints.len() as int;
    let c = parts.files.len() as int;
    lemma_selects_contains(cps, pred, parts.window);
    lemma_same_events(events, all, events[i]);
    let j = choose|j: int| 0 <= j < all.len() && all[j] == events[i];
    if j < a {
        assert(shows_commit(parts.commits[j], facts.commits[j]));
        0
    } else if j < a + b {
        let m = j - a;
        assert(all[j] == parts.checkpoints[m]);
        assert(shows_checkpoint(parts.checkpoints[m], facts, parts.window[m]));
        assert(pred(parts.window[m]));
        choose|k: int| 0 <= k < cps.len() && #[trigger] cps[k] == parts.window[m]
    } else if j < a + b + c {
        let m = j - a - b;
        assert(all[j] == parts.files[m]);
        assert(shows_file(parts.files[m], parts.untold[m], facts));
        0
    } else {
        let m = j - a - b - c;
        assert(all[j] == parts.movements[m]);
        assert(shows_movement(parts.movements[m], parts.moved[m]));
        0
    }
}

proof fn lemma_checkpoint_is_shown(
    events: Seq<TrailEventView>,
    repo: RepoView,
    scope: Scope,
    facts: TrailFactsView,
    parts: Parts,
    k: int,
) -> (i: int)
    requires
        is_made_of(events, repo, scope, facts, parts),
        0 <= k < applied(facts.metadata, recorded(repo, facts.sessions)).len(),
        !is_over_by(applied(facts.metadata, recorded(repo, facts.sessions))[k], facts.since),
    ensures
        0 <= i < events.len(),
        shows_checkpoint(
            events[i],
            facts,
            applied(facts.metadata, recorded(repo, facts.sessions))[k],
        ),
{
    let cps = applied(facts.metadata, recorded(repo, facts.sessions));
    let pred = |cp: CheckpointView| !is_over_by(cp, facts.since);
    let all = parts.commits + parts.checkpoints + parts.files + parts.movements;
    lemma_selects_contains(cps, pred, parts.window);
    assert(pred(cps[k]));
    let m = choose|m: int| 0 <= m < parts.window.len() && parts.window[m] == cps[k];
    let e = parts.checkpoints[m];
    assert(shows_checkpoint(e, facts, parts.window[m]));
    assert(all[parts.commits.len() + m] == e);
    lemma_same_events(events, all, e);
    choose|i: int| 0 <= i < events.len() && events[i] == e
}

/// A checkpoint is shown exactly when it did not end before the trail starts.
/// Every checkpoint event shows such a checkpoint, and every such checkpoint is
/// shown.
#[verifier::rlimit(40)]
pub proof fn lemma_trails_start_at_their_baseline(
    repo: RepoView,
    base: BaseRefView,
    baseline: BaselineView,
    scope: Scope,
    facts: TrailFactsView,
)
    ensures
        ({
            let events = trail_of(repo, base, baseline, scope, facts).events;
            let cps = applied(facts.metadata, recorded(repo, facts.sessions));
            &&& forall|i: int|
                0 <= i < events.len() && (#[trigger] events[i]).event_type is Checkpoint
                    ==> exists|k: int|
                    0 <= k < cps.len() && !is_over_by(cps[k], facts.since) && shows_checkpoint(
                        events[i],
                        facts,
                        #[trigger] cps[k],
                    )
            &&& forall|k: int|
                0 <= k < cps.len() && !is_over_by(#[trigger] cps[k], facts.since) ==> exists|
                    i: int,
                |
                    0 <= i < events.len() && shows_checkpoint(
                        #[trigger] events[i],
                        facts,
                        cps[k],
                    )
        }),
{
    let parts = lemma_what_a_trail_shows(repo, base, baseline, scope, facts);
    let events = trail_of(repo, base, baseline, scope, facts).events;
    let cps = applied(facts.metadata, recorded(repo, facts.sessions));
    assert forall|i: int|
        0 <= i < events.len() && (#[trigger] events[i]).event_type is Checkpoint implies exists|
        k: int,
    |
        0 <= k < cps.len() && !is_over_by(cps[k], facts.since) && shows_checkpoint(
            events[i],
            facts,
            #[trigger] cps[k],
        ) by {
        let k = lemma_checkpoint_event_shows(events, repo, scope, facts, parts, i);
        assert(shows_checkpoint(events[i], facts, cps[k]));
    }
    assert forall|k: int|
        0 <= k < cps.len() && !is_over_by(#[trigger] cps[k], facts.since) implies exists|i: int|
        0 <= i < events.len() && shows_checkpoint(#[trigger] events[i], facts, cps[k]) by {
        let i = lemma_checkpoint_is_shown(events, repo, scope, facts, parts, k);
        assert(shows_checkpoint(events[i], facts, cps[k]));
    }
}

// ---------------------------------------------------------------------------
// In which order
/// `k` is where an id first stands in a chosen reading order.
pub open spec fn stands_at(order: Seq<Seq<char>>, id: Seq<char>, k: int) -> bool {
    &&& 0 <= k < order.len()
    &&& order[k] == id
    &&& forall|j: int| 0 <= j < k ==> #[trigger] order[j] != id
}

/// The place of a checkpoint in a chosen reading order.
pub open spec fn has_place(e: TrailEventView, order: Seq<Seq<char>>, k: int) -> bool {
    e.event_type is Checkpoint && stands_at(order, e.event_type->Checkpoint_id, k)
}

/// A checkpoint has a place in a chosen reading order.
pub open spec fn is_placed(e: TrailEventView, order: Seq<Seq<char>>) -> bool {
    exists|k: int| has_place(e, order, k)
}

spec fn place_before(e: TrailEventView, order: Seq<Seq<char>>, n: int, k: int) -> bool {
    0 <= k < n && has_place(e, order, k) && has_place(e, order.drop_last(), k)
}

spec fn placed_before(e: TrailEventView, order: Seq<Seq<char>>, n: int) -> bool {
    exists|k: int| place_before(e, order, n, k)
}

/// Events in the order in which they happened, those without a time at the end.
pub open spec fn is_chronological(events: Seq<TrailEventView>) -> bool {
    forall|i: int, j: int|
        0 <= i < j < events.len() ==> match (
            (#[trigger] events[i]).timestamp,
            (#[trigger] events[j]).timestamp,
        ) {
            (Some(a), Some(b)) => a.secs < b.secs || (a.secs == b.secs && a.nanos <= b.nanos),
            (None, Some(_)) => false,
            (_, None) => true,
        }
}

proof fn lemma_place_kept(order: Seq<Seq<char>>, id: Seq<char>, k: int)
    requires
        order.len() > 0,
        stands_at(order.drop_last(), id, k),
    ensures
        stands_at(order, id, k),
{
    assert forall|j: int| 0 <= j < k implies #[trigger] order[j] != id by {
        assert(order.drop_last()[j] == order[j]);
    }
    assert(order.drop_last()[k] == order[k]);
}

proof fn lemma_with_id(events: Seq<TrailEventView>, id: Seq<char>)
    ensures
        forall|i: int|
            0 <= i < with_id(events, id).len() ==> (#[trigger] with_id(
                events,
                id,
            )[i]).event_type is Checkpoint && with_id(
                events,
                id,
            )[i].event_type->Checkpoint_id == id,
    decreases events.len(),
{
    if events.len() > 0 {
        lemma_with_id(events.drop_last(), id);
    }
}

#[verifier::rlimit(40)]
proof fn lemma_chosen_places(events: Seq<TrailEventView>, order: Seq<Seq<char>>)
    ensures
        forall|p: int|
            0 <= p < in_chosen_order(events, order).len() ==> is_placed(
                #[trigger] in_chosen_order(events, order)[p],
                order,
            ),
        forall|p: int, q: int, k: int, m: int|
            0 <= p < q < in_chosen_order(events, order).len() && #[trigger] has_place(
                in_chosen_order(events, order)[p],
                order,
                k,
            ) && #[trigger] has_place(in_chosen_order(events, order)[q], order, m) ==> k <= m,
    decreases order.len(),
{
    if order.len() > 0 {
        let rest = order.drop_last();
        let n = order.len() - 1;
        let id = order.last();
        let before = in_chosen_order(events, rest);
        let more = with_id(events, id);
        let after = in_chosen_order(events, order);
        lemma_chosen_places(events, rest);
        lemma_with_id(events, id);
        assert(order[n] == id);
        assert forall|p: int| 0 <= p < before.len() implies placed_before(
            #[trigger] before[p],
            order,
            n,
        ) by {
            assert(is_placed(before[p], rest));
            let k = choose|k: int| has_place(before[p], rest, k);
            lemma_place_kept(order, before[p].event_type->Checkpoint_id, k);
            assert(place_before(before[p], order, n, k));
        }
        if rest.contains(id) {
            assert(after == before);
            assert forall|p: int| 0 <= p < after.len() implies is_placed(
                #[trigger] after[p],
                order,
            ) by {
                let k = choose|k: int| place_before(before[p], order, n, k);
                assert(has_place(after[p], order, k));
            }
            assert forall|p: int, q: int, k: int, m: int|
                0 <= p < q < after.len() && #[trigger] has_place(after[p], order, k)
                    && #[trigger] has_place(after[q], order, m) implies k <= m by {
                let k2 = choose|k2: int| place_before(before[p], order, n, k2);
                let m2 = choose|m2: int| place_before(before[q], order, n, m2);
                lemma_one_place(order, before[p].event_type->Checkpoint_id, k, k2);
                lemma_one_place(order, before[q].event_type->Checkpoint_id, m, m2);
            }
        } else {
            assert forall|p: int| before.len() <= p < after.len() implies #[trigger] has_place(
                after[p],
                order,
                n,
            ) by {
                assert(after[p] == more[p - before.len()]);
                assert forall|j: int| 0 <= j < n implies #[trigger] order[j] != id by {
                    assert(rest[j] == order[j]);
                }
            }
            assert forall|p: int| 0 <= p < after.len() implies is_placed(
                #[trigger] after[p],
                order,
            ) by {
                if p < before.len() {
                    assert(after[p] == before[p]);
                    let k = choose|k: int| place_before(before[p], order, n, k);
                    assert(has_place(after[p], order, k));
                } else {
                    assert(has_place(after[p], order, n));
                }
            }
            assert forall|p: int, q: int, k: int, m: int|
                0 <= p < q < after.len() && #[trigger] has_place(after[p], order, k)
                    && #[trigger] has_place(after[q], order, m) implies k <= m by {
                if p < before.len() {
                    assert(after[p] == before[p]);
                    let k2 = choose|k2: int| place_before(before[p], order, n, k2);
                    lemma_one_place(order, before[p].event_type->Checkpoint_id, k, k2);
                    if q < before.len() {
                        assert(after[q] == before[q]);
                        let m2 = choose|m2: int| place_before(before[q], order, n, m2);
                        lemma_one_place(order, before[q].event_type->Checkpoint_id, m, m2);
                    } else {
                        assert(has_place(after[q], order, n));
                        lemma_one_place(order, after[q].event_type->Checkpoint_id, m, n);
                    }
                } else {
                    assert(has_place(after[p], order, n));
                    assert(has_place(after[q], order, n));
                    lemma_one_place(order, after[p].event_type->Checkpoint_id, k, n);
                    lemma_one_place(order, after[q].event_type->Checkpoint_id, m, n);
                }
            }
        }
    }
}

proof fn lemma_one_place(order: Seq<Seq<char>>, id: Seq<char>, a: int, b: int)
    requires
        stands_at(order, id, a),
        stands_at(order, id, b),
    ensures
        a == b,
{
    if a < b {
        assert(order[a] != id);
    } else if b < a {
        assert(order[b] != id);
    }
}

/// The listed events stand among themselves as they do among all.
proof fn lemma_listed_at(events: Seq<TrailEventView>, order: Seq<Seq<char>>, i: int)
    requires
        0 <= i < events.len(),
        listed(events[i], order),
    ensures
        listed_in(events.take(i), order).len() < listed_in(events, order).len(),
        listed_in(events, order)[listed_in(events.take(i), order).len() as int] == events[i],
    decreases events.len(),
{
    let rest = events.drop_last();
    if i == rest.len() {
        assert(events.take(i) =~= rest);
    } else {
        assert(rest.take(i) =~= events.take(i));
        assert(rest[i] == events[i]);
        lemma_listed_at(rest, order, i);
    }
}

proof fn lemma_listed_grows(events: Seq<TrailEventView>, order: Seq<Seq<char>>, i: int, j: int)
    requires
        0 <= i < j <= events.len(),
        listed(events[i], order),
    ensures
        listed_in(events.take(i), order).len() < listed_in(events.take(j), order).len(),
    decreases j,
{
    let head = events.take(j);
    assert(head.drop_last() =~= events.take(j - 1));
    assert(head.last() == events[j - 1]);
    if i < j - 1 {
        lemma_listed_grows(events, order, i, j - 1);
    }
}

proof fn lemma_listed_has_place(e: TrailEventView, order: Seq<Seq<char>>)
    ensures
        listed(e, order) <==> is_placed(e, order),
{
    if is_placed(e, order) {
        let k = choose|k: int| has_place(e, order, k);
        assert(order[k] == e.event_type->Checkpoint_id);
        assert(order.contains(order[k]));
    }
    if listed(e, order) {
        lemma_first_place(order, e.event_type->Checkpoint_id);
        let k = choose|k: int| stands_at(order, e.event_type->Checkpoint_id, k);
        assert(has_place(e, order, k));
    }
}

proof fn lemma_first_place(order: Seq<Seq<char>>, id: Seq<char>)
    requires
        order.contains(id),
    ensures
        exists|k: int| stands_at(order, id, k),
    decreases order.len(),
{
    let rest = order.drop_last();
    if rest.contains(id) {
        lemma_first_place(rest, id);
        let k = choose|k: int| stands_at(rest, id, k);
        lemma_place_kept(order, id, k);
    } else {
        let i = choose|i: int| 0 <= i < order.len() && order[i] == id;
        if i < rest.len() {
            assert(rest[i] == id);
        }
        assert forall|j: int| 0 <= j < order.len() - 1 implies #[trigger] order[j] != id by {
            assert(rest[j] == order[j]);
        }
        assert(stands_at(order, id, order.len() - 1));
    }
}

/// `by_time` is a timeline as it happened, and `events` as it is read: the
/// checkpoints that have a place in the chosen order stand in that order, on the
/// places they take up together; everything else stands where it did.
pub open spec fn is_read_as_chosen(
    by_time: Seq<TrailEventView>,
    events: Seq<TrailEventView>,
    order: Seq<Seq<char>>,
) -> bool {
    &&& is_chronological(by_time)
    &&& events.len() == by_time.len()
    &&& events.to_multiset() == by_time.to_multiset()
    &&& forall|i: int|
        0 <= i < events.len() && !is_placed(by_time[i], order)
            ==> #[trigger] events[i] == by_time[i]
    &&& forall|i: int, j: int, k: int, m: int|
        0 <= i < j < events.len() && #[trigger] has_place(events[i], order, k)
            && #[trigger] has_place(events[j], order, m) ==> k <= m
}

/// A trail is read in the order in which things happened, but for the
/// checkpoints whose reading order was chosen.
#[verifier::rlimit(40)]
pub proof fn lemma_trails_are_read_in_order(
    repo: RepoView,
    base: BaseRefView,
    baseline: BaselineView,
    scope: Scope,
    facts: TrailFactsView,
)
    ensures
        exists|by_time: Seq<TrailEventView>|
            is_read_as_chosen(
                by_time,
                trail_of(repo, base, baseline, scope, facts).events,
                facts.metadata.order,
            ),
        facts.metadata.order.len() == 0 ==> is_chronological(
            trail_of(repo, base, baseline, scope, facts).events,
        ),
{
    let order = facts.metadata.order;
    let events = trail_of(repo, base, baseline, scope, facts).events;
    let all = gathered(repo, scope, facts);
    let by_time = sorted::<TrailEvent, ByTime>(all);
    lemma_sorted::<TrailEvent, ByTime>(all);
    lemma_reordering_permutes(by_time, order);
    lemma_chosen_order_is_read(by_time, order);
    lemma_chosen_places(by_time, order);
    assert(is_chronological(by_time)) by {
        assert forall|i: int, j: int| 0 <= i < j < by_time.len() implies match (
            (#[trigger] by_time[i]).timestamp,
            (#[trigger] by_time[j]).timestamp,
        ) {
            (Some(a), Some(b)) => a.secs < b.secs || (a.secs == b.secs && a.nanos <= b.nanos),
            (None, Some(_)) => false,
            (_, None) => true,
        } by {
            assert(!<ByTime as crate::order::Order<TrailEvent>>::lt(by_time[j], by_time[i]));
        }
    }
    assert forall|i: int|
        0 <= i < events.len() && !is_placed(by_time[i], order)
            implies #[trigger] events[i] == by_time[i] by {
        lemma_listed_has_place(by_time[i], order);
        assert(!listed(by_time[i], order));
    }
    let queue = in_chosen_order(by_time, order);
    assert forall|i: int, j: int, k: int, m: int|
        0 <= i < j < events.len() && #[trigger] has_place(events[i], order, k)
            && #[trigger] has_place(events[j], order, m) implies k <= m by {
        lemma_listed_has_place(events[i], order);
        lemma_listed_has_place(events[j], order);
        lemma_listed_at(events, order, i);
        lemma_listed_at(events, order, j);
        lemma_listed_grows(events, order, i, j);
        let p = listed_in(events.take(i), order).len() as int;
        let q = listed_in(events.take(j), order).len() as int;
        assert(queue[p] == events[i] && queue[q] == events[j]);
        assert(has_place(queue[p], order, k) && has_place(queue[q], order, m));
    }
    assert(is_read_as_chosen(by_time, events, order));
    if order.len() == 0 {
        assert forall|i: int| 0 <= i < events.len() implies #[trigger] events[i]
            == by_time[i] by {
            assert(!is_placed(by_time[i], order));
        }
        assert(events =~= by_time);
    }
}

// ---------------------------------------------------------------------------
// The summary
proof fn lemma_counted(events: Seq<TrailEventView>)
    ensures
        changes_in(events) == events.filter(
            |e: TrailEventView| !(e.event_type is RefUpdate),
        ).len(),
        checkpoints_in(events) == events.filter(
            |e: TrailEventView| e.event_type is Checkpoint && !e.event_type->Checkpoint_hidden,
        ).len(),
        uncommitted_in(events) == events.filter(
            |e: TrailEventView|
                e.event_type is Checkpoint && !e.event_type->Checkpoint_hidden
                    && e.event_type->commit is None,
        ).len(),
        changes_in(events) <= events.len(),
        checkpoints_in(events) <= events.len(),
        uncommitted_in(events) <= events.len(),
    decreases events.len(),
{
    reveal(Seq::filter);
    if events.len() > 0 {
        lemma_counted(events.drop_last());
    }
}

/// The summary of a trail counts its events, movements of HEAD left out; its
/// checkpoints, hidden ones left out; those of them that belong to no commit;
/// its commits; and the files and lines that differ from the baseline.
pub proof fn lemma_summaries_count_what_is_shown(
    repo: RepoView,
    base: BaseRefView,
    baseline: BaselineView,
    scope: Scope,
    facts: TrailFactsView,
)
    requires
        trail_of(repo, base, baseline, scope, facts).events.len() <= usize::MAX,
        facts.base_stats.len() <= usize::MAX,
        facts.commits.len() <= usize::MAX,
        summable(facts.base_stats),
    ensures
        ({
            let trail = trail_of(repo, base, baseline, scope, facts);
            let s = trail.summary;
            &&& s.changes == trail.events.filter(
                |e: TrailEventView| !(e.event_type is RefUpdate),
            ).len()
            &&& s.checkpoints == trail.events.filter(
                |e: TrailEventView|
                    e.event_type is Checkpoint && !e.event_type->Checkpoint_hidden,
            ).len()
            &&& s.uncommitted_checkpoints == trail.events.filter(
                |e: TrailEventView|
                    e.event_type is Checkpoint && !e.event_type->Checkpoint_hidden
                        && e.event_type->commit is None,
            ).len()
            &&& s.commits == facts.commits.len()
            &&& s.files_changed == facts.base_stats.len()
            &&& s.additions == sum_additions(facts.base_stats)
            &&& s.deletions == sum_deletions(facts.base_stats)
        }),
{
    lemma_counted(trail_of(repo, base, baseline, scope, facts).events);
    crate::git::diff::lemma_sum_take(facts.base_stats, 0);
    assert(facts.base_stats.take(0) =~= Seq::empty());
}

/// A trail says where it was recorded: in which repository and worktree, on
/// which branch, against which base, and from where on.
pub proof fn lemma_trails_say_where_they_are_from(
    repo: RepoView,
    base: BaseRefView,
    baseline: BaselineView,
    scope: Scope,
    facts: TrailFactsView,
)
    ensures
        ({
            let r = trail_of(repo, base, baseline, scope, facts).repository;
            &&& r.name == repo.name
            &&& r.head == repo.head
            &&& r.base == base.name
            &&& r.merge_base == facts.short_merge_base
            &&& r.since == baseline
            &&& r.worktree == repo.worktree
            &&& r.shallow == repo.is_shallow
        }),
{
}

} // verus!
