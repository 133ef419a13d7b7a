//! What holds of every trail.

use super::builder::{
    checkpoint_event, checkpoint_events, commit_event, commit_events, file_event, file_events,
    gathered, in_window, lemma_no_order_is_chronological, lemma_reordering_permutes, recorded,
    reflog_event, reflog_events, shown_checkpoints, timeline, ByTime, Scope, TrailFactsView,
};
use super::event::{Confidence, EventSource, TrailEvent, TrailEventTypeView, TrailEventView};
use crate::display::terminal::{all_drawable, drawable};
use crate::git::diff::{FileStatView, StatusEntryView};
use crate::git::history::{reflog_since, ReflogEntryView};
use crate::git::repository::RepoView;
use crate::order::{in_order, lemma_sorted, sorted};
use crate::recorder::checkpoint::{
    checkpoints_of, lemma_checkpoints_well_made, well_made, CheckpointView, FileChangeView,
};
use crate::recorder::metadata::{
    applied, described, leaving_all, non_empty, placed_all, regrouped, stripped, MetadataView,
};
use crate::recorder::store::SessionFileView;
use crate::time::Timestamp;
use vstd::prelude::*;

verus! {

/// An event says where it comes from and how far its time can be trusted:
/// commits, movements of HEAD and recorded checkpoints are exact and have a
/// time; a change in the working tree names its one file, and when it happened
/// is only inferred.
pub open spec fn well_sourced(e: TrailEventView) -> bool {
    match e.event_type {
        TrailEventTypeView::Commit { id, short_id, summary, author, is_merge } => {
            &&& e.source == EventSource::GitCommit
            &&& e.confidence == Confidence::Exact
            &&& e.timestamp is Some
        },
        TrailEventTypeView::RefUpdate { action, message } => {
            &&& e.source == EventSource::GitReflog
            &&& e.confidence == Confidence::Exact
            &&& e.timestamp is Some
        },
        TrailEventTypeView::Checkpoint {
            id,
            session_id,
            title,
            annotation,
            bulk,
            hidden,
            boundary,
            commit,
            attachment,
            changes,
        } => {
            &&& e.source == EventSource::TrailRecorder
            &&& e.confidence == Confidence::Exact
            &&& e.timestamp is Some
        },
        _ => {
            &&& e.source == EventSource::WorkingTree || e.source == EventSource::Filesystem
            &&& e.confidence == Confidence::Inferred
            &&& e.files.len() == 1
        },
    }
}

pub open spec fn all_well_sourced(events: Seq<TrailEventView>) -> bool {
    forall|i: int| 0 <= i < events.len() ==> well_sourced(#[trigger] events[i])
}

spec fn exact(cp: CheckpointView) -> bool {
    cp.source == EventSource::TrailRecorder && cp.confidence == Confidence::Exact
}

spec fn all_exact(cps: Seq<CheckpointView>) -> bool {
    forall|i: int| 0 <= i < cps.len() ==> exact(#[trigger] cps[i])
}

proof fn lemma_placed_exact(cps: Seq<CheckpointView>, moved: Seq<(Seq<char>, FileChangeView)>)
    requires
        all_exact(cps),
    ensures
        all_exact(placed_all(cps, moved)),
    decreases moved.len(),
{
    if moved.len() > 0 {
        lemma_placed_exact(cps, moved.drop_last());
        let before = placed_all(cps, moved.drop_last());
        let after = placed_all(cps, moved);
        assert(after.len() == before.len());
        assert forall|i: int| 0 <= i < after.len() implies exact(#[trigger] after[i]) by {
            assert(exact(before[i]));
        }
    }
}

proof fn lemma_non_empty_exact(cps: Seq<CheckpointView>)
    requires
        all_exact(cps),
    ensures
        all_exact(non_empty(cps)),
    decreases cps.len(),
{
    if cps.len() > 0 {
        let rest = cps.drop_last();
        assert forall|i: int| 0 <= i < rest.len() implies exact(#[trigger] rest[i]) by {
            assert(exact(cps[i]));
        }
        lemma_non_empty_exact(rest);
        assert(exact(cps[cps.len() - 1]));
    }
}

proof fn lemma_applied_exact(m: MetadataView, cps: Seq<CheckpointView>)
    requires
        all_exact(cps),
    ensures
        all_exact(applied(m, cps)),
{
    let said = cps.map_values(|cp: CheckpointView| described(m, cp));
    assert forall|i: int| 0 <= i < said.len() implies exact(#[trigger] said[i]) by {
        assert(exact(cps[i]));
    }
    if m.moves.len() > 0 {
        let kept = said.map_values(|cp: CheckpointView| stripped(m.moves, cp));
        assert forall|i: int| 0 <= i < kept.len() implies exact(#[trigger] kept[i]) by {
            assert(exact(said[i]));
        }
        let shown = placed_all(kept, leaving_all(m.moves, said));
        lemma_placed_exact(kept, leaving_all(m.moves, said));
        let done = shown.map_values(|cp: CheckpointView| regrouped(cp));
        assert forall|i: int| 0 <= i < done.len() implies exact(#[trigger] done[i]) by {
            assert(exact(shown[i]));
        }
        lemma_non_empty_exact(done);
    }
}

proof fn lemma_recorded_exact(repo: RepoView, sessions: Seq<SessionFileView>)
    ensures
        all_exact(recorded(repo, sessions)),
    decreases sessions.len(),
{
    if sessions.len() > 0 {
        lemma_recorded_exact(repo, sessions.drop_last());
        let s = sessions.last();
        let before = recorded(repo, sessions.drop_last());
        let more = checkpoints_of(s.header.session_id, s.records);
        let after = recorded(repo, sessions);
        lemma_checkpoints_well_made(s.header.session_id, s.records);
        assert forall|i: int| 0 <= i < after.len() implies exact(#[trigger] after[i]) by {
            if i < before.len() {
                assert(exact(before[i]));
            } else {
                assert(after[i] == more[i - before.len()]);
                assert(well_made(s.header.session_id, more[i - before.len()]));
            }
        }
    }
}

proof fn lemma_window_exact(cps: Seq<CheckpointView>, since: Timestamp)
    requires
        all_exact(cps),
    ensures
        all_exact(in_window(cps, since)),
    decreases cps.len(),
{
    if cps.len() > 0 {
        let rest = cps.drop_last();
        assert forall|i: int| 0 <= i < rest.len() implies exact(#[trigger] rest[i]) by {
            assert(exact(cps[i]));
        }
        lemma_window_exact(rest, since);
        assert(exact(cps[cps.len() - 1]));
    }
}

proof fn lemma_files_sourced(
    entries: Seq<StatusEntryView>,
    cps: Seq<CheckpointView>,
    stats: Seq<FileStatView>,
    modified: Map<Seq<char>, Timestamp>,
)
    ensures
        all_well_sourced(file_events(entries, cps, stats, modified)),
    decreases entries.len(),
{
    if entries.len() > 0 {
        lemma_files_sourced(entries.drop_last(), cps, stats, modified);
        assert(well_sourced(file_event(entries.last(), stats, modified)));
    }
}

proof fn lemma_reflog_sourced(entries: Seq<ReflogEntryView>)
    ensures
        all_well_sourced(reflog_events(entries)),
    decreases entries.len(),
{
    if entries.len() > 0 {
        lemma_reflog_sourced(entries.drop_last());
        assert(well_sourced(reflog_event(entries.last())));
    }
}

proof fn lemma_gathered_sourced(repo: RepoView, scope: Scope, facts: TrailFactsView)
    ensures
        all_well_sourced(gathered(repo, scope, facts)),
{
    let cps = shown_checkpoints(repo, facts);
    lemma_recorded_exact(repo, facts.sessions);
    lemma_applied_exact(facts.metadata, recorded(repo, facts.sessions));
    lemma_window_exact(applied(facts.metadata, recorded(repo, facts.sessions)), facts.since);
    lemma_files_sourced(facts.entries, cps, facts.head_stats, facts.modified);
    lemma_reflog_sourced(reflog_since(facts.reflog, facts.since));
    let a = commit_events(facts.commits);
    let b = checkpoint_events(facts.commits, facts.identities, cps);
    assert forall|i: int| 0 <= i < a.len() implies well_sourced(#[trigger] a[i]) by {
        assert(a[i] == commit_event(facts.commits[i]));
    }
    assert forall|i: int| 0 <= i < b.len() implies well_sourced(#[trigger] b[i]) by {
        assert(exact(cps[i]));
        assert(b[i] == checkpoint_event(facts.commits, facts.identities, cps[i]));
    }
}

/// The timeline of a trail holds exactly the events that were gathered, each
/// as often as it was. In the order they are in by time, unless a reading order
/// was chosen.
pub proof fn lemma_timeline_is_complete(repo: RepoView, scope: Scope, facts: TrailFactsView)
    ensures
        timeline(repo, scope, facts).to_multiset() =~= gathered(repo, scope, facts).to_multiset(),
        facts.metadata.order.len() == 0 ==> in_order::<TrailEvent, ByTime>(
            timeline(repo, scope, facts),
        ),
{
    let by_time = sorted::<TrailEvent, ByTime>(gathered(repo, scope, facts));
    lemma_sorted::<TrailEvent, ByTime>(gathered(repo, scope, facts));
    lemma_reordering_permutes(by_time, facts.metadata.order);
    if facts.metadata.order.len() == 0 {
        assert(facts.metadata.order =~= Seq::empty());
        lemma_no_order_is_chronological(by_time);
    }
}

/// Every event of a trail says where it comes from and how far its time can be
/// trusted.
pub proof fn lemma_events_are_sourced(repo: RepoView, scope: Scope, facts: TrailFactsView)
    ensures
        all_well_sourced(timeline(repo, scope, facts)),
{
    broadcast use vstd::seq_lib::group_to_multiset_ensures;

    let all = gathered(repo, scope, facts);
    let shown = timeline(repo, scope, facts);
    lemma_gathered_sourced(repo, scope, facts);
    lemma_timeline_is_complete(repo, scope, facts);
    assert forall|i: int| 0 <= i < shown.len() implies well_sourced(#[trigger] shown[i]) by {
        assert(shown.to_multiset().count(shown[i]) > 0);
        assert(all.to_multiset().count(shown[i]) > 0);
        assert(all.contains(shown[i]));
        let j = choose|j: int| 0 <= j < all.len() && all[j] == shown[i];
        assert(well_sourced(all[j]));
    }
}

/// Every trail that is built can be drawn, as a whole and cut to its latest
/// events.
pub proof fn lemma_trails_are_drawable(repo: RepoView, scope: Scope, facts: TrailFactsView, k: int)
    requires
        0 <= k <= timeline(repo, scope, facts).len(),
    ensures
        all_drawable(timeline(repo, scope, facts).skip(k)),
        all_drawable(timeline(repo, scope, facts)),
{
    let shown = timeline(repo, scope, facts);
    lemma_events_are_sourced(repo, scope, facts);
    assert forall|i: int| 0 <= i < shown.len() implies drawable(#[trigger] shown[i]) by {
        assert(well_sourced(shown[i]));
    }
    assert forall|i: int| 0 <= i < shown.skip(k).len() implies drawable(
        #[trigger] shown.skip(k)[i],
    ) by {
        assert(shown.skip(k)[i] == shown[k + i]);
    }
}

} // verus!
