//! Which version of a file is opened.

use super::open::{
    content_at, dated_checkpoint, end_of, latest_change, lemma_checkpoints_end_after_their_changes,
    lemma_restored_version_is_latest, recorded_by, source_of, start_of, OpenSourceView, Versions,
};
use crate::choice::is_first;
use crate::error::TrailErrorView;
use crate::path;
use crate::recorder::checkpoint::FileChangeView;
use crate::review::{
    CommitFileView, CommitReviewView, ReviewCheckpointView, ReviewFileView, ReviewSectionView,
};
use crate::review::select::{checkpoint_file_at, commit_file_at, SelectedView};
use crate::time::{earlier, Timestamp};
use crate::trail::event::TrailEventView;
use vstd::prelude::*;

verus! {

/// Event `i` is the first checkpoint with an id that has a time.
pub open spec fn starts_at(events: Seq<TrailEventView>, id: Seq<char>, i: int) -> bool {
    &&& 0 <= i < events.len()
    &&& is_named(events[i], id)
    &&& forall|j: int| 0 <= j < i ==> !is_named(#[trigger] events[j], id)
}

pub open spec fn is_named(e: TrailEventView, id: Seq<char>) -> bool {
    e.event_type is Checkpoint && e.timestamp is Some && e.event_type->Checkpoint_id == id
}

/// Change `j` of event `i`, which is a checkpoint that has a time.
pub open spec fn is_change(events: Seq<TrailEventView>, i: int, j: int) -> bool {
    &&& 0 <= i < events.len()
    &&& events[i].event_type is Checkpoint
    &&& events[i].timestamp is Some
    &&& 0 <= j < events[i].event_type->changes.len()
}

/// `end` is when a checkpoint ended: when the last change that originates in it
/// was seen, and not before it started.
pub open spec fn ends_at(
    events: Seq<TrailEventView>,
    id: Seq<char>,
    start: Timestamp,
    end: Timestamp,
) -> bool {
    &&& !earlier(end, start)
    &&& forall|i: int, j: int|
        #[trigger] is_change(events, i, j) && events[i].event_type->changes[j].origin == id
            ==> !earlier(end, events[i].event_type->changes[j].last_seen)
    &&& end == start || exists|i: int, j: int|
        #[trigger] is_change(events, i, j) && events[i].event_type->changes[j].origin == id
            && events[i].event_type->changes[j].last_seen == end
}

/// Change `j` of event `i` is a version of a file seen up to the end.
pub open spec fn seen_by(
    events: Seq<TrailEventView>,
    p: Seq<char>,
    end: Timestamp,
    i: int,
    j: int,
) -> bool {
    &&& is_change(events, i, j)
    &&& path::same_path(events[i].event_type->changes[j].path, p)
    &&& !earlier(end, events[i].event_type->changes[j].last_seen)
}

/// Change `j` of event `i` is a version of a file moved into a checkpoint that
/// had started.
pub open spec fn moved_in(
    events: Seq<TrailEventView>,
    p: Seq<char>,
    start: Timestamp,
    i: int,
    j: int,
) -> bool {
    &&& is_change(events, i, j)
    &&& path::same_path(events[i].event_type->changes[j].path, p)
    &&& events[i].event_type->changes[j].origin != events[i].event_type->Checkpoint_id
    &&& !earlier(start, events[i].timestamp->Some_0)
}

proof fn lemma_start(events: Seq<TrailEventView>, id: Seq<char>)
    ensures
        match start_of(events, id) {
            Some(t) => exists|i: int|
                #[trigger] starts_at(events, id, i) && events[i].timestamp == Some(t),
            None => forall|i: int| 0 <= i < events.len() ==> !is_named(#[trigger] events[i], id),
        },
    decreases events.len(),
{
    if events.len() > 0 {
        let rest = events.drop_first();
        lemma_start(rest, id);
        if is_named(events[0], id) {
            assert(starts_at(events, id, 0));
        } else {
            match start_of(rest, id) {
                Some(t) => {
                    let i = choose|i: int|
                        #[trigger] starts_at(rest, id, i) && rest[i].timestamp == Some(t);
                    assert forall|j: int| 0 <= j < i + 1 implies !is_named(
                        #[trigger] events[j],
                        id,
                    ) by {
                        if j > 0 {
                            assert(rest[j - 1] == events[j]);
                        }
                    }
                    assert(events[i + 1] == rest[i]);
                    assert(starts_at(events, id, i + 1));
                },
                None => {
                    assert forall|i: int| 0 <= i < events.len() implies !is_named(
                        #[trigger] events[i],
                        id,
                    ) by {
                        if i > 0 {
                            assert(rest[i - 1] == events[i]);
                        }
                    }
                },
            }
        }
    }
}

proof fn lemma_later_end_of(
    end: Timestamp,
    changes: Seq<FileChangeView>,
    id: Seq<char>,
)
    ensures
        super::open::later_end(end, changes, id) == end || exists|j: int|
            0 <= j < changes.len() && (#[trigger] changes[j]).origin == id && changes[j].last_seen
                == super::open::later_end(end, changes, id),
    decreases changes.len(),
{
    if changes.len() > 0 {
        let rest = changes.drop_last();
        lemma_later_end_of(end, rest, id);
        let a = super::open::later_end(end, rest, id);
        let b = super::open::later_end(end, changes, id);
        if b == a && a != end {
            let j = choose|j: int|
                0 <= j < rest.len() && (#[trigger] rest[j]).origin == id && rest[j].last_seen == a;
            assert(changes[j] == rest[j]);
        } else if b != a {
            assert(changes[changes.len() - 1].last_seen == b);
        }
    }
}

proof fn lemma_end(events: Seq<TrailEventView>, id: Seq<char>, start: Timestamp)
    ensures
        end_of(events, id, start) == start || exists|i: int, j: int|
            #[trigger] is_change(events, i, j) && events[i].event_type->changes[j].origin == id
                && events[i].event_type->changes[j].last_seen == end_of(events, id, start),
    decreases events.len(),
{
    if events.len() > 0 {
        let rest = events.drop_last();
        let e = events.last();
        let n = rest.len() as int;
        lemma_end(rest, id, start);
        let a = end_of(rest, id, start);
        let b = end_of(events, id, start);
        assert(events[n] == e);
        if a != start {
            let (i, j) = choose|i: int, j: int|
                #[trigger] is_change(rest, i, j) && rest[i].event_type->changes[j].origin == id
                    && rest[i].event_type->changes[j].last_seen == a;
            assert(rest[i] == events[i]);
            assert(is_change(events, i, j));
        }
        if dated_checkpoint(e) {
            lemma_later_end_of(a, e.event_type->changes, id);
            if b != a {
                let j = choose|j: int|
                    0 <= j < e.event_type->changes.len() && (
                    #[trigger] e.event_type->changes[j]).origin == id
                        && e.event_type->changes[j].last_seen == b;
                assert(is_change(events, n, j));
            }
        }
    }
}

/// What is said of a version: its content, or that the file had been deleted.
pub open spec fn is_opened(
    r: Result<Seq<char>, TrailErrorView>,
    p: Seq<char>,
    id: Seq<char>,
    c: FileChangeView,
) -> bool {
    match c.after_hash {
        Some(h) => r == Ok::<Seq<char>, TrailErrorView>(h),
        None => r == Err::<Seq<char>, TrailErrorView>(
            TrailErrorView::SnapshotUnavailable(p + " had been deleted by checkpoint "@ + id),
        ),
    }
}

/// A file opened at a checkpoint is the latest version that was seen by the time
/// the checkpoint ended. If there is none it is the latest one that was moved
/// into it, or into one that had started; and if there is none of these either,
/// or no such checkpoint, that is the error.
#[verifier::rlimit(40)]
pub proof fn lemma_opened_as_of_the_checkpoint(
    events: Seq<TrailEventView>,
    p: Seq<char>,
    id: Seq<char>,
    end: Timestamp,
)
    ensures
        (forall|i: int| 0 <= i < events.len() ==> !is_named(#[trigger] events[i], id))
            ==> content_at(events, p, id) == Err::<Seq<char>, TrailErrorView>(
            TrailErrorView::SnapshotUnavailable(
                "unknown checkpoint "@ + id + " on this branch (see `trail history`)"@,
            ),
        ),
        forall|s: int|
            #[trigger] starts_at(events, id, s) && ends_at(
                events,
                id,
                events[s].timestamp->Some_0,
                end,
            ) ==> ({
                let start = events[s].timestamp->Some_0;
                let r = content_at(events, p, id);
                if exists|i: int, j: int| #[trigger] seen_by(events, p, end, i, j) {
                    exists|i: int, j: int|
                        #[trigger] seen_by(events, p, end, i, j) && is_opened(
                            r,
                            p,
                            id,
                            events[i].event_type->changes[j],
                        ) && forall|a: int, b: int|
                            #[trigger] seen_by(events, p, end, a, b) ==> !earlier(
                                events[i].event_type->changes[j].last_seen,
                                events[a].event_type->changes[b].last_seen,
                            )
                } else if exists|i: int, j: int| #[trigger] moved_in(events, p, start, i, j) {
                    exists|i: int, j: int|
                        #[trigger] moved_in(events, p, start, i, j) && is_opened(
                            r,
                            p,
                            id,
                            events[i].event_type->changes[j],
                        ) && forall|a: int, b: int|
                            #[trigger] moved_in(events, p, start, a, b) ==> !earlier(
                                events[i].event_type->changes[j].last_seen,
                                events[a].event_type->changes[b].last_seen,
                            )
                } else {
                    r == Err::<Seq<char>, TrailErrorView>(
                        TrailErrorView::SnapshotUnavailable(
                            p + " was not recorded in or before checkpoint "@ + id,
                        ),
                    )
                }
            }),
{
    lemma_start(events, id);
    if exists|s: int|
        #[trigger] starts_at(events, id, s) && ends_at(
            events,
            id,
            events[s].timestamp->Some_0,
            end,
        ) {
        let s = choose|s: int|
            #[trigger] starts_at(events, id, s) && ends_at(
                events,
                id,
                events[s].timestamp->Some_0,
                end,
            );
        assert(is_named(events[s], id));
        let t = start_of(events, id)->Some_0;
        let q = choose|q: int| #[trigger] starts_at(events, id, q) && events[q].timestamp == Some(t);
        assert forall|z: int| #[trigger] starts_at(events, id, z) implies z == q by {
            if z < q {
                assert(!is_named(events[z], id));
            } else if q < z {
                assert(!is_named(events[q], id));
            }
        }
        let start = events[s].timestamp->Some_0;
        lemma_one_end(events, id, start, end);
        let until = Versions::Until(end);
        let moved = Versions::MovedInto(start);
        assert forall|i: int, j: int|
            recorded_by(events, p, until, i, j) == #[trigger] seen_by(events, p, end, i, j) by {}
        assert forall|i: int, j: int|
            recorded_by(events, p, moved, i, j) == #[trigger] moved_in(events, p, start, i, j) by {}
        lemma_restored_version_is_latest(events, p, until);
        lemma_restored_version_is_latest(events, p, moved);
        match latest_change(events, p, until) {
            Some(c) => {
                let (i, j) = choose|i: int, j: int|
                    #[trigger] recorded_by(events, p, until, i, j) && Some(c) == Some(
                        events[i].event_type->changes[j],
                    );
                assert(seen_by(events, p, end, i, j));
                assert forall|a: int, b: int| #[trigger] seen_by(
                    events,
                    p,
                    end,
                    a,
                    b,
                ) implies !earlier(
                    events[i].event_type->changes[j].last_seen,
                    events[a].event_type->changes[b].last_seen,
                ) by {
                    assert(recorded_by(events, p, until, a, b));
                }
            },
            None => {
                assert forall|a: int, b: int| !(#[trigger] seen_by(events, p, end, a, b)) by {
                    if seen_by(events, p, end, a, b) {
                        assert(recorded_by(events, p, until, a, b));
                    }
                }
                match latest_change(events, p, moved) {
                    Some(c) => {
                        let (i, j) = choose|i: int, j: int|
                            #[trigger] recorded_by(events, p, moved, i, j) && Some(c) == Some(
                                events[i].event_type->changes[j],
                            );
                        assert(moved_in(events, p, start, i, j));
                        assert forall|a: int, b: int| #[trigger] moved_in(
                            events,
                            p,
                            start,
                            a,
                            b,
                        ) implies !earlier(
                            events[i].event_type->changes[j].last_seen,
                            events[a].event_type->changes[b].last_seen,
                        ) by {
                            assert(recorded_by(events, p, moved, a, b));
                        }
                    },
                    None => {
                        assert forall|a: int, b: int| !(#[trigger] moved_in(
                            events,
                            p,
                            start,
                            a,
                            b,
                        )) by {
                            if moved_in(events, p, start, a, b) {
                                assert(recorded_by(events, p, moved, a, b));
                            }
                        }
                    },
                }
            },
        }
    }
}

/// A checkpoint has one end.
proof fn lemma_one_end(
    events: Seq<TrailEventView>,
    id: Seq<char>,
    start: Timestamp,
    end: Timestamp,
)
    requires
        ends_at(events, id, start, end),
    ensures
        end_of(events, id, start) == end,
{
    let e = end_of(events, id, start);
    lemma_end(events, id, start);
    lemma_checkpoints_end_after_their_changes(events, id, start);
    assert(!earlier(end, e)) by {
        if e != start {
            let (i, j) = choose|i: int, j: int|
                #[trigger] is_change(events, i, j) && events[i].event_type->changes[j].origin == id
                    && events[i].event_type->changes[j].last_seen == e;
            assert(is_change(events, i, j));
        }
    }
    assert(!earlier(e, end)) by {
        if end != start {
            let (i, j) = choose|i: int, j: int|
                #[trigger] is_change(events, i, j) && events[i].event_type->changes[j].origin == id
                    && events[i].event_type->changes[j].last_seen == end;
            assert(events[i].event_type->changes[j].origin == id);
        }
    }
}

// ---------------------------------------------------------------------------
// A file of a review
/// What is opened of a selection: of a checkpoint that has the file, its
/// snapshot there; of a commit that has it, the content after the commit, or the
/// error that it was deleted; of the working tree, the file itself. A file that a
/// checkpoint or commit does not have cannot be opened there.
pub proof fn lemma_what_a_selection_opens(
    c: ReviewCheckpointView,
    k: CommitReviewView,
    w: ReviewSectionView,
    p: Seq<char>,
)
    requires
        w is WorkingTree,
    ensures
        (exists|i: int| 0 <= i < c.files.len() && path::same_path((#[trigger] c.files[i]).path, p))
            ==> source_of(SelectedView::Checkpoint(c), p) == Ok::<OpenSourceView, TrailErrorView>(
            OpenSourceView::Snapshot { checkpoint_id: c.id, path: p },
        ),
        (forall|i: int|
            0 <= i < c.files.len() ==> !path::same_path((#[trigger] c.files[i]).path, p))
            ==> source_of(SelectedView::Checkpoint(c), p) is Err,
        source_of(SelectedView::Section(w), p) == Ok::<OpenSourceView, TrailErrorView>(
            OpenSourceView::Worktree { path: p },
        ),
        ({
            let r = source_of(SelectedView::Section(ReviewSectionView::Commit(k)), p);
            let theirs = |f: CommitFileView| path::same_path(f.path, p);
            &&& forall|f: CommitFileView|
                #[trigger] is_first(k.files, theirs, Some(f)) ==> match f.after_id {
                    Some(id) => r == Ok::<OpenSourceView, TrailErrorView>(
                        OpenSourceView::Blob { id, path: p },
                    ),
                    None => r is Err && r->Err_0 is SnapshotUnavailable,
                }
            &&& is_first(k.files, theirs, None) ==> r is Err
        }),
{
    crate::review::diff_laws::lemma_checkpoint_file_at(c.files, p);
    crate::review::diff_laws::lemma_commit_file_at(k.files, p);
    let theirs = |f: CommitFileView| path::same_path(f.path, p);
    let found = commit_file_at(k.files, p);
    assert forall|f: CommitFileView| #[trigger] is_first(k.files, theirs, Some(f)) implies found
        == Some(f) by {
        crate::review::diff_laws::lemma_one_first(k.files, theirs, Some(f), found);
    }
    if is_first(k.files, theirs, None) {
        crate::review::diff_laws::lemma_one_first(k.files, theirs, None, found);
    }
    let ours = |f: ReviewFileView| path::same_path(f.path, p);
    match checkpoint_file_at(c.files, p) {
        Some(f) => {
            let i = choose|i: int|
                crate::choice::first_at(c.files, ours, i) && c.files[i] == f;
            assert(path::same_path(c.files[i].path, p));
        },
        None => {
            assert forall|i: int| 0 <= i < c.files.len() implies !path::same_path(
                (#[trigger] c.files[i]).path,
                p,
            ) by {
                assert(!ours(c.files[i]));
            }
        },
    }
}

} // verus!
