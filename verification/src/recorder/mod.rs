//! `trail start`: record what changes in a worktree while a developer or an
//! agent works in it.
//!
//! Filesystem notifications are only a hint. Every hint is verified by hashing
//! the file's current content and comparing it with the last content we know
//! about, so editor saves without changes, mtime-only touches and duplicate
//! notifications never become events. The baseline for a path we have not
//! seen yet is the blob recorded in the git index. Renames are recognised by
//! content, not by the watcher: a path that vanished and a path that appeared
//! with the same content in one batch is one rename.

pub mod checkpoint;
pub mod fold_laws;
pub mod metadata;
pub mod overlay_laws;
pub mod session;
pub mod snapshot;
pub mod store;
pub mod tracker_laws;

pub use session::{build_header, Options};

use crate::data::{Dup, Same};
use crate::map::PathMap;
use crate::path;
use crate::time::Timestamp;
use store::{RawEvent, RawEventKind, RawEventView};
use vstd::prelude::*;

verus! {

/// Decides whether observed paths became real changes.
///
/// Pure state machine: it never touches the filesystem itself, callers hand it
/// the current content hash of each path (`None` when the file is gone).
#[derive(Debug, Clone, PartialEq, Eq)]
pub struct Tracker {
    /// Last content hash we recorded (or learned from the index) per path.
    known: PathMap<Option<String>>,
    /// Blob ids from the git index, consulted the first time a path shows up.
    baseline: PathMap<String>,
}

/// What a [`Tracker`] denotes.
#[verifier::ext_equal]
pub struct TrackerView {
    pub known: Map<Seq<Seq<char>>, Option<Seq<char>>>,
    pub baseline: Map<Seq<Seq<char>>, Seq<char>>,
}

impl DeepView for Tracker {
    type V = TrackerView;

    closed spec fn deep_view(&self) -> TrackerView {
        TrackerView { known: self.known.deep_view(), baseline: self.baseline.deep_view() }
    }
}

impl TrackerView {
    /// The content a path is known to have: what was observed last, or else what
    /// the index says.
    pub open spec fn before(self, p: Seq<char>) -> Option<Seq<char>> {
        let c = path::components(p);
        if self.known.dom().contains(c) {
            self.known[c]
        } else if self.baseline.dom().contains(c) {
            Some(self.baseline[c])
        } else {
            None
        }
    }

    /// Once `p` was observed with some content.
    pub open spec fn observed(self, p: Seq<char>, current: Option<Seq<char>>) -> TrackerView {
        TrackerView { known: self.known.insert(path::components(p), current), ..self }
    }

    /// The event that an observation is: one when the content is not what was
    /// known.
    pub open spec fn event(
        self,
        p: Seq<char>,
        current: Option<Seq<char>>,
        ts: Timestamp,
    ) -> Option<RawEventView> {
        let before = self.before(p);
        if before == current {
            None
        } else {
            Some(
                RawEventView {
                    timestamp: ts,
                    path: p,
                    kind: match (before, current) {
                        (None, _) => RawEventKind::Created,
                        (Some(_), None) => RawEventKind::Deleted,
                        (Some(_), Some(_)) => RawEventKind::Modified,
                    },
                    from_path: None,
                    before_hash: before,
                    after_hash: current,
                },
            )
        }
    }

    /// Once a batch of paths was observed, one after the other.
    pub open spec fn observed_all(
        self,
        batch: Seq<(Seq<char>, Option<Seq<char>>)>,
    ) -> TrackerView
        decreases batch.len(),
    {
        if batch.len() == 0 {
            self
        } else {
            self.observed_all(batch.drop_last()).observed(batch.last().0, batch.last().1)
        }
    }

    /// The events of a batch, one by one.
    pub open spec fn events(
        self,
        batch: Seq<(Seq<char>, Option<Seq<char>>)>,
        ts: Timestamp,
    ) -> Seq<RawEventView>
        decreases batch.len(),
    {
        if batch.len() == 0 {
            Seq::empty()
        } else {
            let before = self.observed_all(batch.drop_last());
            match before.event(batch.last().0, batch.last().1, ts) {
                Some(e) => self.events(batch.drop_last(), ts).push(e),
                None => self.events(batch.drop_last(), ts),
            }
        }
    }
}

// ---------------------------------------------------------------------------
// Renames
/// An event that deletes content `h`.
pub open spec fn deletes(e: RawEventView, h: Seq<char>) -> bool {
    e.kind == RawEventKind::Deleted && e.before_hash == Some(h)
}

/// An event that creates content `h`.
pub open spec fn creates(e: RawEventView, h: Seq<char>) -> bool {
    e.kind == RawEventKind::Created && e.after_hash == Some(h)
}

pub open spec fn deletions(events: Seq<RawEventView>, h: Seq<char>) -> nat
    decreases events.len(),
{
    if events.len() == 0 {
        0
    } else {
        deletions(events.drop_last(), h) + if deletes(events.last(), h) {
            1nat
        } else {
            0nat
        }
    }
}

pub open spec fn creations(events: Seq<RawEventView>, h: Seq<char>) -> nat
    decreases events.len(),
{
    if events.len() == 0 {
        0
    } else {
        creations(events.drop_last(), h) + if creates(events.last(), h) {
            1nat
        } else {
            0nat
        }
    }
}

/// Content that was deleted once and created once was renamed; anything else
/// is ambiguous.
pub open spec fn was_renamed(events: Seq<RawEventView>, h: Seq<char>) -> bool {
    deletions(events, h) == 1 && creations(events, h) == 1
}

/// The last event that deletes content `h`.
pub open spec fn deletion_of(events: Seq<RawEventView>, h: Seq<char>) -> RawEventView
    decreases events.len(),
{
    if events.len() <= 1 || deletes(events.last(), h) {
        events.last()
    } else {
        deletion_of(events.drop_last(), h)
    }
}

/// What becomes of one event of a batch: the deletion of renamed content is
/// dropped, its creation is the rename.
pub open spec fn paired(all: Seq<RawEventView>, e: RawEventView) -> Option<RawEventView> {
    match (e.kind, e.before_hash, e.after_hash) {
        (RawEventKind::Deleted, Some(h), _) => if was_renamed(all, h) {
            None
        } else {
            Some(e)
        },
        (RawEventKind::Created, _, Some(h)) => if was_renamed(all, h) {
            let from = deletion_of(all, h);
            Some(
                RawEventView {
                    kind: RawEventKind::Renamed,
                    from_path: Some(from.path),
                    before_hash: from.before_hash,
                    ..e
                },
            )
        } else {
            Some(e)
        },
        _ => Some(e),
    }
}

/// Some of the events of a batch with renames folded.
pub open spec fn with_renames(all: Seq<RawEventView>, some: Seq<RawEventView>) -> Seq<RawEventView>
    decreases some.len(),
{
    if some.len() == 0 {
        Seq::empty()
    } else {
        match paired(all, some.last()) {
            Some(e) => with_renames(all, some.drop_last()).push(e),
            None => with_renames(all, some.drop_last()),
        }
    }
}

impl Tracker {
    pub fn new(baseline: PathMap<String>) -> (r: Tracker)
        ensures
            r.deep_view() == (TrackerView {
                known: Map::empty(),
                baseline: baseline.deep_view(),
            }),
    {
        Tracker { known: PathMap::new(), baseline }
    }

    /// Replace the index baseline (after a commit) without forgetting what
    /// was observed since.
    pub fn reset_baseline(&mut self, baseline: PathMap<String>)
        ensures
            final(self).deep_view() == (TrackerView {
                baseline: baseline.deep_view(),
                ..old(self).deep_view()
            }),
    {
        self.baseline = baseline;
    }

    /// Feed the current hash of one path; returns an event when the content
    /// differs from what was known before.
    pub fn observe(&mut self, path: &str, current: Option<String>, ts: Timestamp) -> (r: Option<
        RawEvent,
    >)
        ensures
            r.deep_view() == old(self).deep_view().event(path@, current.deep_view(), ts),
            final(self).deep_view() == old(self).deep_view().observed(
                path@,
                current.deep_view(),
            ),
    {
        let ghost was = self.deep_view();
        let before: Option<String> = match self.known.get(path) {
            Some(known) => known.dup(),
            None => match self.baseline.get(path) {
                Some(hash) => Some(hash.dup()),
                None => None,
            },
        };
        assert(before.deep_view() == was.before(path@));
        let same: bool = before.same(&current);
        self.known.insert(path.to_owned(), current.dup());
        assert(self.deep_view() =~= was.observed(path@, current.deep_view()));
        if same {
            return None;
        }
        let kind: RawEventKind = match (&before, &current) {
            (None, _) => RawEventKind::Created,
            (Some(_), None) => RawEventKind::Deleted,
            (Some(_), Some(_)) => RawEventKind::Modified,
        };
        let e = RawEvent {
            timestamp: ts,
            path: path.to_owned(),
            kind,
            from_path: None,
            before_hash: before,
            after_hash: current,
        };
        assert(e.deep_view() =~= was.event(path@, current.deep_view(), ts)->Some_0);
        Some(e)
    }

    /// Feed a whole batch of paths observed together. Deletions and creations
    /// with identical content are folded into one `Renamed` event.
    pub fn observe_batch(
        &mut self,
        batch: Vec<(String, Option<String>)>,
        ts: Timestamp,
    ) -> (r: Vec<RawEvent>)
        ensures
            ({
                let events = old(self).deep_view().events(batch.deep_view(), ts);
                &&& r.deep_view() == with_renames(events, events)
                &&& final(self).deep_view() == old(self).deep_view().observed_all(
                    batch.deep_view(),
                )
            }),
    {
        let ghost start = self.deep_view();
        let ghost all = batch.deep_view();
        let mut events: Vec<RawEvent> = Vec::new();
        let mut k: usize = 0;
        assert(events.deep_view() =~= start.events(all.take(0), ts));
        while k < batch.len()
            invariant
                k <= batch.len(),
                all == batch.deep_view(),
                start == old(self).deep_view(),
                self.deep_view() == start.observed_all(all.take(k as int)),
                events.deep_view() == start.events(all.take(k as int), ts),
            decreases batch.len() - k,
        {
            proof {
                assert(all.take(k + 1).drop_last() =~= all.take(k as int));
                assert(all.take(k + 1).last() == all[k as int]);
                assert(all[k as int] == (batch[k as int].0@, batch[k as int].1.deep_view()));
            }
            let ghost was = events.deep_view();
            match self.observe(&batch[k].0, batch[k].1.dup(), ts) {
                Some(e) => {
                    let ghost ev = e.deep_view();
                    events.push(e);
                    assert(events.deep_view() =~= was.push(ev));
                },
                None => {},
            }
            k += 1;
        }
        assert(all.take(k as int) =~= all);
        pair_renames(events)
    }
}

fn count_deletions(events: &Vec<RawEvent>, h: &String) -> (r: usize)
    ensures
        r == deletions(events.deep_view(), h@),
{
    let ghost all = events.deep_view();
    let mut n: usize = 0;
    let mut k: usize = 0;
    assert(all.take(0) =~= Seq::empty());
    while k < events.len()
        invariant
            k <= events.len(),
            n <= k,
            all == events.deep_view(),
            n == deletions(all.take(k as int), h@),
        decreases events.len() - k,
    {
        proof {
            assert(all.take(k + 1).drop_last() =~= all.take(k as int));
            assert(all.take(k + 1).last() == events[k as int].deep_view());
        }
        if is_deletion(&events[k], h) {
            n = n + 1;
        }
        k += 1;
    }
    assert(all.take(k as int) =~= all);
    n
}

fn is_deletion(e: &RawEvent, h: &String) -> (r: bool)
    ensures
        r == deletes(e.deep_view(), h@),
{
    e.kind == RawEventKind::Deleted && match &e.before_hash {
        Some(x) => x.same(h),
        None => false,
    }
}

fn is_creation(e: &RawEvent, h: &String) -> (r: bool)
    ensures
        r == creates(e.deep_view(), h@),
{
    e.kind == RawEventKind::Created && match &e.after_hash {
        Some(x) => x.same(h),
        None => false,
    }
}

fn count_creations(events: &Vec<RawEvent>, h: &String) -> (r: usize)
    ensures
        r == creations(events.deep_view(), h@),
{
    let ghost all = events.deep_view();
    let mut n: usize = 0;
    let mut k: usize = 0;
    assert(all.take(0) =~= Seq::empty());
    while k < events.len()
        invariant
            k <= events.len(),
            n <= k,
            all == events.deep_view(),
            n == creations(all.take(k as int), h@),
        decreases events.len() - k,
    {
        proof {
            assert(all.take(k + 1).drop_last() =~= all.take(k as int));
            assert(all.take(k + 1).last() == events[k as int].deep_view());
        }
        if is_creation(&events[k], h) {
            n = n + 1;
        }
        k += 1;
    }
    assert(all.take(k as int) =~= all);
    n
}

fn find_deletion<'a>(events: &'a Vec<RawEvent>, h: &String) -> (r: &'a RawEvent)
    requires
        events.len() > 0,
    ensures
        r.deep_view() == deletion_of(events.deep_view(), h@),
{
    let ghost all = events.deep_view();
    let mut k: usize = events.len();
    assert(all.take(k as int) =~= all);
    while k > 1
        invariant
            1 <= k <= events.len(),
            all == events.deep_view(),
            deletion_of(all, h@) == deletion_of(all.take(k as int), h@),
        decreases k,
    {
        assert(all.take(k as int).last() == events[k - 1].deep_view());
        if is_deletion(&events[k - 1], h) {
            return &events[k - 1];
        }
        assert(all.take(k as int).drop_last() =~= all.take(k - 1));
        k -= 1;
    }
    assert(all.take(1).last() == events[0].deep_view());
    &events[0]
}

fn pair(events: &Vec<RawEvent>, e: &RawEvent) -> (r: Option<RawEvent>)
    requires
        events.len() > 0,
    ensures
        r.deep_view() == paired(events.deep_view(), e.deep_view()),
{
    match (e.kind, &e.before_hash, &e.after_hash) {
        (RawEventKind::Deleted, Some(h), _) => {
            if count_deletions(events, h) == 1 && count_creations(events, h) == 1 {
                None
            } else {
                Some(e.dup())
            }
        },
        (RawEventKind::Created, _, Some(h)) => {
            if count_deletions(events, h) == 1 && count_creations(events, h) == 1 {
                let from: &RawEvent = find_deletion(events, h);
                let r = RawEvent {
                    timestamp: e.timestamp,
                    path: e.path.dup(),
                    kind: RawEventKind::Renamed,
                    from_path: Some(from.path.dup()),
                    before_hash: from.before_hash.dup(),
                    after_hash: e.after_hash.dup(),
                };
                assert(r.deep_view() =~= paired(events.deep_view(), e.deep_view())->Some_0);
                Some(r)
            } else {
                Some(e.dup())
            }
        },
        _ => Some(e.dup()),
    }
}

/// Fold `Deleted(a, hash h)` + `Created(b, hash h)` into `Renamed(a -> b)`.
/// Only unambiguous 1:1 matches are paired; anything else stays as it is.
fn pair_renames(events: Vec<RawEvent>) -> (r: Vec<RawEvent>)
    ensures
        r.deep_view() == with_renames(events.deep_view(), events.deep_view()),
{
    let ghost all = events.deep_view();
    let mut out: Vec<RawEvent> = Vec::new();
    let mut k: usize = 0;
    assert(out.deep_view() =~= with_renames(all, all.take(0)));
    while k < events.len()
        invariant
            k <= events.len(),
            all == events.deep_view(),
            out.deep_view() == with_renames(all, all.take(k as int)),
        decreases events.len() - k,
    {
        let ghost was = out.deep_view();
        proof {
            assert(all.take(k + 1).drop_last() =~= all.take(k as int));
            assert(all.take(k + 1).last() == events[k as int].deep_view());
        }
        match pair(&events, &events[k]) {
            Some(e) => {
                let ghost ev = e.deep_view();
                out.push(e);
                assert(out.deep_view() =~= was.push(ev));
            },
            None => {},
        }
        k += 1;
    }
    assert(all.take(k as int) =~= all);
    out
}

// ---------------------------------------------------------------------------
// What holds of every observation
/// Observing the same content again is no event.
pub proof fn lemma_repeated_observation_is_silent(
    t: TrackerView,
    p: Seq<char>,
    current: Option<Seq<char>>,
    ts: Timestamp,
)
    ensures
        t.observed(p, current).event(p, current, ts) is None,
        t.observed(p, current).before(p) == current,
{
}

/// An event carries the content that was known and the content that is there
/// now, and they differ.
pub proof fn lemma_events_are_changes(
    t: TrackerView,
    p: Seq<char>,
    current: Option<Seq<char>>,
    ts: Timestamp,
)
    ensures
        t.event(p, current, ts) is Some == (t.before(p) != current),
        t.event(p, current, ts) is Some ==> t.event(p, current, ts)->Some_0.before_hash != t.event(
            p,
            current,
            ts,
        )->Some_0.after_hash,
{
}

/// A new baseline does not change what is known of a path that was observed.
pub proof fn lemma_baseline_keeps_observations(
    t: TrackerView,
    p: Seq<char>,
    baseline: Map<Seq<Seq<char>>, Seq<char>>,
)
    requires
        t.known.dom().contains(path::components(p)),
    ensures
        (TrackerView { baseline, ..t }).before(p) == t.before(p),
{
}

proof fn lemma_deletion_found(events: Seq<RawEventView>, h: Seq<char>)
    requires
        deletions(events, h) > 0,
    ensures
        deletes(deletion_of(events, h), h),
        events.contains(deletion_of(events, h)),
    decreases events.len(),
{
    if deletes(events.last(), h) {
        assert(events[events.len() - 1] == events.last());
    } else {
        let rest = events.drop_last();
        lemma_deletion_found(rest, h);
        if events.len() == 1 {
            assert(rest =~= Seq::empty());
        } else {
            let i = choose|i: int| 0 <= i < rest.len() && rest[i] == deletion_of(rest, h);
            assert(events[i] == deletion_of(rest, h));
        }
    }
}

/// A rename keeps the content: what it had before is what it has after, and it
/// comes from a path that a deletion of the batch names.
pub proof fn lemma_renames_keep_content(all: Seq<RawEventView>, e: RawEventView)
    requires
        e.kind != RawEventKind::Renamed,
        paired(all, e) is Some,
        paired(all, e)->Some_0.kind == RawEventKind::Renamed,
    ensures
        paired(all, e)->Some_0.before_hash == paired(all, e)->Some_0.after_hash,
        exists|d: RawEventView| #[trigger]
            all.contains(d) && d.kind == RawEventKind::Deleted && paired(all, e)->Some_0.from_path
                == Some(d.path),
{
    let h = e.after_hash->Some_0;
    lemma_deletion_found(all, h);
    assert(all.contains(deletion_of(all, h)));
}

/// Content that vanished or appeared more than once is never taken for a
/// rename: its events stay as they are.
pub proof fn lemma_ambiguous_stays(all: Seq<RawEventView>, e: RawEventView, h: Seq<char>)
    requires
        deletes(e, h) || creates(e, h),
        deletions(all, h) != 1 || creations(all, h) != 1,
    ensures
        paired(all, e) == Some(e),
{
}

// ---------------------------------------------------------------------------
// Content
/// The id git gives to a file's content; `None` when it refuses to.
pub uninterp spec fn blob_hash(data: Seq<u8>) -> Option<Seq<char>>;

/// The blob id of some content, from `gix::objs::compute_hash`.
///
/// Claimed of it: the id depends on the content alone.
#[verifier::external_body]
fn compute_blob_id(data: &[u8]) -> (r: Option<String>)
    ensures
        r.deep_view() == blob_hash(data@),
{
    gix::objs::compute_hash(gix::hash::Kind::Sha1, gix::objs::Kind::Blob, data).ok().map(
        |id| id.to_string(),
    )
}

/// Git blob id of `data`.
///
/// SHA-1 over the blob is not chosen for security but because it is the id
/// `git hash-object` produces, so the same id addresses the snapshot in the
/// object database.
pub fn blob_id(data: &[u8]) -> (r: Option<String>)
    ensures
        r.deep_view() == blob_hash(data@),
{
    compute_blob_id(data)
}

} // verus!
