//! What the tracker makes of what it observes.

use super::{
    creates, creations, deletes, deletion_of, deletions, paired, was_renamed, with_renames,
    TrackerView,
};
use super::store::{RawEventKind, RawEventView};
use crate::path;
use crate::time::Timestamp;
use vstd::prelude::*;

verus! {

// ---------------------------------------------------------------------------
// One file
/// What is known of a file: what was observed last, or else what was committed;
/// nothing where it is not there.
pub open spec fn knows(t: TrackerView, p: Seq<char>, content: Option<Seq<char>>) -> bool {
    let c = path::components(p);
    if t.known.dom().contains(c) {
        content == t.known[c]
    } else if t.baseline.dom().contains(c) {
        content == Some(t.baseline[c])
    } else {
        content is None
    }
}

/// Observing a file is an event exactly when its content is not what was known.
/// The event carries both; the file was created when it was not there, deleted
/// when it is not there any more, and modified otherwise. From then on what was
/// observed is what is known of the file, and what is known of others stays.
pub proof fn lemma_what_an_observation_is(
    t: TrackerView,
    p: Seq<char>,
    was: Option<Seq<char>>,
    now: Option<Seq<char>>,
    ts: Timestamp,
    q: Seq<char>,
    other: Option<Seq<char>>,
)
    requires
        knows(t, p, was),
        knows(t, q, other),
        !path::same_path(p, q),
    ensures
        was == now <==> t.event(p, now, ts) is None,
        was != now ==> ({
            let e = t.event(p, now, ts)->Some_0;
            &&& e.timestamp == ts
            &&& e.path == p
            &&& e.from_path is None
            &&& e.before_hash == was
            &&& e.after_hash == now
            &&& e.kind == RawEventKind::Created <==> was is None
            &&& e.kind == RawEventKind::Deleted <==> was is Some && now is None
            &&& e.kind == RawEventKind::Modified <==> was is Some && now is Some
        }),
        knows(t.observed(p, now), p, now),
        knows(t.observed(p, now), q, other),
        t.observed(p, now).baseline == t.baseline,
{
}

// ---------------------------------------------------------------------------
// A batch
/// A batch names each file once.
pub open spec fn names_once(batch: Seq<(Seq<char>, Option<Seq<char>>)>) -> bool {
    forall|i: int, j: int|
        0 <= i < j < batch.len() ==> !path::same_path(
            (#[trigger] batch[i]).0,
            (#[trigger] batch[j]).0,
        )
}

/// The places in a batch that are events, and the events.
pub open spec fn are_events(
    t: TrackerView,
    batch: Seq<(Seq<char>, Option<Seq<char>>)>,
    ts: Timestamp,
    events: Seq<RawEventView>,
    places: Seq<int>,
) -> bool {
    &&& places.len() == events.len()
    &&& forall|i: int|
        0 <= i < places.len() ==> 0 <= #[trigger] places[i] < batch.len() && t.event(
            batch[places[i]].0,
            batch[places[i]].1,
            ts,
        ) == Some(events[i])
    &&& forall|i: int, j: int|
        0 <= i < j < places.len() ==> #[trigger] places[i] < #[trigger] places[j]
    &&& forall|k: int|
        0 <= k < batch.len() && t.event((#[trigger] batch[k]).0, batch[k].1, ts) is Some
            ==> places.contains(k)
}

proof fn lemma_observed_others(
    t: TrackerView,
    batch: Seq<(Seq<char>, Option<Seq<char>>)>,
    p: Seq<char>,
    now: Option<Seq<char>>,
    ts: Timestamp,
)
    requires
        forall|i: int| 0 <= i < batch.len() ==> !path::same_path((#[trigger] batch[i]).0, p),
    ensures
        t.observed_all(batch).event(p, now, ts) == t.event(p, now, ts),
        t.observed_all(batch).before(p) == t.before(p),
    decreases batch.len(),
{
    if batch.len() > 0 {
        let rest = batch.drop_last();
        assert forall|i: int| 0 <= i < rest.len() implies !path::same_path(
            (#[trigger] rest[i]).0,
            p,
        ) by {
            assert(rest[i] == batch[i]);
        }
        lemma_observed_others(t, rest, p, now, ts);
        assert(!path::same_path(batch[batch.len() - 1].0, p));
    }
}

/// The events of a batch that names each file once are those of its
/// observations, in their order.
pub proof fn lemma_events_of_a_batch(
    t: TrackerView,
    batch: Seq<(Seq<char>, Option<Seq<char>>)>,
    ts: Timestamp,
) -> (places: Seq<int>)
    requires
        names_once(batch),
    ensures
        are_events(t, batch, ts, t.events(batch, ts), places),
    decreases batch.len(),
{
    if batch.len() == 0 {
        Seq::empty()
    } else {
        let rest = batch.drop_last();
        let n = rest.len() as int;
        let last = batch.last();
        assert(batch[n] == last);
        assert forall|i: int| 0 <= i < n implies rest[i] == #[trigger] batch[i] by {}
        assert forall|i: int, j: int| 0 <= i < j < rest.len() implies !path::same_path(
            (#[trigger] rest[i]).0,
            (#[trigger] rest[j]).0,
        ) by {
            assert(rest[i] == batch[i] && rest[j] == batch[j]);
        }
        assert forall|i: int| 0 <= i < rest.len() implies !path::same_path(
            (#[trigger] rest[i]).0,
            last.0,
        ) by {
            assert(rest[i] == batch[i]);
            assert(!path::same_path(batch[i].0, batch[n].0));
        }
        let places = lemma_events_of_a_batch(t, rest, ts);
        lemma_observed_others(t, rest, last.0, last.1, ts);
        let more = if t.event(last.0, last.1, ts) is Some {
            places.push(n)
        } else {
            places
        };
        assert forall|k: int|
            0 <= k < batch.len() && t.event((#[trigger] batch[k]).0, batch[k].1, ts)
                is Some implies more.contains(k) by {
            if k < n {
                assert(rest[k] == batch[k]);
                let m = choose|m: int| 0 <= m < places.len() && places[m] == k;
                assert(more[m] == k);
            } else {
                assert(more[places.len() as int] == k);
            }
        }
        more
    }
}

/// What is known after a batch that names each file once: what it observed of
/// the files it names, and what was known of the others.
pub proof fn lemma_a_batch_is_remembered(
    t: TrackerView,
    batch: Seq<(Seq<char>, Option<Seq<char>>)>,
    q: Seq<char>,
    other: Option<Seq<char>>,
)
    requires
        names_once(batch),
        knows(t, q, other),
    ensures
        forall|k: int|
            0 <= k < batch.len() && path::same_path((#[trigger] batch[k]).0, q) ==> knows(
                t.observed_all(batch),
                q,
                batch[k].1,
            ),
        (forall|k: int| 0 <= k < batch.len() ==> !path::same_path((#[trigger] batch[k]).0, q))
            ==> knows(t.observed_all(batch), q, other),
    decreases batch.len(),
{
    if batch.len() > 0 {
        let rest = batch.drop_last();
        let n = rest.len() as int;
        assert(batch[n] == batch.last());
        assert forall|i: int| 0 <= i < n implies rest[i] == #[trigger] batch[i] by {}
        assert forall|i: int, j: int| 0 <= i < j < rest.len() implies !path::same_path(
            (#[trigger] rest[i]).0,
            (#[trigger] rest[j]).0,
        ) by {
            assert(rest[i] == batch[i] && rest[j] == batch[j]);
        }
        lemma_a_batch_is_remembered(t, rest, q, other);
        assert forall|k: int|
            0 <= k < batch.len() && path::same_path((#[trigger] batch[k]).0, q) implies knows(
            t.observed_all(batch),
            q,
            batch[k].1,
        ) by {
            if k < n {
                assert(rest[k] == batch[k]);
                assert(!path::same_path(batch[k].0, batch[n].0));
            }
        }
        if forall|k: int| 0 <= k < batch.len() ==> !path::same_path((#[trigger] batch[k]).0, q) {
            assert forall|k: int| 0 <= k < rest.len() implies !path::same_path(
                (#[trigger] rest[k]).0,
                q,
            ) by {
                assert(rest[k] == batch[k]);
            }
            assert(!path::same_path(batch[n].0, q));
        }
    }
}

// ---------------------------------------------------------------------------
// Renames
/// Event `d` alone deletes some content, and event `c` alone creates it.
pub open spec fn is_pair(events: Seq<RawEventView>, d: int, c: int) -> bool {
    &&& 0 <= d < events.len()
    &&& 0 <= c < events.len()
    &&& events[d].kind == RawEventKind::Deleted
    &&& events[c].kind == RawEventKind::Created
    &&& events[d].before_hash is Some
    &&& events[d].before_hash == events[c].after_hash
    &&& forall|i: int|
        0 <= i < events.len() && i != d && (#[trigger] events[i]).kind == RawEventKind::Deleted
            ==> events[i].before_hash != events[d].before_hash
    &&& forall|i: int|
        0 <= i < events.len() && i != c && (#[trigger] events[i]).kind == RawEventKind::Created
            ==> events[i].after_hash != events[d].before_hash
}

/// What becomes of the `i`-th event: the deletion of a pair is dropped, its
/// creation is the renaming of the deleted file, and everything else stays.
pub open spec fn becomes(events: Seq<RawEventView>, i: int, r: Option<RawEventView>) -> bool {
    if exists|c: int| #[trigger] is_pair(events, i, c) {
        r is None
    } else if exists|d: int| #[trigger] is_pair(events, d, i) {
        exists|d: int|
            #[trigger] is_pair(events, d, i) && r == Some(
                RawEventView {
                    kind: RawEventKind::Renamed,
                    from_path: Some(events[d].path),
                    before_hash: events[d].before_hash,
                    ..events[i]
                },
            )
    } else {
        r == Some(events[i])
    }
}

proof fn lemma_deletions(events: Seq<RawEventView>, h: Seq<char>)
    ensures
        deletions(events, h) == 0 <==> forall|i: int|
            0 <= i < events.len() ==> !deletes(#[trigger] events[i], h),
        deletions(events, h) == 1 <==> exists|d: int| #[trigger] deletes_alone(events, h, d),
    decreases events.len(),
{
    if events.len() > 0 {
        let rest = events.drop_last();
        let n = rest.len() as int;
        lemma_deletions(rest, h);
        assert forall|i: int| 0 <= i < n implies rest[i] == #[trigger] events[i] by {}
        assert(events[n] == events.last());
        if deletions(events, h) == 0 {
            assert forall|i: int| 0 <= i < events.len() implies !deletes(
                #[trigger] events[i],
                h,
            ) by {
                if i < n {
                    assert(rest[i] == events[i]);
                }
            }
        }
        if deletes(events.last(), h) {
            if deletions(rest, h) == 0 {
                assert forall|i: int|
                    0 <= i < events.len() && i != n implies !deletes(#[trigger] events[i], h) by {
                    assert(rest[i] == events[i]);
                }
                assert(deletes_alone(events, h, n));
            } else {
                let j = choose|j: int| 0 <= j < rest.len() && deletes(#[trigger] rest[j], h);
                assert forall|d: int| !(#[trigger] deletes_alone(events, h, d)) by {
                    assert(deletes(events[j], h));
                    assert(deletes(events[n], h));
                }
            }
        } else {
            if deletions(rest, h) == 1 {
                let d = choose|d: int| #[trigger] deletes_alone(rest, h, d);
                assert forall|i: int|
                    0 <= i < events.len() && i != d implies !deletes(#[trigger] events[i], h) by {
                    if i < n {
                        assert(rest[i] == events[i]);
                    }
                }
                assert(deletes_alone(events, h, d));
            } else if exists|d: int| #[trigger] deletes_alone(events, h, d) {
                let d = choose|d: int| #[trigger] deletes_alone(events, h, d);
                assert(d < n);
                assert forall|i: int|
                    0 <= i < rest.len() && i != d implies !deletes(#[trigger] rest[i], h) by {
                    assert(rest[i] == events[i]);
                }
                assert(rest[d] == events[d]);
                assert(deletes_alone(rest, h, d));
            }
        }
    }
}

spec fn deletes_alone(events: Seq<RawEventView>, h: Seq<char>, d: int) -> bool {
    &&& 0 <= d < events.len()
    &&& deletes(events[d], h)
    &&& forall|i: int| 0 <= i < events.len() && i != d ==> !deletes(#[trigger] events[i], h)
}

spec fn creates_alone(events: Seq<RawEventView>, h: Seq<char>, c: int) -> bool {
    &&& 0 <= c < events.len()
    &&& creates(events[c], h)
    &&& forall|i: int| 0 <= i < events.len() && i != c ==> !creates(#[trigger] events[i], h)
}

proof fn lemma_creations(events: Seq<RawEventView>, h: Seq<char>)
    ensures
        creations(events, h) == 0 <==> forall|i: int|
            0 <= i < events.len() ==> !creates(#[trigger] events[i], h),
        creations(events, h) == 1 <==> exists|c: int| #[trigger] creates_alone(events, h, c),
    decreases events.len(),
{
    if events.len() > 0 {
        let rest = events.drop_last();
        let n = rest.len() as int;
        lemma_creations(rest, h);
        assert forall|i: int| 0 <= i < n implies rest[i] == #[trigger] events[i] by {}
        assert(events[n] == events.last());
        if creations(events, h) == 0 {
            assert forall|i: int| 0 <= i < events.len() implies !creates(
                #[trigger] events[i],
                h,
            ) by {
                if i < n {
                    assert(rest[i] == events[i]);
                }
            }
        }
        if creates(events.last(), h) {
            if creations(rest, h) == 0 {
                assert forall|i: int|
                    0 <= i < events.len() && i != n implies !creates(#[trigger] events[i], h) by {
                    assert(rest[i] == events[i]);
                }
                assert(creates_alone(events, h, n));
            } else {
                let j = choose|j: int| 0 <= j < rest.len() && creates(#[trigger] rest[j], h);
                assert forall|d: int| !(#[trigger] creates_alone(events, h, d)) by {
                    assert(creates(events[j], h));
                    assert(creates(events[n], h));
                }
            }
        } else {
            if creations(rest, h) == 1 {
                let d = choose|d: int| #[trigger] creates_alone(rest, h, d);
                assert forall|i: int|
                    0 <= i < events.len() && i != d implies !creates(#[trigger] events[i], h) by {
                    if i < n {
                        assert(rest[i] == events[i]);
                    }
                }
                assert(creates_alone(events, h, d));
            } else if exists|d: int| #[trigger] creates_alone(events, h, d) {
                let d = choose|d: int| #[trigger] creates_alone(events, h, d);
                assert(d < n);
                assert forall|i: int|
                    0 <= i < rest.len() && i != d implies !creates(#[trigger] rest[i], h) by {
                    assert(rest[i] == events[i]);
                }
                assert(rest[d] == events[d]);
                assert(creates_alone(rest, h, d));
            }
        }
    }
}

proof fn lemma_pair(events: Seq<RawEventView>, h: Seq<char>, d: int, c: int)
    ensures
        deletes_alone(events, h, d) && creates_alone(events, h, c) <==> is_pair(events, d, c)
            && events[d].before_hash == Some(h),
{
    if is_pair(events, d, c) && events[d].before_hash == Some(h) {
        assert forall|i: int| 0 <= i < events.len() && i != d implies !deletes(
            #[trigger] events[i],
            h,
        ) by {}
        assert forall|i: int| 0 <= i < events.len() && i != c implies !creates(
            #[trigger] events[i],
            h,
        ) by {}
    }
    if deletes_alone(events, h, d) && creates_alone(events, h, c) {
        assert forall|i: int|
            0 <= i < events.len() && i != d && (#[trigger] events[i]).kind
                == RawEventKind::Deleted implies events[i].before_hash
            != events[d].before_hash by {
            assert(!deletes(events[i], h));
        }
        assert forall|i: int|
            0 <= i < events.len() && i != c && (#[trigger] events[i]).kind
                == RawEventKind::Created implies events[i].after_hash != events[d].before_hash by {
            assert(!creates(events[i], h));
        }
    }
}

proof fn lemma_becomes(events: Seq<RawEventView>, i: int)
    requires
        0 <= i < events.len(),
    ensures
        becomes(events, i, paired(events, events[i])),
{
    let e = events[i];
    let h = match (e.kind, e.before_hash, e.after_hash) {
        (RawEventKind::Deleted, Some(h), _) => Some(h),
        (RawEventKind::Created, _, Some(h)) => Some(h),
        _ => None,
    };
    match h {
        Some(h) => {
            lemma_deletions(events, h);
            lemma_creations(events, h);
            if was_renamed(events, h) {
                let d = choose|d: int| #[trigger] deletes_alone(events, h, d);
                let c = choose|c: int| #[trigger] creates_alone(events, h, c);
                lemma_pair(events, h, d, c);
                assert(is_pair(events, d, c));
                if e.kind == RawEventKind::Deleted {
                    assert(deletes(events[i], h));
                    assert(i == d);
                    assert(is_pair(events, i, c));
                } else {
                    assert(creates(events[i], h));
                    assert(i == c);
                    assert forall|k: int| !(#[trigger] is_pair(events, i, k)) by {}
                    lemma_found(events, h, d);
                    assert(is_pair(events, d, i));
                }
            } else {
                assert forall|k: int| !(#[trigger] is_pair(events, i, k)) by {
                    if is_pair(events, i, k) {
                        lemma_pair(events, h, i, k);
                        assert(deletes_alone(events, h, i));
                        assert(creates_alone(events, h, k));
                    }
                }
                assert forall|k: int| !(#[trigger] is_pair(events, k, i)) by {
                    if is_pair(events, k, i) {
                        lemma_pair(events, h, k, i);
                        assert(deletes_alone(events, h, k));
                        assert(creates_alone(events, h, i));
                    }
                }
            }
        },
        None => {
            assert forall|k: int| !(#[trigger] is_pair(events, i, k)) by {}
            assert forall|k: int| !(#[trigger] is_pair(events, k, i)) by {}
        },
    }
}

proof fn lemma_found(events: Seq<RawEventView>, h: Seq<char>, d: int)
    requires
        deletes_alone(events, h, d),
    ensures
        deletion_of(events, h) == events[d],
    decreases events.len(),
{
    let rest = events.drop_last();
    let n = rest.len() as int;
    if d < n {
        assert(!deletes(events[n], h));
        assert forall|i: int| 0 <= i < rest.len() && i != d implies !deletes(
            #[trigger] rest[i],
            h,
        ) by {
            assert(rest[i] == events[i]);
        }
        assert(rest[d] == events[d]);
        lemma_found(rest, h, d);
    }
}

/// Where the events that are kept stand, and what becomes of them.
pub open spec fn are_kept(
    events: Seq<RawEventView>,
    some: int,
    kept: Seq<RawEventView>,
    places: Seq<int>,
) -> bool {
    &&& places.len() == kept.len()
    &&& forall|i: int|
        0 <= i < places.len() ==> 0 <= #[trigger] places[i] < some && becomes(
            events,
            places[i],
            Some(kept[i]),
        )
    &&& forall|i: int, j: int|
        0 <= i < j < places.len() ==> #[trigger] places[i] < #[trigger] places[j]
    &&& forall|k: int|
        0 <= k < some ==> #[trigger] places.contains(k) || becomes(events, k, None)
}

proof fn lemma_kept(events: Seq<RawEventView>, some: int) -> (places: Seq<int>)
    requires
        0 <= some <= events.len(),
    ensures
        are_kept(events, some, with_renames(events, events.take(some)), places),
    decreases some,
{
    if some == 0 {
        assert(events.take(0) =~= Seq::empty());
        Seq::empty()
    } else {
        let n = some - 1;
        let places = lemma_kept(events, n);
        assert(events.take(some).drop_last() =~= events.take(n));
        assert(events.take(some).last() == events[n]);
        lemma_becomes(events, n);
        let more = if paired(events, events[n]) is Some {
            places.push(n)
        } else {
            places
        };
        assert forall|k: int| 0 <= k < some implies #[trigger] more.contains(k) || becomes(
            events,
            k,
            None,
        ) by {
            if k < n {
                if places.contains(k) {
                    let m = choose|m: int| 0 <= m < places.len() && places[m] == k;
                    assert(more[m] == k);
                }
            } else if paired(events, events[n]) is Some {
                assert(more[places.len() as int] == k);
            }
        }
        more
    }
}

/// Content that one event of a batch deletes and one creates was renamed: the
/// two events become one. Every other event stays as it is, and all stay in
/// their order.
pub proof fn lemma_renames_are_paired(events: Seq<RawEventView>) -> (places: Seq<int>)
    ensures
        are_kept(events, events.len() as int, with_renames(events, events), places),
{
    assert(events.take(events.len() as int) =~= events);
    lemma_kept(events, events.len() as int)
}

} // verus!
