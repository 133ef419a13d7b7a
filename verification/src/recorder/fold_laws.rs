//! What the checkpoints of a session say of the events in its log.

use super::checkpoint::{
    absorbed, change_of, checkpoints_of, closed, debounced, find_path, finished, folded, grouped,
    head_moved, in_time_order, leaves_trace, opened, pushed, pushed_all, up_to, ChangeKind,
    CheckpointView, CommitBoundaryView, FileChangeView, Grouped,
};
use super::store::{RawEventKind, RawEventView, RecordView};
use crate::path;
use crate::time::{earlier, gap, Timestamp};
use vstd::prelude::*;

verus! {

// ---------------------------------------------------------------------------
// One file
/// No event from the `i`-th on deletes the file.
pub open spec fn stays_from(es: Seq<RawEventView>, i: int) -> bool {
    0 <= i < es.len() && forall|j: int|
        i <= j < es.len() ==> (#[trigger] es[j]).kind != RawEventKind::Deleted
}

pub open spec fn no_kind(es: Seq<RawEventView>, kind: RawEventKind) -> bool {
    forall|j: int| 0 <= j < es.len() ==> (#[trigger] es[j]).kind != kind
}

/// The first renaming among some events is the `r`-th event.
pub open spec fn first_renamed(es: Seq<RawEventView>, r: int) -> bool {
    &&& 0 <= r < es.len()
    &&& es[r].kind == RawEventKind::Renamed
    &&& forall|j: int| 0 <= j < r ==> (#[trigger] es[j]).kind != RawEventKind::Renamed
}

/// The file is deleted by the `d`-th event, created again by the next one, and
/// only modified otherwise.
pub open spec fn recreated(es: Seq<RawEventView>, d: int) -> bool {
    &&& 0 <= d < es.len() - 1
    &&& es[d].kind == RawEventKind::Deleted
    &&& es[d + 1].kind == RawEventKind::Created
    &&& forall|j: int|
        0 <= j < es.len() && j != d && j != d + 1 ==> (#[trigger] es[j]).kind
            == RawEventKind::Modified
}

/// What the events of a file say happened to it, however close they are.
///
/// A file that is deleted last was deleted. One that was created or renamed
/// first and never deleted was created or renamed. One that was only modified
/// was modified, and renamed if it was also renamed. One that was deleted and
/// created again was modified.
#[verifier::opaque]
pub open spec fn tells(
    es: Seq<RawEventView>,
    kind: ChangeKind,
    from_path: Option<Seq<char>>,
) -> bool {
    &&& es.last().kind == RawEventKind::Deleted ==> kind == ChangeKind::Deleted
    &&& no_kind(es, RawEventKind::Deleted) ==> kind != ChangeKind::Deleted
    &&& no_kind(es, RawEventKind::Deleted) && es[0].kind == RawEventKind::Created ==> kind
        == ChangeKind::Created && from_path == es[0].from_path
    &&& no_kind(es, RawEventKind::Deleted) && es[0].kind == RawEventKind::Renamed ==> kind
        == ChangeKind::Renamed && from_path == es[0].from_path
    &&& no_kind(es, RawEventKind::Renamed) ==> kind != ChangeKind::Renamed && from_path
        == es[0].from_path
    &&& no_kind(es, RawEventKind::Deleted) && no_kind(es, RawEventKind::Created) && no_kind(
        es,
        RawEventKind::Renamed,
    ) ==> kind == ChangeKind::Modified
    &&& no_kind(es, RawEventKind::Deleted) && no_kind(es, RawEventKind::Created) ==> forall|r: int|
        #[trigger] first_renamed(es, r) ==> kind == ChangeKind::Renamed && from_path
            == es[r].from_path
    &&& forall|d: int| #[trigger] recreated(es, d) ==> kind == ChangeKind::Modified
}

/// The file is created or renamed first, and never deleted.
pub open spec fn is_made(es: Seq<RawEventView>) -> bool {
    stays_from(es, 0) && (es[0].kind == RawEventKind::Created || es[0].kind
        == RawEventKind::Renamed)
}

/// After the last deletion there is an event of a kind.
pub open spec fn has_since(es: Seq<RawEventView>, kind: RawEventKind) -> bool {
    exists|r: int| #[trigger] stays_from(es, r) && es[r].kind == kind
}

/// The first renaming after the last deletion is the `r`-th event.
pub open spec fn renamed_since(es: Seq<RawEventView>, r: int) -> bool {
    &&& stays_from(es, r)
    &&& es[r].kind == RawEventKind::Renamed
    &&& forall|j: int|
        0 <= j < r && #[trigger] stays_from(es, j) ==> es[j].kind != RawEventKind::Renamed
}

/// What the events of a file say happened to it when none of them is part of
/// the same edit as the one before.
///
/// A file that is deleted last was deleted. One that was created or renamed
/// first and never deleted was created or renamed. Any other file was renamed
/// by the first renaming after it was last deleted; and if there is none, it was
/// modified, unless it was deleted and not created again.
#[verifier::opaque]
pub open spec fn tells_apart(
    es: Seq<RawEventView>,
    kind: ChangeKind,
    from_path: Option<Seq<char>>,
) -> bool {
    &&& es.last().kind == RawEventKind::Deleted ==> kind == ChangeKind::Deleted
    &&& is_made(es) && es[0].kind == RawEventKind::Created ==> kind == ChangeKind::Created
        && from_path == es[0].from_path
    &&& is_made(es) && es[0].kind == RawEventKind::Renamed ==> kind == ChangeKind::Renamed
        && from_path == es[0].from_path
    &&& !is_made(es) ==> forall|r: int|
        #[trigger] renamed_since(es, r) ==> kind == ChangeKind::Renamed && from_path
            == es[r].from_path
    &&& es.last().kind != RawEventKind::Deleted && !is_made(es) && !has_since(
        es,
        RawEventKind::Renamed,
    ) ==> kind == (if stays_from(es, 0) || has_since(es, RawEventKind::Created) {
        ChangeKind::Modified
    } else {
        ChangeKind::Deleted
    })
}

/// A change sums up the events of its file: the path as first seen, the content
/// before the first event and that after the last, the times of both, how many
/// there were, and what happened. `apart` says that none of them is part of the
/// same edit as the one before.
pub open spec fn sums_up(c: FileChangeView, es: Seq<RawEventView>, apart: bool) -> bool {
    &&& es.len() > 0
    &&& c.path == es[0].path
    &&& c.before_hash == es[0].before_hash
    &&& c.after_hash == es.last().after_hash
    &&& c.first_seen == es[0].timestamp
    &&& c.last_seen == es.last().timestamp
    &&& c.edits == es.len()
    &&& tells(es, c.kind, c.from_path)
    &&& apart ==> tells_apart(es, c.kind, c.from_path)
}

proof fn lemma_one_event(e: RawEventView)
    ensures
        sums_up(change_of(e), seq![e], true),
{
    reveal(tells);
    reveal(tells_apart);
    let es = seq![e];
    assert(es[0] == e);
    assert(es.last() == e);
    let c = change_of(e);
    assert(stays_from(es, 0) == (e.kind != RawEventKind::Deleted));
    assert forall|r: int| #[trigger] first_renamed(es, r) implies r == 0 by {}
    assert forall|r: int| #[trigger] stays_from(es, r) implies r == 0 by {}
    if no_kind(es, RawEventKind::Deleted) {
        assert(es[0].kind != RawEventKind::Deleted);
    }
    if no_kind(es, RawEventKind::Renamed) {
        assert(es[0].kind != RawEventKind::Renamed);
    }
    if no_kind(es, RawEventKind::Created) {
        assert(es[0].kind != RawEventKind::Created);
    }
}

proof fn lemma_no_kind(a: Seq<RawEventView>, b: Seq<RawEventView>, kind: RawEventKind)
    ensures
        no_kind(a + b, kind) == (no_kind(a, kind) && no_kind(b, kind)),
{
    let es = a + b;
    if no_kind(es, kind) {
        assert forall|j: int| 0 <= j < a.len() implies (#[trigger] a[j]).kind != kind by {
            assert(es[j] == a[j]);
        }
        assert forall|j: int| 0 <= j < b.len() implies (#[trigger] b[j]).kind != kind by {
            assert(es[a.len() + j] == b[j]);
        }
    }
    if no_kind(a, kind) && no_kind(b, kind) {
        assert forall|j: int| 0 <= j < es.len() implies (#[trigger] es[j]).kind != kind by {
            if j < a.len() {
                assert(es[j] == a[j]);
            } else {
                assert(es[j] == b[j - a.len()]);
            }
        }
    }
}

#[verifier::rlimit(40)]
proof fn lemma_tells(
    into: FileChangeView,
    a: Seq<RawEventView>,
    later: FileChangeView,
    b: Seq<RawEventView>,
)
    requires
        a.len() > 0,
        b.len() > 0,
        tells(a, into.kind, into.from_path),
        tells(b, later.kind, later.from_path),
    ensures
        tells(a + b, folded(into, later).kind, folded(into, later).from_path),
{
    reveal(tells);
    let es = a + b;
    let n = a.len() as int;
    let f = folded(into, later);
    lemma_no_kind(a, b, RawEventKind::Deleted);
    lemma_no_kind(a, b, RawEventKind::Renamed);
    lemma_no_kind(a, b, RawEventKind::Created);
    assert(es[0] == a[0]);
    assert(es.last() == b.last());
    assert forall|j: int| 0 <= j < n implies #[trigger] es[j] == a[j] by {}
    assert forall|j: int| 0 <= j < b.len() implies es[n + j] == #[trigger] b[j] by {}
    if no_kind(es, RawEventKind::Deleted) && no_kind(es, RawEventKind::Created) {
        assert forall|r: int| #[trigger] first_renamed(es, r) implies f.kind
            == ChangeKind::Renamed && f.from_path == es[r].from_path by {
            assert(a[0].kind != RawEventKind::Created && a[0].kind != RawEventKind::Deleted);
            assert(b[0].kind != RawEventKind::Created && b[0].kind != RawEventKind::Deleted);
            if r < n {
                assert forall|j: int| 0 <= j < r implies (#[trigger] a[j]).kind
                    != RawEventKind::Renamed by {
                    assert(es[j] == a[j]);
                }
                assert(first_renamed(a, r));
            } else {
                assert(no_kind(a, RawEventKind::Renamed)) by {
                    assert forall|j: int| 0 <= j < n implies (#[trigger] a[j]).kind
                        != RawEventKind::Renamed by {
                        assert(es[j] == a[j]);
                    }
                }
                assert forall|j: int| 0 <= j < r - n implies (#[trigger] b[j]).kind
                    != RawEventKind::Renamed by {
                    assert(es[n + j] == b[j]);
                }
                assert(es[r] == b[r - n]);
                assert(first_renamed(b, r - n));
            }
        }
    }
    assert forall|d: int| #[trigger] recreated(es, d) implies f.kind == ChangeKind::Modified by {
        if d + 1 < n {
            assert(es[d] == a[d] && es[d + 1] == a[d + 1]);
            assert forall|j: int| 0 <= j < n && j != d && j != d + 1 implies (
            #[trigger] a[j]).kind == RawEventKind::Modified by {
                assert(es[j] == a[j]);
            }
            assert(recreated(a, d));
            assert forall|j: int| 0 <= j < b.len() implies (#[trigger] b[j]).kind
                == RawEventKind::Modified by {
                assert(es[n + j] == b[j]);
            }
        } else if d + 1 == n {
            assert(a.last() == es[d]);
            assert(b[0] == es[d + 1]);
            assert(into.kind == ChangeKind::Deleted);
            assert forall|j: int| 0 <= j < b.len() implies (#[trigger] b[j]).kind
                != RawEventKind::Deleted by {
                assert(es[n + j] == b[j]);
            }
            assert(no_kind(b, RawEventKind::Deleted));
        } else {
            assert forall|j: int| 0 <= j < n implies (#[trigger] a[j]).kind
                == RawEventKind::Modified by {
                assert(es[j] == a[j]);
            }
            assert(es[d] == b[d - n] && es[d + 1] == b[d - n + 1]);
            assert forall|j: int| 0 <= j < b.len() && j != d - n && j != d - n + 1 implies (
            #[trigger] b[j]).kind == RawEventKind::Modified by {
                assert(es[n + j] == b[j]);
            }
            assert(recreated(b, d - n));
        }
    }
}

proof fn lemma_stays(a: Seq<RawEventView>, e: RawEventView, i: int)
    requires
        0 <= i <= a.len(),
    ensures
        i < a.len() ==> stays_from(a.push(e), i) == (stays_from(a, i) && e.kind
            != RawEventKind::Deleted),
        i == a.len() ==> stays_from(a.push(e), i) == (e.kind != RawEventKind::Deleted),
{
    let es = a.push(e);
    let n = a.len() as int;
    assert(es[n] == e);
    assert forall|j: int| 0 <= j < n implies #[trigger] es[j] == a[j] by {}
    if stays_from(es, i) {
        assert(es[n].kind != RawEventKind::Deleted);
        assert forall|j: int| i <= j < n implies (#[trigger] a[j]).kind
            != RawEventKind::Deleted by {
            assert(es[j] == a[j]);
        }
    }
    if i < n && stays_from(a, i) && e.kind != RawEventKind::Deleted {
        assert forall|j: int| i <= j < es.len() implies (#[trigger] es[j]).kind
            != RawEventKind::Deleted by {
            if j < n {
                assert(es[j] == a[j]);
            }
        }
    }
}

proof fn lemma_has_since(a: Seq<RawEventView>, e: RawEventView, kind: RawEventKind)
    requires
        e.kind != RawEventKind::Deleted,
    ensures
        has_since(a.push(e), kind) == (has_since(a, kind) || e.kind == kind),
{
    let es = a.push(e);
    let n = a.len() as int;
    if has_since(a, kind) {
        let r = choose|r: int| #[trigger] stays_from(a, r) && a[r].kind == kind;
        lemma_stays(a, e, r);
        assert(es[r] == a[r]);
        assert(stays_from(es, r));
    }
    if e.kind == kind {
        lemma_stays(a, e, n);
        assert(es[n] == e);
        assert(stays_from(es, n));
    }
    if has_since(es, kind) {
        let r = choose|r: int| #[trigger] stays_from(es, r) && es[r].kind == kind;
        lemma_stays(a, e, r);
        if r < n {
            assert(es[r] == a[r]);
            assert(stays_from(a, r));
        }
    }
}

proof fn lemma_renamed_since(a: Seq<RawEventView>, e: RawEventView, r: int)
    requires
        e.kind != RawEventKind::Deleted,
        renamed_since(a.push(e), r),
    ensures
        r < a.len() ==> renamed_since(a, r),
        r == a.len() ==> !has_since(a, RawEventKind::Renamed) && e.kind == RawEventKind::Renamed,
        0 <= r <= a.len(),
{
    let es = a.push(e);
    let n = a.len() as int;
    lemma_stays(a, e, r);
    assert forall|j: int| 0 <= j < r && j < n && #[trigger] stays_from(a, j) implies a[j].kind
        != RawEventKind::Renamed by {
        lemma_stays(a, e, j);
        assert(stays_from(es, j));
        assert(es[j] == a[j]);
    }
    if r < n {
        assert(es[r] == a[r]);
    } else if has_since(a, RawEventKind::Renamed) {
        let j = choose|j: int|
            #[trigger] stays_from(a, j) && a[j].kind == RawEventKind::Renamed;
        assert(false);
    }
}

#[verifier::rlimit(40)]
proof fn lemma_tells_apart(into: FileChangeView, a: Seq<RawEventView>, e: RawEventView)
    requires
        a.len() > 0,
        tells_apart(a, into.kind, into.from_path),
    ensures
        tells_apart(
            a.push(e),
            folded(into, change_of(e)).kind,
            folded(into, change_of(e)).from_path,
        ),
{
    reveal(tells_apart);
    let es = a.push(e);
    let n = a.len() as int;
    let f = folded(into, change_of(e));
    assert(es.last() == e);
    assert(es[0] == a[0]);
    lemma_stays(a, e, 0);
    if e.kind == RawEventKind::Deleted {
        assert forall|r: int| !(#[trigger] renamed_since(es, r)) by {
            if 0 <= r < es.len() {
                lemma_stays(a, e, r);
            }
        }
    } else {
        lemma_has_since(a, e, RawEventKind::Renamed);
        lemma_has_since(a, e, RawEventKind::Created);
        if a.last().kind == RawEventKind::Deleted {
            assert forall|r: int| !(#[trigger] stays_from(a, r)) by {
                if 0 <= r < n {
                    assert(a[n - 1].kind == RawEventKind::Deleted);
                }
            }
        }
        assert(is_made(es) == is_made(a));
        if !is_made(a) {
            if has_since(a, RawEventKind::Renamed) {
                let q = choose|q: int|
                    #[trigger] stays_from(a, q) && a[q].kind == RawEventKind::Renamed;
                let r = lemma_first_stay(a, q);
                assert(renamed_since(a, r));
                assert(f.kind == ChangeKind::Renamed && f.from_path == into.from_path);
                assert forall|p: int| #[trigger] renamed_since(es, p) implies f.from_path
                    == es[p].from_path by {
                    lemma_renamed_since(a, e, p);
                    assert(p < n);
                    assert(renamed_since(a, p));
                    assert(es[p] == a[p]);
                }
            } else {
                assert forall|p: int| #[trigger] renamed_since(es, p) implies f.kind
                    == ChangeKind::Renamed && f.from_path == es[p].from_path by {
                    lemma_renamed_since(a, e, p);
                    if p < n {
                        assert(stays_from(a, p) && a[p].kind == RawEventKind::Renamed);
                    }
                    assert(es[n] == e);
                }
            }
        }
    }
}

proof fn lemma_first_stay(a: Seq<RawEventView>, q: int) -> (r: int)
    requires
        stays_from(a, q),
        a[q].kind == RawEventKind::Renamed,
    ensures
        stays_from(a, r),
        a[r].kind == RawEventKind::Renamed,
        forall|j: int|
            0 <= j < r && #[trigger] stays_from(a, j) ==> a[j].kind != RawEventKind::Renamed,
    decreases q,
{
    if exists|j: int|
        0 <= j < q && #[trigger] stays_from(a, j) && a[j].kind == RawEventKind::Renamed {
        let j = choose|j: int|
            0 <= j < q && #[trigger] stays_from(a, j) && a[j].kind == RawEventKind::Renamed;
        lemma_first_stay(a, j)
    } else {
        q
    }
}

/// Two changes of a file as one sum up the events of both.
proof fn lemma_folded(
    into: FileChangeView,
    a: Seq<RawEventView>,
    later: FileChangeView,
    b: Seq<RawEventView>,
    apart: bool,
)
    requires
        sums_up(into, a, apart),
        sums_up(later, b, apart),
        a.len() + b.len() <= u32::MAX,
        apart ==> b.len() == 1 && later.kind == change_of(b[0]).kind && later.from_path
            == b[0].from_path,
    ensures
        sums_up(folded(into, later), a + b, apart),
{
    lemma_tells(into, a, later, b);
    assert((a + b)[0] == a[0]);
    assert((a + b).last() == b.last());
    if apart {
        assert(a + b =~= a.push(b[0]));
        lemma_tells_apart(into, a, b[0]);
    }
}

// ---------------------------------------------------------------------------
// Edits
/// Nanoseconds from `a` to `b`.
pub open spec fn nanos_between(a: Timestamp, b: Timestamp) -> int {
    (b.secs - a.secs) * 1_000_000_000 + b.nanos - a.nanos
}

/// No event is part of the same edit as the one before: it is of another file,
/// or comes half a second later.
pub open spec fn all_apart(es: Seq<RawEventView>) -> bool {
    forall|i: int, j: int|
        0 <= i < j < es.len() && j == i + 1 ==> !path::same_path(
            (#[trigger] es[i]).path,
            (#[trigger] es[j]).path,
        ) || nanos_between(es[i].timestamp, es[j].timestamp) >= 500_000_000
}

/// Where the edits that some changes sum up end among the events.
pub open spec fn is_cut(
    changes: Seq<FileChangeView>,
    es: Seq<RawEventView>,
    cuts: Seq<int>,
    apart: bool,
) -> bool {
    &&& cuts.len() == changes.len() + 1
    &&& cuts[0] == 0
    &&& cuts.last() == es.len()
    &&& forall|k: int|
        0 <= k < changes.len() ==> is_edit(
            #[trigger] changes[k],
            es,
            cuts[k],
            cuts[k + 1],
            apart,
        )
}

/// A change sums up the events from `from` up to `to`, all of its file.
pub open spec fn is_edit(
    c: FileChangeView,
    es: Seq<RawEventView>,
    from: int,
    to: int,
    apart: bool,
) -> bool {
    &&& 0 <= from < to <= es.len()
    &&& sums_up(c, es.subrange(from, to), apart)
    &&& forall|i: int| from <= i < to ==> path::same_path((#[trigger] es[i]).path, c.path)
    &&& apart ==> to == from + 1 && c.kind == change_of(es[from]).kind && c.from_path
        == es[from].from_path
}

proof fn lemma_edit_kept(
    c: FileChangeView,
    es: Seq<RawEventView>,
    e: RawEventView,
    from: int,
    to: int,
    apart: bool,
)
    requires
        is_edit(c, es, from, to, apart),
    ensures
        is_edit(c, es.push(e), from, to, apart),
{
    assert(es.push(e).subrange(from, to) =~= es.subrange(from, to));
    assert forall|i: int| from <= i < to implies path::same_path(
        (#[trigger] es.push(e)[i]).path,
        c.path,
    ) by {
        assert(es.push(e)[i] == es[i]);
    }
}

proof fn lemma_edit_longer(
    c: FileChangeView,
    rest: Seq<RawEventView>,
    e: RawEventView,
    from: int,
    apart: bool,
)
    requires
        is_edit(c, rest, from, rest.len() as int, apart),
        rest.len() < u32::MAX,
        path::same_path(c.path, e.path),
        gap(c.last_seen, e.timestamp) < super::checkpoint::DEBOUNCE,
        apart ==> all_apart(rest.push(e)),
    ensures
        is_edit(folded(c, change_of(e)), rest.push(e), from, rest.len() as int + 1, apart),
{
    let es = rest.push(e);
    let n = rest.len() as int;
    let f = folded(c, change_of(e));
    if apart {
        assert(rest.subrange(from, n).last() == rest[n - 1]);
        assert(es[n - 1] == rest[n - 1] && es[n] == e);
        assert(path::same_path(es[n - 1].path, es[n].path));
        assert(nanos_between(es[n - 1].timestamp, es[n].timestamp) >= 500_000_000);
        assert(false);
    }
    lemma_one_event(e);
    lemma_folded(c, rest.subrange(from, n), change_of(e), seq![e], apart);
    assert(rest.subrange(from, n) + seq![e] =~= es.subrange(from, n + 1));
    assert forall|i: int| from <= i < n + 1 implies path::same_path(
        (#[trigger] es[i]).path,
        f.path,
    ) by {
        if i < n {
            assert(es[i] == rest[i]);
        }
    }
}

/// The changes that a run of events amounts to sum up the events, all of them,
/// in their order, each change those of one file.
#[verifier::rlimit(40)]
pub proof fn lemma_changes_sum_up_their_events(es: Seq<RawEventView>, apart: bool) -> (cuts: Seq<int>)
    requires
        es.len() <= u32::MAX,
        apart ==> all_apart(es),
    ensures
        is_cut(debounced(es), es, cuts, apart),
    decreases es.len(),
{
    if es.len() == 0 {
        seq![0int]
    } else {
        let rest = es.drop_last();
        let e = es.last();
        let n = rest.len() as int;
        assert(es =~= rest.push(e));
        if apart {
            assert forall|i: int, j: int|
                0 <= i < j < rest.len() && j == i + 1 implies !path::same_path(
                (#[trigger] rest[i]).path,
                (#[trigger] rest[j]).path,
            ) || nanos_between(rest[i].timestamp, rest[j].timestamp) >= 500_000_000 by {
                assert(rest[i] == es[i] && rest[j] == es[j]);
            }
        }
        let cuts = lemma_changes_sum_up_their_events(rest, apart);
        let before = debounced(rest);
        let after = debounced(es);
        let change = change_of(e);
        lemma_one_event(e);
        assert forall|k: int| 0 <= k < before.len() implies is_edit(
            #[trigger] before[k],
            es,
            cuts[k],
            cuts[k + 1],
            apart,
        ) by {
            lemma_edit_kept(before[k], rest, e, cuts[k], cuts[k + 1], apart);
        }
        let m = before.len() as int;
        if m > 0 && path::same_path(before.last().path, change.path) && gap(
            before.last().last_seen,
            change.first_seen,
        ) < super::checkpoint::DEBOUNCE {
            let from = cuts[m - 1];
            assert(is_edit(before[m - 1], rest, from, n, apart));
            let more = cuts.update(m, n + 1);
            let f = folded(before.last(), change);
            lemma_edit_longer(before[m - 1], rest, e, from, apart);
            assert(is_edit(f, es, from, n + 1, apart));
            assert(after == before.drop_last().push(f));
            assert forall|k: int| 0 <= k < after.len() implies is_edit(
                #[trigger] after[k],
                es,
                more[k],
                more[k + 1],
                apart,
            ) by {
                if k < m - 1 {
                    assert(after[k] == before[k]);
                }
            }
            more
        } else {
            assert(after == before.push(change));
            let more = cuts.push(n + 1);
            assert(es.subrange(n, n + 1) =~= seq![e]);
            assert(is_edit(change, es, n, n + 1, apart));
            assert forall|k: int| 0 <= k < after.len() implies is_edit(
                #[trigger] after[k],
                es,
                more[k],
                more[k + 1],
                apart,
            ) by {
                if k < m {
                    assert(after[k] == before[k]);
                }
            }
            more
        }
    }
}

// ---------------------------------------------------------------------------
// A run of work
/// The events of a file.
pub open spec fn of_file(es: Seq<RawEventView>, p: Seq<char>) -> Seq<RawEventView> {
    es.filter(|e: RawEventView| path::same_path(e.path, p))
}

/// The file `a` is first seen before the file `b`.
pub open spec fn seen_before(es: Seq<RawEventView>, a: Seq<char>, b: Seq<char>) -> bool {
    exists|i: int| #[trigger] seen_before_at(es, a, b, i)
}

pub open spec fn seen_before_at(
    es: Seq<RawEventView>,
    a: Seq<char>,
    b: Seq<char>,
    i: int,
) -> bool {
    &&& 0 <= i < es.len()
    &&& path::same_path(es[i].path, a)
    &&& forall|j: int| 0 <= j <= i ==> !path::same_path((#[trigger] es[j]).path, b)
}

/// One change for each file that has events, which it sums up, in the order in
/// which the files were first seen.
#[verifier::opaque]
spec fn covers(changes: Seq<FileChangeView>, es: Seq<RawEventView>, apart: bool) -> bool {
    &&& forall|i: int|
        0 <= i < changes.len() ==> sums_up(
            #[trigger] changes[i],
            of_file(es, changes[i].path),
            apart,
        )
    &&& forall|k: int| 0 <= k < es.len() ==> is_covered(changes, (#[trigger] es[k]).path)
    &&& forall|i: int, j: int|
        0 <= i < j < changes.len() ==> seen_before(
            es,
            (#[trigger] changes[i]).path,
            (#[trigger] changes[j]).path,
        )
}

/// Some change is one of a file.
pub open spec fn is_covered(changes: Seq<FileChangeView>, p: Seq<char>) -> bool {
    exists|i: int| 0 <= i < changes.len() && path::same_path((#[trigger] changes[i]).path, p)
}

proof fn lemma_filter_all(es: Seq<RawEventView>, p: Seq<char>)
    ensures
        (forall|i: int| 0 <= i < es.len() ==> path::same_path((#[trigger] es[i]).path, p))
            ==> of_file(es, p) == es,
        (forall|i: int| 0 <= i < es.len() ==> !path::same_path((#[trigger] es[i]).path, p))
            ==> of_file(es, p) == Seq::<RawEventView>::empty(),
    decreases es.len(),
{
    reveal(Seq::filter);
    if es.len() > 0 {
        let rest = es.drop_last();
        lemma_filter_all(rest, p);
        assert forall|i: int| 0 <= i < rest.len() implies rest[i] == #[trigger] es[i] by {}
        assert(es[es.len() - 1] == es.last());
        assert(rest.push(es.last()) =~= es);
    } else {
        assert(of_file(es, p) =~= es);
    }
}

proof fn lemma_of_file_add(a: Seq<RawEventView>, b: Seq<RawEventView>, p: Seq<char>)
    ensures
        of_file(a + b, p) == of_file(a, p) + of_file(b, p),
    decreases b.len(),
{
    reveal(Seq::filter);
    if b.len() == 0 {
        assert(a + b =~= a);
        assert(of_file(a, p) + of_file(b, p) =~= of_file(a, p));
    } else {
        let rest = b.drop_last();
        lemma_of_file_add(a, rest, p);
        assert((a + b).drop_last() =~= a + rest);
        assert((a + b).last() == b.last());
        assert(of_file(a + b, p) =~= of_file(a, p) + of_file(b, p));
    }
}

proof fn lemma_of_file_len(es: Seq<RawEventView>, p: Seq<char>)
    ensures
        of_file(es, p).len() <= es.len(),
        (exists|i: int| 0 <= i < es.len() && path::same_path((#[trigger] es[i]).path, p))
            ==> of_file(es, p).len() > 0,
{
    let pred = |e: RawEventView| path::same_path(e.path, p);
    es.lemma_filter_len(pred);
    if exists|i: int| 0 <= i < es.len() && path::same_path((#[trigger] es[i]).path, p) {
        let i = choose|i: int| 0 <= i < es.len() && path::same_path((#[trigger] es[i]).path, p);
        assert(pred(es[i]));
        es.lemma_filter_contains(pred, i);
    }
}

proof fn lemma_seen_before_kept(
    es: Seq<RawEventView>,
    more: Seq<RawEventView>,
    a: Seq<char>,
    b: Seq<char>,
)
    requires
        seen_before(es, a, b),
    ensures
        seen_before(es + more, a, b),
{
    let i = choose|i: int| #[trigger] seen_before_at(es, a, b, i);
    let all = es + more;
    assert(all[i] == es[i]);
    assert forall|j: int| 0 <= j <= i implies !path::same_path((#[trigger] all[j]).path, b) by {
        assert(all[j] == es[j]);
    }
    assert(seen_before_at(all, a, b, i));
}

/// The files seen so far and one more edit.
#[verifier::rlimit(40)]
proof fn lemma_absorbed(
    cp: CheckpointView,
    es: Seq<RawEventView>,
    change: FileChangeView,
    more: Seq<RawEventView>,
    apart: bool,
)
    requires
        covers(cp.changes, es, apart),
        sums_up(change, more, apart),
        forall|i: int|
            0 <= i < more.len() ==> path::same_path((#[trigger] more[i]).path, change.path),
        apart ==> more.len() == 1 && change.kind == change_of(more[0]).kind && change.from_path
            == more[0].from_path,
        es.len() + more.len() <= u32::MAX,
    ensures
        covers(absorbed(cp, change).changes, es + more, apart),
{
    reveal(covers);
    let was = cp.changes;
    let now = absorbed(cp, change).changes;
    let all = es + more;
    let given = FileChangeView { origin: cp.id, ..change };
    let p = change.path;
    let k = find_path(was, p);
    super::checkpoint::lemma_find_path(was, p);
    assert forall|i: int| 0 <= i < es.len() implies all[i] == #[trigger] es[i] by {}
    assert forall|i: int| 0 <= i < more.len() implies all[es.len() + i] == #[trigger] more[i] by {}
    // What the changes sum up.
    assert forall|i: int| 0 <= i < now.len() implies sums_up(
        #[trigger] now[i],
        of_file(all, now[i].path),
        apart,
    ) by {
        let q = now[i].path;
        lemma_of_file_add(es, more, q);
        lemma_filter_all(more, q);
        if i < was.len() && i != k {
            assert(now[i] == was[i]);
            assert(!path::same_path(was[i].path, p)) by {
                if k < was.len() && k < i {
                    lemma_distinct(was, es, apart, k, i);
                }
            }
            assert forall|j: int| 0 <= j < more.len() implies !path::same_path(
                (#[trigger] more[j]).path,
                q,
            ) by {}
            assert(of_file(es, q) + Seq::<RawEventView>::empty() =~= of_file(es, q));
        } else if i < was.len() {
            assert(now[i] == folded(was[k], given));
            assert forall|j: int| 0 <= j < more.len() implies path::same_path(
                (#[trigger] more[j]).path,
                q,
            ) by {}
            lemma_of_file_len(es, q);
            lemma_folded(was[k], of_file(es, q), given, more, apart);
        } else {
            assert(now[i] == given);
            assert forall|j: int| 0 <= j < es.len() implies !path::same_path(
                (#[trigger] es[j]).path,
                q,
            ) by {
                assert(is_covered(was, es[j].path));
                let m = choose|m: int|
                    0 <= m < was.len() && path::same_path((#[trigger] was[m]).path, es[j].path);
                assert(!path::same_path(was[m].path, p));
            }
            lemma_filter_all(es, q);
            assert(Seq::<RawEventView>::empty() + more =~= more);
        }
    }
    // Every event is covered.
    assert forall|j: int| 0 <= j < all.len() implies is_covered(
        now,
        (#[trigger] all[j]).path,
    ) by {
        if j < es.len() {
            assert(all[j] == es[j]);
            let m = choose|m: int|
                0 <= m < was.len() && path::same_path((#[trigger] was[m]).path, es[j].path);
            assert(now[m].path == was[m].path);
        } else {
            assert(all[j] == more[j - es.len()]);
            if k < was.len() {
                assert(now[k].path == was[k].path);
            } else {
                assert(now[was.len() as int].path == p);
            }
        }
    }
    // In the order first seen.
    assert forall|i: int, j: int| 0 <= i < j < now.len() implies seen_before(
        all,
        (#[trigger] now[i]).path,
        (#[trigger] now[j]).path,
    ) by {
        if j < was.len() {
            assert(now[i].path == was[i].path && now[j].path == was[j].path);
            assert(seen_before(es, was[i].path, was[j].path));
            lemma_seen_before_kept(es, more, was[i].path, was[j].path);
        } else {
            assert(k >= was.len());
            assert(now[i] == was[i] && now[j] == given);
            let theirs = of_file(es, was[i].path);
            assert(sums_up(was[i], theirs, apart));
            let a = lemma_some_event(es, was[i].path);
            assert forall|b: int| 0 <= b <= a implies !path::same_path(
                (#[trigger] all[b]).path,
                p,
            ) by {
                assert(all[b] == es[b]);
                assert(is_covered(was, es[b].path));
                let m = choose|m: int|
                    0 <= m < was.len() && path::same_path((#[trigger] was[m]).path, es[b].path);
                assert(!path::same_path(was[m].path, p));
            }
            assert(all[a] == es[a]);
            assert(seen_before_at(all, was[i].path, p, a));
        }
    }
}

proof fn lemma_some_event(es: Seq<RawEventView>, p: Seq<char>) -> (a: int)
    requires
        of_file(es, p).len() > 0,
    ensures
        0 <= a < es.len(),
        path::same_path(es[a].path, p),
{
    if forall|i: int| 0 <= i < es.len() ==> !path::same_path((#[trigger] es[i]).path, p) {
        lemma_filter_all(es, p);
    }
    choose|a: int| 0 <= a < es.len() && path::same_path((#[trigger] es[a]).path, p)
}

proof fn lemma_distinct(
    changes: Seq<FileChangeView>,
    es: Seq<RawEventView>,
    apart: bool,
    i: int,
    j: int,
)
    requires
        covers(changes, es, apart),
        0 <= i < j < changes.len(),
    ensures
        !path::same_path(changes[i].path, changes[j].path),
{
    reveal(covers);
    assert(seen_before(es, changes[i].path, changes[j].path));
    let a = choose|a: int| #[trigger] seen_before_at(es, changes[i].path, changes[j].path, a);
    assert(!path::same_path(es[a].path, changes[j].path));
}

// ---------------------------------------------------------------------------
// From the log to the runs
/// The checkpoints that some records amount to so far.
spec fn state(session_id: Seq<char>, records: Seq<RecordView>) -> Grouped {
    let (g, run) = grouped(session_id, records);
    pushed_all(session_id, g, debounced(run))
}

spec fn run_of(session_id: Seq<char>, records: Seq<RecordView>) -> Seq<RawEventView> {
    grouped(session_id, records).1
}

/// Some events as records.
pub open spec fn as_records(es: Seq<RawEventView>) -> Seq<RecordView> {
    es.map_values(|e: RawEventView| RecordView::Event(e))
}

proof fn lemma_none_open(session_id: Seq<char>, records: Seq<RecordView>)
    ensures
        grouped(session_id, records).0.open is None,
    decreases records.len(),
{
    if records.len() > 0 {
        lemma_none_open(session_id, records.drop_last());
    }
}

proof fn lemma_grouped_events(
    session_id: Seq<char>,
    records: Seq<RecordView>,
    es: Seq<RawEventView>,
)
    ensures
        grouped(session_id, records + as_records(es)) == (
            grouped(session_id, records).0,
            grouped(session_id, records).1 + es,
        ),
    decreases es.len(),
{
    let all = records + as_records(es);
    if es.len() == 0 {
        assert(all =~= records);
        assert(grouped(session_id, records).1 + es =~= grouped(session_id, records).1);
    } else {
        let rest = es.drop_last();
        lemma_grouped_events(session_id, records, rest);
        assert(all.drop_last() =~= records + as_records(rest));
        assert(all.last() == RecordView::Event(es.last()));
        assert((grouped(session_id, records).1 + rest).push(es.last()) =~= grouped(
            session_id,
            records,
        ).1 + es);
    }
}

proof fn lemma_pushed_concat(
    session_id: Seq<char>,
    g: Grouped,
    a: Seq<FileChangeView>,
    b: Seq<FileChangeView>,
)
    ensures
        pushed_all(session_id, g, a + b) == pushed_all(
            session_id,
            pushed_all(session_id, g, a),
            b,
        ),
    decreases b.len(),
{
    if b.len() == 0 {
        assert(a + b =~= a);
    } else {
        lemma_pushed_concat(session_id, g, a, b.drop_last());
        assert((a + b).drop_last() =~= a + b.drop_last());
        assert((a + b).last() == b.last());
    }
}

proof fn lemma_debounced_ends(es: Seq<RawEventView>)
    requires
        es.len() > 0,
    ensures
        debounced(es).len() > 0,
        debounced(es).last().last_seen == es.last().timestamp,
        debounced(es)[0].first_seen == es[0].timestamp,
    decreases es.len(),
{
    if es.len() > 1 {
        lemma_debounced_ends(es.drop_last());
        assert(es.drop_last()[0] == es[0]);
    } else {
        assert(debounced(es.drop_last()) =~= Seq::empty());
    }
}

/// Events that come much later are edits of their own.
proof fn lemma_debounced_concat(a: Seq<RawEventView>, b: Seq<RawEventView>)
    requires
        a.len() > 0 && b.len() > 0 ==> nanos_between(a.last().timestamp, b[0].timestamp)
            > 30_000_000_000,
    ensures
        debounced(a + b) == debounced(a) + debounced(b),
    decreases b.len(),
{
    let all = a + b;
    if b.len() == 0 {
        assert(all =~= a);
        assert(debounced(a) + debounced(b) =~= debounced(a));
    } else {
        let rest = b.drop_last();
        let e = b.last();
        assert(all.drop_last() =~= a + rest);
        assert(all.last() == e);
        if rest.len() > 0 {
            assert(rest[0] == b[0]);
            lemma_debounced_concat(a, rest);
            lemma_debounced_ends(rest);
            assert((debounced(a) + debounced(rest)).last() == debounced(rest).last());
            assert(debounced(all) =~= debounced(a) + debounced(b));
        } else {
            lemma_debounced_concat(a, rest);
            assert(debounced(rest) =~= Seq::empty());
            assert(debounced(a) + debounced(rest) =~= debounced(a));
            if a.len() > 0 {
                lemma_debounced_ends(a);
                assert(b[0] == e);
            }
            assert(debounced(all) =~= debounced(a).push(change_of(e)));
            assert(debounced(b) =~= seq![change_of(e)]);
            assert(debounced(all) =~= debounced(a) + debounced(b));
        }
    }
}

/// A run of events, each at most half a minute after the one before.
pub open spec fn is_steady(es: Seq<RawEventView>) -> bool {
    forall|i: int, j: int|
        0 <= i < j < es.len() && j == i + 1 ==> nanos_between(
            (#[trigger] es[i]).timestamp,
            (#[trigger] es[j]).timestamp,
        ) <= 30_000_000_000
}

pub open spec fn is_ordered(es: Seq<RawEventView>) -> bool {
    forall|i: int, j: int|
        0 <= i < j < es.len() ==> !earlier(
            (#[trigger] es[j]).timestamp,
            (#[trigger] es[i]).timestamp,
        )
}

/// While work goes on steadily, everything goes into one checkpoint.
spec fn is_open_for(g: Grouped, start: Grouped, es: Seq<RawEventView>, apart: bool) -> bool {
    &&& g.open is Some
    &&& g.done == closed(start).done
    &&& covers(g.open->Some_0.changes, es, apart)
    &&& g.open->Some_0.started_at == es[0].timestamp
    &&& g.open->Some_0.ended_at == es.last().timestamp
    &&& g.open->Some_0.boundary is None
}

proof fn lemma_first_edit(
    session_id: Seq<char>,
    start: Grouped,
    es: Seq<RawEventView>,
    to: int,
    c: FileChangeView,
    apart: bool,
)
    requires
        is_edit(c, es, 0, to, apart),
        es.len() <= u32::MAX,
        !earlier(es[to - 1].timestamp, es[0].timestamp),
        start.open is Some ==> nanos_between(start.open->Some_0.ended_at, es[0].timestamp)
            > 30_000_000_000,
    ensures
        is_open_for(pushed(session_id, start, c), start, es.take(to), apart),
{
    let more = es.subrange(0, to);
    let first = opened(session_id, start.next, c);
    let none = Seq::<RawEventView>::empty();
    assert(more =~= es.take(to));
    assert(more[0] == es[0]);
    assert(more.last() == es[to - 1]);
    assert forall|i: int| 0 <= i < more.len() implies path::same_path(
        (#[trigger] more[i]).path,
        c.path,
    ) by {
        assert(more[i] == es[i]);
    }
    assert(covers(first.changes, none, apart)) by {
        reveal(covers);
    }
    lemma_absorbed(first, none, c, more, apart);
    assert(none + more =~= more);
}

proof fn lemma_next_edit(
    session_id: Seq<char>,
    start: Grouped,
    before: Grouped,
    es: Seq<RawEventView>,
    from: int,
    to: int,
    c: FileChangeView,
    apart: bool,
)
    requires
        is_open_for(before, start, es.take(from), apart),
        is_edit(c, es, from, to, apart),
        0 < from,
        es.len() <= u32::MAX,
        nanos_between(es[from - 1].timestamp, es[from].timestamp) <= 30_000_000_000,
        !earlier(es[to - 1].timestamp, es[from - 1].timestamp),
    ensures
        is_open_for(pushed(session_id, before, c), start, es.take(to), apart),
{
    let so_far = es.take(from);
    let more = es.subrange(from, to);
    let cp = before.open->Some_0;
    assert(so_far.last() == es[from - 1]);
    assert(so_far[0] == es[0]);
    assert(es.take(to)[0] == es[0]);
    assert(es.take(to).last() == es[to - 1]);
    assert(more[0] == es[from]);
    assert(more.last() == es[to - 1]);
    assert forall|i: int| 0 <= i < more.len() implies path::same_path(
        (#[trigger] more[i]).path,
        c.path,
    ) by {
        assert(more[i] == es[from + i]);
    }
    lemma_absorbed(cp, so_far, c, more, apart);
    assert(so_far + more =~= es.take(to));
}

#[verifier::rlimit(40)]
proof fn lemma_steady(
    session_id: Seq<char>,
    start: Grouped,
    es: Seq<RawEventView>,
    changes: Seq<FileChangeView>,
    cuts: Seq<int>,
    k: int,
    apart: bool,
)
    requires
        is_cut(changes, es, cuts, apart),
        0 < k <= changes.len(),
        es.len() <= u32::MAX,
        is_steady(es),
        is_ordered(es),
        start.open is Some ==> nanos_between(start.open->Some_0.ended_at, es[0].timestamp)
            > 30_000_000_000,
    ensures
        is_open_for(
            pushed_all(session_id, start, changes.take(k)),
            start,
            es.take(cuts[k]),
            apart,
        ),
        0 < cuts[k] <= es.len(),
    decreases k,
{
    let c = changes[k - 1];
    let from = cuts[k - 1];
    let to = cuts[k];
    assert(is_edit(c, es, from, to, apart));
    assert(changes.take(k).drop_last() =~= changes.take(k - 1));
    assert(changes.take(k).last() == c);
    if k > 1 {
        lemma_steady(session_id, start, es, changes, cuts, k - 1, apart);
        let before = pushed_all(session_id, start, changes.take(k - 1));
        assert(nanos_between(es[from - 1].timestamp, es[from].timestamp) <= 30_000_000_000);
        assert(!earlier(es[to - 1].timestamp, es[from - 1].timestamp));
        lemma_next_edit(session_id, start, before, es, from, to, c, apart);
    } else {
        assert(changes.take(0) =~= Seq::empty());
        assert(!earlier(es[to - 1].timestamp, es[0].timestamp));
        lemma_first_edit(session_id, start, es, to, c, apart);
    }
}

// ---------------------------------------------------------------------------
// What comes before
/// The last event of a log that no commit and no end followed.
pub open spec fn is_pending(records: Seq<RecordView>, i: int) -> bool {
    &&& 0 <= i < records.len()
    &&& records[i] is Event
    &&& forall|j: int| i < j < records.len() ==> #[trigger] records[j] is Session
}

/// Work starts afresh after some records: nothing was recorded since HEAD moved
/// or recording ended or started, or it was more than half a minute ago.
pub open spec fn starts_afresh(records: Seq<RecordView>, e: RawEventView) -> bool {
    forall|i: int|
        #[trigger] is_pending(records, i) ==> nanos_between(
            records[i]->Event_0.timestamp,
            e.timestamp,
        ) > 30_000_000_000
}

proof fn lemma_pending(session_id: Seq<char>, records: Seq<RecordView>)
    ensures
        ({
            let run = run_of(session_id, records);
            run.len() > 0 ==> exists|i: int|
                #[trigger] is_pending(records, i) && records[i]->Event_0 == run.last()
        }),
        forall|k: int|
            0 <= k < run_of(session_id, records).len() ==> exists|i: int|
                0 <= i < records.len() && #[trigger] records[i] == RecordView::Event(
                    #[trigger] run_of(session_id, records)[k],
                ),
    decreases records.len(),
{
    if records.len() > 0 {
        let rest = records.drop_last();
        let n = rest.len() as int;
        lemma_pending(session_id, rest);
        let was = run_of(session_id, rest);
        let run = run_of(session_id, records);
        assert forall|i: int| 0 <= i < n implies rest[i] == #[trigger] records[i] by {}
        assert(records[n] == records.last());
        match records.last() {
            RecordView::Event(e) => {
                assert(is_pending(records, n));
                assert(run.last() == e);
                assert forall|k: int| 0 <= k < run.len() implies exists|i: int|
                    0 <= i < records.len() && #[trigger] records[i] == RecordView::Event(
                        #[trigger] run[k],
                    ) by {
                    if k < was.len() {
                        assert(run[k] == was[k]);
                        let i = choose|i: int|
                            0 <= i < rest.len() && #[trigger] rest[i] == RecordView::Event(was[k]);
                        assert(records[i] == RecordView::Event(run[k]));
                    } else {
                        assert(records[n] == RecordView::Event(run[k]));
                    }
                }
            },
            RecordView::Session(_) => {
                assert(run == was);
                if run.len() > 0 {
                    let i = choose|i: int|
                        #[trigger] is_pending(rest, i) && rest[i]->Event_0 == was.last();
                    assert forall|j: int| i < j < records.len() implies #[trigger] records[j]
                        is Session by {
                        if j < n {
                            assert(rest[j] == records[j]);
                        }
                    }
                    assert(is_pending(records, i));
                }
                assert forall|k: int| 0 <= k < run.len() implies exists|i: int|
                    0 <= i < records.len() && #[trigger] records[i] == RecordView::Event(
                        #[trigger] run[k],
                    ) by {
                    let i = choose|i: int|
                        0 <= i < rest.len() && #[trigger] rest[i] == RecordView::Event(was[k]);
                    assert(records[i] == RecordView::Event(run[k]));
                }
            },
            _ => {},
        }
    }
}

proof fn lemma_ends_with_last(
    session_id: Seq<char>,
    g: Grouped,
    changes: Seq<FileChangeView>,
    hi: Timestamp,
)
    requires
        g.open is None,
        changes.len() > 0,
        changes.last().last_seen == hi,
        forall|i: int| 0 <= i < changes.len() ==> !earlier(hi, (#[trigger] changes[i]).last_seen),
    ensures
        pushed_all(session_id, g, changes).open is Some,
        pushed_all(session_id, g, changes).open->Some_0.ended_at == hi,
{
    let rest = changes.drop_last();
    assert forall|i: int| 0 <= i < rest.len() implies !earlier(
        hi,
        (#[trigger] rest[i]).last_seen,
    ) by {
        assert(rest[i] == changes[i]);
    }
    lemma_ends_within(session_id, g, rest, hi);
}

proof fn lemma_ends_within(
    session_id: Seq<char>,
    g: Grouped,
    changes: Seq<FileChangeView>,
    hi: Timestamp,
)
    requires
        g.open is None,
        forall|i: int| 0 <= i < changes.len() ==> !earlier(hi, (#[trigger] changes[i]).last_seen),
    ensures
        ({
            let open = pushed_all(session_id, g, changes).open;
            open is Some ==> !earlier(hi, open->Some_0.ended_at)
        }),
    decreases changes.len(),
{
    if changes.len() > 0 {
        let rest = changes.drop_last();
        assert forall|i: int| 0 <= i < rest.len() implies !earlier(
            hi,
            (#[trigger] rest[i]).last_seen,
        ) by {
            assert(rest[i] == changes[i]);
        }
        lemma_ends_within(session_id, g, rest, hi);
        assert(changes[changes.len() - 1] == changes.last());
    }
}

proof fn lemma_last_seen_within(es: Seq<RawEventView>, hi: Timestamp)
    requires
        forall|i: int| 0 <= i < es.len() ==> !earlier(hi, (#[trigger] es[i]).timestamp),
    ensures
        forall|i: int|
            0 <= i < debounced(es).len() ==> !earlier(hi, (#[trigger] debounced(es)[i]).last_seen),
    decreases es.len(),
{
    if es.len() > 0 {
        let rest = es.drop_last();
        assert forall|i: int| 0 <= i < rest.len() implies !earlier(
            hi,
            (#[trigger] rest[i]).timestamp,
        ) by {
            assert(rest[i] == es[i]);
        }
        lemma_last_seen_within(rest, hi);
        assert(es[es.len() - 1] == es.last());
    }
}

/// The open checkpoint ended when the last event happened.
proof fn lemma_open_end(session_id: Seq<char>, records: Seq<RecordView>)
    requires
        in_time_order(records),
    ensures
        ({
            let s = state(session_id, records);
            let run = run_of(session_id, records);
            &&& run.len() == 0 ==> s.open is None
            &&& run.len() > 0 ==> s.open is Some && s.open->Some_0.ended_at == run.last().timestamp
        }),
{
    let (g, run) = grouped(session_id, records);
    lemma_none_open(session_id, records);
    lemma_pending(session_id, records);
    if run.len() == 0 {
        assert(debounced(run) =~= Seq::empty());
    } else {
        let hi = run.last().timestamp;
        let last = choose|i: int|
            #[trigger] is_pending(records, i) && records[i]->Event_0 == run.last();
        assert forall|k: int| 0 <= k < run.len() implies !earlier(
            hi,
            (#[trigger] run[k]).timestamp,
        ) by {
            let i = choose|i: int|
                0 <= i < records.len() && #[trigger] records[i] == RecordView::Event(
                    run_of(session_id, records)[k],
                );
            if i < last {
                assert(up_to(records[i]->Event_0.timestamp, records[last]->Event_0.timestamp));
            } else if last < i {
                assert(records[i] is Session);
            }
        }
        lemma_last_seen_within(run, hi);
        lemma_debounced_ends(run);
        lemma_ends_with_last(session_id, g, debounced(run), hi);
    }
}

// ---------------------------------------------------------------------------
// What a checkpoint says
/// A file leaves a trace in a run of work unless it is there neither before the
/// first of its events nor after the last.
pub open spec fn leaves(run: Seq<RawEventView>, p: Seq<char>) -> bool {
    of_file(run, p)[0].before_hash is Some || of_file(run, p).last().after_hash is Some
}

/// A checkpoint describes a run of work: it spans the run; it has one change for
/// each file that leaves a trace, which sums up the events of that file, in the
/// order in which the files were first seen; and it is flagged when they are
/// more than twenty.
pub open spec fn describes(cp: CheckpointView, run: Seq<RawEventView>, apart: bool) -> bool {
    &&& cp.started_at == run[0].timestamp
    &&& cp.ended_at == run.last().timestamp
    &&& cp.bulk == (cp.changes.len() > 20)
    &&& forall|i: int|
        0 <= i < cp.changes.len() ==> sums_up(
            #[trigger] cp.changes[i],
            of_file(run, cp.changes[i].path),
            apart,
        ) && leaves(run, cp.changes[i].path)
    &&& forall|k: int|
        0 <= k < run.len() && leaves(run, (#[trigger] run[k]).path) ==> is_covered(
            cp.changes,
            run[k].path,
        )
    &&& forall|i: int, j: int|
        0 <= i < j < cp.changes.len() ==> seen_before(
            run,
            (#[trigger] cp.changes[i]).path,
            (#[trigger] cp.changes[j]).path,
        )
}

proof fn lemma_of_same_file(es: Seq<RawEventView>, p: Seq<char>, q: Seq<char>)
    requires
        path::same_path(p, q),
    ensures
        of_file(es, p) == of_file(es, q),
    decreases es.len(),
{
    reveal(Seq::filter);
    if es.len() > 0 {
        lemma_of_same_file(es.drop_last(), p, q);
    } else {
        assert(of_file(es, p) =~= of_file(es, q));
    }
}

proof fn lemma_finished(cp: CheckpointView, run: Seq<RawEventView>, apart: bool)
    requires
        covers(cp.changes, run, apart),
        cp.started_at == run[0].timestamp,
        cp.ended_at == run.last().timestamp,
    ensures
        match finished(cp) {
            Some(f) => describes(f, run, apart) && f.boundary == cp.boundary,
            None => true,
        },
        finished(cp) is Some <==> exists|k: int|
            0 <= k < run.len() && leaves(run, (#[trigger] run[k]).path),
{
    reveal(covers);
    let pred = |c: FileChangeView| leaves_trace(c);
    let kept = cp.changes.filter(pred);
    crate::choice::lemma_filter_selects(cp.changes, pred);
    let places = choose|places: Seq<int>|
        crate::choice::selects_at(cp.changes, pred, kept, places);
    assert forall|i: int| 0 <= i < kept.len() implies sums_up(
        #[trigger] kept[i],
        of_file(run, kept[i].path),
        apart,
    ) && leaves(run, kept[i].path) by {
        assert(0 <= places[i] < cp.changes.len());
        assert(kept[i] == cp.changes[places[i]]);
    }
    assert forall|k: int| 0 <= k < run.len() && leaves(
        run,
        (#[trigger] run[k]).path,
    ) implies is_covered(kept, run[k].path) by {
        assert(is_covered(cp.changes, run[k].path));
        let m = choose|m: int|
            0 <= m < cp.changes.len() && path::same_path(
                (#[trigger] cp.changes[m]).path,
                run[k].path,
            );
        lemma_of_same_file(run, cp.changes[m].path, run[k].path);
        assert(pred(cp.changes[m]));
        let i = choose|i: int| 0 <= i < places.len() && places[i] == m;
        assert(kept[i] == cp.changes[places[i]]);
    }
    assert forall|i: int, j: int| 0 <= i < j < kept.len() implies seen_before(
        run,
        (#[trigger] kept[i]).path,
        (#[trigger] kept[j]).path,
    ) by {
        assert(places[i] < places[j]);
        assert(kept[i] == cp.changes[places[i]] && kept[j] == cp.changes[places[j]]);
    }
    if kept.len() > 0 {
        assert(leaves(run, kept[0].path));
        let k = lemma_some_event(run, kept[0].path);
        lemma_of_same_file(run, kept[0].path, run[k].path);
        assert(leaves(run, run[k].path));
    }
}

// ---------------------------------------------------------------------------
// What comes after
/// A run of work ends before some records: they are of no event, or the first
/// that counts is a movement of HEAD, an end of recording, or an event more than
/// half a minute later.
pub open spec fn ends_before(e: RawEventView, records: Seq<RecordView>) -> bool {
    forall|j: int|
        0 <= j < records.len() && (#[trigger] records[j]) is Event && all_session(records.take(j))
            ==> nanos_between(e.timestamp, records[j]->Event_0.timestamp) > 30_000_000_000
}

pub open spec fn all_session(records: Seq<RecordView>) -> bool {
    forall|i: int| 0 <= i < records.len() ==> #[trigger] records[i] is Session
}

/// A boundary is the first movement of HEAD among some records, and nothing
/// where there is none.
pub open spec fn is_boundary(b: Option<CommitBoundaryView>, records: Seq<RecordView>) -> bool {
    match b {
        Some(b) => exists|k: int| #[trigger] moves_first(b, records, k),
        None => forall|k: int| 0 <= k < records.len() ==> !(#[trigger] records[k] is Commit),
    }
}

pub open spec fn moves_first(b: CommitBoundaryView, records: Seq<RecordView>, k: int) -> bool {
    &&& 0 <= k < records.len()
    &&& records[k] is Commit
    &&& records[k]->from_head == b.from_head
    &&& records[k]->to_head == b.to_head
    &&& forall|j: int| 0 <= j < k ==> !(#[trigger] records[j] is Commit)
}

proof fn lemma_boundary_kept(
    b: Option<CommitBoundaryView>,
    records: Seq<RecordView>,
    r: RecordView,
)
    requires
        is_boundary(b, records),
    ensures
        b is Some || !(r is Commit) ==> is_boundary(b, records.push(r)),
        b is None && r is Commit ==> is_boundary(
            Some(CommitBoundaryView { from_head: r->from_head, to_head: r->to_head }),
            records.push(r),
        ),
{
    let all = records.push(r);
    let n = records.len() as int;
    assert forall|k: int| 0 <= k < n implies all[k] == #[trigger] records[k] by {}
    assert(all[n] == r);
    match b {
        Some(c) => {
            let k = choose|k: int| #[trigger] moves_first(c, records, k);
            assert forall|j: int| 0 <= j < k implies !(#[trigger] all[j] is Commit) by {
                assert(all[j] == records[j]);
            }
            assert(all[k] == records[k]);
            assert(moves_first(c, all, k));
        },
        None => {
            assert forall|k: int| 0 <= k < n implies !(#[trigger] all[k] is Commit) by {
                assert(all[k] == records[k]);
            }
            if r is Commit {
                let c = CommitBoundaryView { from_head: r->from_head, to_head: r->to_head };
                assert(moves_first(c, all, n));
                let found = Some(c);
                assert(found->Some_0 == c);
                assert(moves_first(found->Some_0, all, n));
                assert(is_boundary(found, all));
            }
        },
    }
}

/// One more event leaves what is done alone.
proof fn lemma_event_keeps_done(session_id: Seq<char>, records: Seq<RecordView>, e: RawEventView)
    ensures
        state(session_id, records).done.is_prefix_of(
            state(session_id, records.push(RecordView::Event(e))).done,
        ),
        state(session_id, records).done.len() <= state(
            session_id,
            records.push(RecordView::Event(e)),
        ).done.len(),
{
    let all = records.push(RecordView::Event(e));
    assert(all.drop_last() =~= records);
    let (g, run) = grouped(session_id, records);
    let before = debounced(run);
    let after = debounced(run.push(e));
    assert(run.push(e).drop_last() =~= run);
    let s = state(session_id, records);
    let t = state(session_id, all);
    if after.len() == before.len() + 1 && after == before.push(change_of(e)) {
        assert(after.drop_last() =~= before);
        assert(t == pushed(session_id, s, change_of(e)));
        assert(s.done =~= t.done.subrange(0, s.done.len() as int));
    } else {
        let f = folded(before.last(), change_of(e));
        assert(after == before.drop_last().push(f));
        assert(after.drop_last() =~= before.drop_last());
        let y = pushed_all(session_id, g, before.drop_last());
        assert(s == pushed(session_id, y, before.last()));
        assert(t == pushed(session_id, y, f));
        assert(s.done =~= t.done.subrange(0, s.done.len() as int));
    }
}

proof fn lemma_state_of(session_id: Seq<char>, records: Seq<RecordView>, r: RecordView)
    ensures
        r is Session ==> state(session_id, records.push(r)) == state(session_id, records)
            && run_of(session_id, records.push(r)) == run_of(session_id, records),
        r is End ==> state(session_id, records.push(r)) == closed(state(session_id, records)),
        r is Commit ==> state(session_id, records.push(r)) == head_moved(
            state(session_id, records),
            r->from_head,
            r->to_head,
        ),
{
    assert(records.push(r).drop_last() =~= records);
    assert(debounced(Seq::empty()) =~= Seq::empty());
}

#[verifier::rlimit(40)]
proof fn lemma_after(
    session_id: Seq<char>,
    so_far: Seq<RecordView>,
    after: Seq<RecordView>,
    f: CheckpointView,
)
    requires
        state(session_id, so_far).open is Some,
        finished(state(session_id, so_far).open->Some_0) == Some(f),
        f.boundary is None,
        run_of(session_id, so_far).len() > 0,
        state(session_id, so_far).open->Some_0.ended_at == run_of(
            session_id,
            so_far,
        ).last().timestamp,
        ends_before(run_of(session_id, so_far).last(), after),
    ensures
        ({
            let s = state(session_id, so_far);
            let t = state(session_id, so_far + after);
            let n = s.done.len() as int;
            if all_session(after) {
                t == s && run_of(session_id, so_far + after) == run_of(session_id, so_far)
            } else {
                &&& t.done.len() > n
                &&& is_boundary(t.done[n].boundary, after)
                &&& t.done[n] == CheckpointView { boundary: t.done[n].boundary, ..f }
            }
        }),
    decreases after.len(),
{
    let s = state(session_id, so_far);
    let n = s.done.len() as int;
    if after.len() == 0 {
        assert(so_far + after =~= so_far);
    } else {
        let rest = after.drop_last();
        let r = after.last();
        assert(after =~= rest.push(r));
        assert forall|j: int| 0 <= j < rest.len() implies rest[j] == #[trigger] after[j] by {}
        assert(after[rest.len() as int] == r);
        assert(ends_before(run_of(session_id, so_far).last(), rest)) by {
            assert forall|j: int|
                0 <= j < rest.len() && (#[trigger] rest[j]) is Event && all_session(
                    rest.take(j),
                ) implies nanos_between(
                run_of(session_id, so_far).last().timestamp,
                rest[j]->Event_0.timestamp,
            ) > 30_000_000_000 by {
                assert(rest.take(j) =~= after.take(j));
                assert(after[j] == rest[j]);
            }
        }
        lemma_after(session_id, so_far, rest, f);
        let records = so_far + rest;
        assert(so_far + after =~= records.push(r));
        let t = state(session_id, records);
        let u = state(session_id, records.push(r));
        lemma_state_of(session_id, records, r);
        if all_session(rest) {
            assert(is_boundary(None, rest));
            lemma_boundary_kept(None, rest, r);
            match r {
                RecordView::Session(_) => {
                    assert(all_session(after));
                },
                RecordView::Event(e) => {
                    assert(!all_session(after)) by {
                        assert(!(after[rest.len() as int] is Session));
                    }
                    assert(after.take(rest.len() as int) =~= rest);
                    lemma_new_run(session_id, records, e);
                    assert(u.done[n] == f);
                },
                RecordView::Commit { timestamp, from_head, to_head } => {
                    assert(!all_session(after)) by {
                        assert(!(after[rest.len() as int] is Session));
                    }
                    assert(closed(t).done[n] == f);
                },
                RecordView::End(_) => {
                    assert(!all_session(after)) by {
                        assert(!(after[rest.len() as int] is Session));
                    }
                    assert(closed(t).done[n] == f);
                },
            }
        } else {
            assert(!all_session(after)) by {
                let j = choose|j: int| 0 <= j < rest.len() && !(#[trigger] rest[j] is Session);
                assert(!(after[j] is Session));
            }
            lemma_boundary_kept(t.done[n].boundary, rest, r);
            match r {
                RecordView::Event(e) => {
                    lemma_event_keeps_done(session_id, records, e);
                    assert(t.done =~= u.done.subrange(0, t.done.len() as int));
                    assert(u.done[n] == t.done[n]);
                },
                RecordView::Commit { timestamp, from_head, to_head } => {
                    assert(closed(t).done[n] == t.done[n]);
                },
                RecordView::End(_) => {
                    assert(closed(t).done[n] == t.done[n]);
                },
                RecordView::Session(_) => {},
            }
        }
    }
}

/// An event long after the others closes the open checkpoint.
proof fn lemma_new_run(session_id: Seq<char>, records: Seq<RecordView>, e: RawEventView)
    requires
        state(session_id, records).open is Some,
        run_of(session_id, records).len() > 0,
        state(session_id, records).open->Some_0.ended_at == run_of(
            session_id,
            records,
        ).last().timestamp,
        nanos_between(run_of(session_id, records).last().timestamp, e.timestamp) > 30_000_000_000,
    ensures
        state(session_id, records.push(RecordView::Event(e))).done == closed(
            state(session_id, records),
        ).done,
{
    let (g, run) = grouped(session_id, records);
    let all = records.push(RecordView::Event(e));
    assert(all.drop_last() =~= records);
    assert(run.push(e) =~= run + seq![e]);
    lemma_debounced_concat(run, seq![e]);
    reveal_with_fuel(debounced, 2);
    reveal_with_fuel(pushed_all, 2);
    assert(seq![e].drop_last() =~= Seq::empty());
    assert(debounced(seq![e]) =~= seq![change_of(e)]);
    lemma_pushed_concat(session_id, g, debounced(run), seq![change_of(e)]);
    assert(seq![change_of(e)].drop_last() =~= Seq::empty());
    let s = state(session_id, records);
    assert(state(session_id, all) == pushed(session_id, s, change_of(e)));
}

// ---------------------------------------------------------------------------
// The law
/// What was recorded before is over when work starts afresh.
proof fn lemma_afresh(session_id: Seq<char>, before: Seq<RecordView>, e: RawEventView)
    requires
        in_time_order(before),
        starts_afresh(before, e),
    ensures
        run_of(session_id, before).len() > 0 ==> nanos_between(
            run_of(session_id, before).last().timestamp,
            e.timestamp,
        ) > 30_000_000_000,
        state(session_id, before).open is Some ==> nanos_between(
            state(session_id, before).open->Some_0.ended_at,
            e.timestamp,
        ) > 30_000_000_000,
{
    lemma_open_end(session_id, before);
    lemma_pending(session_id, before);
    let run = run_of(session_id, before);
    if run.len() > 0 {
        let i = choose|i: int|
            #[trigger] is_pending(before, i) && before[i]->Event_0 == run.last();
        assert(is_pending(before, i));
    }
}

/// A run that starts afresh is pushed on its own.
proof fn lemma_run_pushed(session_id: Seq<char>, before: Seq<RecordView>, run: Seq<RawEventView>)
    requires
        run.len() > 0,
        run_of(session_id, before).len() > 0 ==> nanos_between(
            run_of(session_id, before).last().timestamp,
            run[0].timestamp,
        ) > 30_000_000_000,
    ensures
        state(session_id, before + as_records(run)) == pushed_all(
            session_id,
            state(session_id, before),
            debounced(run),
        ),
        run_of(session_id, before + as_records(run)).len() > 0,
        run_of(session_id, before + as_records(run)).last() == run.last(),
{
    let (g, r0) = grouped(session_id, before);
    lemma_grouped_events(session_id, before, run);
    lemma_debounced_concat(r0, run);
    lemma_pushed_concat(session_id, g, debounced(r0), debounced(run));
    assert((r0 + run).last() == run.last());
}

/// A steady run fills one checkpoint.
#[verifier::rlimit(40)]
proof fn lemma_run_fills(session_id: Seq<char>, start: Grouped, run: Seq<RawEventView>)
    requires
        0 < run.len() <= u32::MAX,
        is_ordered(run),
        is_steady(run),
        start.open is Some ==> nanos_between(start.open->Some_0.ended_at, run[0].timestamp)
            > 30_000_000_000,
    ensures
        is_open_for(
            pushed_all(session_id, start, debounced(run)),
            start,
            run,
            all_apart(run),
        ),
{
    let apart = all_apart(run);
    let changes = debounced(run);
    let cuts = lemma_changes_sum_up_their_events(run, apart);
    let m = changes.len() as int;
    lemma_debounced_ends(run);
    lemma_steady(session_id, start, run, changes, cuts, m, apart);
    assert(changes.take(m) =~= changes);
    assert(run.take(cuts[m]) =~= run);
}

proof fn lemma_run_state(
    session_id: Seq<char>,
    before: Seq<RecordView>,
    run: Seq<RawEventView>,
)
    requires
        0 < run.len() <= u32::MAX,
        in_time_order(before),
        is_ordered(run),
        starts_afresh(before, run[0]),
        is_steady(run),
    ensures
        is_open_for(
            state(session_id, before + as_records(run)),
            state(session_id, before),
            run,
            all_apart(run),
        ),
        run_of(session_id, before + as_records(run)).len() > 0,
        run_of(session_id, before + as_records(run)).last() == run.last(),
{
    lemma_afresh(session_id, before, run[0]);
    lemma_run_pushed(session_id, before, run);
    lemma_run_fills(session_id, state(session_id, before), run);
}

/// A run of work that starts afresh, goes on steadily, and ends, is described by
/// one checkpoint, which follows those of what was recorded before it. It is
/// bounded by the first movement of HEAD after it. A run that leaves no trace
/// makes no checkpoint.
///
/// The events have to stand in the order in which they happened.
#[verifier::rlimit(40)]
pub proof fn lemma_runs_become_checkpoints(
    session_id: Seq<char>,
    before: Seq<RecordView>,
    run: Seq<RawEventView>,
    after: Seq<RecordView>,
)
    requires
        0 < run.len() <= u32::MAX,
        in_time_order(before + as_records(run) + after),
        starts_afresh(before, run[0]),
        is_steady(run),
        ends_before(run.last(), after),
    ensures
        ({
            let n = checkpoints_of(session_id, before).len() as int;
            let now = checkpoints_of(session_id, before + as_records(run));
            let all = checkpoints_of(session_id, before + as_records(run) + after);
            if exists|k: int| 0 <= k < run.len() && leaves(run, (#[trigger] run[k]).path) {
                &&& now.len() == n + 1
                &&& now.take(n) == checkpoints_of(session_id, before)
                &&& all.len() > n
                &&& describes(all[n], run, all_apart(run))
                &&& all[n].session_id == session_id
                &&& is_boundary(all[n].boundary, after)
            } else {
                now == checkpoints_of(session_id, before)
            }
        }),
{
    let so_far = before + as_records(run);
    let records = so_far + after;
    let apart = all_apart(run);
    assert(in_time_order(before)) by {
        assert forall|i: int, j: int| 0 <= i < j < before.len() implies match (
            #[trigger] before[i],
            #[trigger] before[j],
        ) {
            (RecordView::Event(a), RecordView::Event(b)) => up_to(a.timestamp, b.timestamp),
            _ => true,
        } by {
            assert(records[i] == before[i] && records[j] == before[j]);
        }
    }
    assert(is_ordered(run)) by {
        assert forall|i: int, j: int| 0 <= i < j < run.len() implies !earlier(
            (#[trigger] run[j]).timestamp,
            (#[trigger] run[i]).timestamp,
        ) by {
            let a = before.len() + i;
            let b = before.len() + j;
            assert(records[a] == RecordView::Event(run[i]));
            assert(records[b] == RecordView::Event(run[j]));
            assert(up_to(records[a]->Event_0.timestamp, records[b]->Event_0.timestamp));
        }
    }
    let start = state(session_id, before);
    let s = state(session_id, so_far);
    lemma_run_state(session_id, before, run);
    let cp = s.open->Some_0;
    lemma_finished(cp, run, apart);
    let n = checkpoints_of(session_id, before).len() as int;
    assert(s.done.len() == n);
    let now = checkpoints_of(session_id, so_far);
    assert(now == closed(s).done);
    match finished(cp) {
        Some(f) => {
            assert(now.take(n) =~= closed(start).done);
            lemma_after(session_id, so_far, after, f);
            let t = state(session_id, records);
            let all = checkpoints_of(session_id, records);
            assert(all == closed(t).done);
            if all_session(after) {
                assert(all[n] == f);
            } else {
                assert(all[n] == t.done[n]);
            }
            lemma_described_alike(f, all[n], run, apart);
            super::checkpoint::lemma_checkpoints_well_made(session_id, records);
            assert(super::checkpoint::well_made(session_id, all[n]));
        },
        None => {
            assert(now =~= checkpoints_of(session_id, before));
        },
    }
}

proof fn lemma_described_alike(
    f: CheckpointView,
    cp: CheckpointView,
    run: Seq<RawEventView>,
    apart: bool,
)
    requires
        describes(f, run, apart),
        cp == (CheckpointView { boundary: cp.boundary, ..f }),
    ensures
        describes(cp, run, apart),
{
}

} // verus!
