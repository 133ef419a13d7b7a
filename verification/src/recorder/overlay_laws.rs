//! What the overlay shows, and where.

use super::checkpoint::{CheckpointView, FileChange, FileChangeView};
use super::metadata::{
    all_changes, applied, described, id_index, leaving, leaving_all, move_target, movers, non_empty,
    placed_all, regrouped, staying, stripped, with_change, BySeen, MetadataView, MoveView,
};
use crate::choice::{lemma_selects_last, lemma_selects_none, selects};
use crate::order::{lemma_sorted, Order};
use crate::path;
use crate::time::earlier;
use vstd::multiset::Multiset;
use vstd::prelude::*;

verus! {

/// What people said of a checkpoint is shown with it; one they said nothing of
/// is shown as it was recorded.
pub open spec fn says(m: MetadataView, cp: CheckpointView, shown: CheckpointView) -> bool {
    if m.checkpoints.dom().contains(cp.id) {
        &&& shown.title == m.checkpoints[cp.id].title
        &&& shown.hidden == m.checkpoints[cp.id].hidden
        &&& shown.annotation == m.checkpoints[cp.id].annotation
    } else {
        &&& shown.title == cp.title
        &&& shown.hidden == cp.hidden
        &&& shown.annotation == cp.annotation
    }
}

/// What nobody can say otherwise.
pub open spec fn stays_recorded(cp: CheckpointView, shown: CheckpointView) -> bool {
    &&& shown.id == cp.id
    &&& shown.session_id == cp.session_id
    &&& shown.started_at == cp.started_at
    &&& shown.ended_at == cp.ended_at
    &&& shown.boundary == cp.boundary
    &&& shown.source == cp.source
    &&& shown.confidence == cp.confidence
}

/// Without moves every checkpoint is shown, in its place, with its changes and
/// with what was said of it.
pub proof fn lemma_overlay_says(m: MetadataView, cps: Seq<CheckpointView>)
    requires
        m.moves.len() == 0,
    ensures
        applied(m, cps).len() == cps.len(),
        forall|i: int|
            0 <= i < cps.len() ==> {
                &&& says(m, cps[i], #[trigger] applied(m, cps)[i])
                &&& stays_recorded(cps[i], applied(m, cps)[i])
                &&& applied(m, cps)[i].changes == cps[i].changes
                &&& applied(m, cps)[i].bulk == cps[i].bulk
            },
{
}

// ---------------------------------------------------------------------------
// Moves
/// Move `k` is the first that names a change.
pub open spec fn moves_it(moves: Seq<MoveView>, c: FileChangeView, k: int) -> bool {
    &&& 0 <= k < moves.len()
    &&& moves[k].from == c.origin
    &&& path::same_path(moves[k].path, c.path)
    &&& forall|j: int|
        0 <= j < k ==> !((#[trigger] moves[j]).from == c.origin && path::same_path(
            moves[j].path,
            c.path,
        ))
}

/// There is a checkpoint with an id.
pub open spec fn is_there(cps: Seq<CheckpointView>, id: Seq<char>) -> bool {
    exists|i: int| 0 <= i < cps.len() && (#[trigger] cps[i]).id == id
}

/// A change is shown in the checkpoint `id`: the one that the first move that
/// names the change puts it in, if that is there, and otherwise the one that it
/// was recorded in.
pub open spec fn is_shown_in(
    moves: Seq<MoveView>,
    cps: Seq<CheckpointView>,
    c: FileChangeView,
    id: Seq<char>,
) -> bool {
    if exists|k: int| #[trigger] moves_it(moves, c, k) && is_there(cps, moves[k].to) {
        exists|k: int| #[trigger] moves_it(moves, c, k) && moves[k].to == id
    } else {
        c.origin == id
    }
}

/// Checkpoints as they were recorded: no two share an id, and every change
/// names the checkpoint that holds it.
pub open spec fn as_recorded(cps: Seq<CheckpointView>) -> bool {
    &&& forall|i: int, j: int|
        0 <= i < j < cps.len() ==> (#[trigger] cps[i]).id != (#[trigger] cps[j]).id
    &&& forall|i: int, j: int|
        0 <= i < cps.len() && 0 <= j < cps[i].changes.len() ==> (
        #[trigger] cps[i].changes[j]).origin == cps[i].id
}

proof fn lemma_move_target(moves: Seq<MoveView>, c: FileChangeView)
    ensures
        match move_target(moves, c) {
            Some(to) => exists|k: int| #[trigger] moves_it(moves, c, k) && moves[k].to == to,
            None => forall|k: int| !(#[trigger] moves_it(moves, c, k)),
        },
        forall|j: int, k: int|
            #[trigger] moves_it(moves, c, j) && #[trigger] moves_it(moves, c, k) ==> j == k,
    decreases moves.len(),
{
    if moves.len() > 0 {
        let rest = moves.drop_first();
        lemma_move_target(rest, c);
        if moves[0].from == c.origin && path::same_path(moves[0].path, c.path) {
            assert(moves_it(moves, c, 0));
        } else {
            assert forall|k: int| #[trigger] moves_it(moves, c, k) implies moves_it(
                rest,
                c,
                k - 1,
            ) by {
                assert forall|j: int| 0 <= j < k - 1 implies !((#[trigger] rest[j]).from
                    == c.origin && path::same_path(rest[j].path, c.path)) by {
                    assert(rest[j] == moves[j + 1]);
                }
                assert(rest[k - 1] == moves[k]);
            }
            match move_target(rest, c) {
                Some(to) => {
                    let k = choose|k: int| #[trigger] moves_it(rest, c, k) && rest[k].to == to;
                    assert forall|j: int| 0 <= j < k + 1 implies !((#[trigger] moves[j]).from
                        == c.origin && path::same_path(moves[j].path, c.path)) by {
                        if j > 0 {
                            assert(rest[j - 1] == moves[j]);
                        }
                    }
                    assert(rest[k] == moves[k + 1]);
                    assert(moves_it(moves, c, k + 1));
                },
                None => {},
            }
        }
    }
    assert forall|j: int, k: int|
        #[trigger] moves_it(moves, c, j) && #[trigger] moves_it(moves, c, k) implies j == k by {
        if j < k {
            assert(!(moves[j].from == c.origin && path::same_path(moves[j].path, c.path)));
        } else if k < j {
            assert(!(moves[k].from == c.origin && path::same_path(moves[k].path, c.path)));
        }
    }
}

/// Where a change goes: its target, if that is there, or else where it was.
spec fn goes_to(moves: Seq<MoveView>, ids: Seq<Seq<char>>, c: FileChangeView) -> Seq<char> {
    match move_target(moves, c) {
        Some(to) => if ids.contains(to) {
            to
        } else {
            c.origin
        },
        None => c.origin,
    }
}

spec fn ids_of(cps: Seq<CheckpointView>) -> Seq<Seq<char>> {
    cps.map_values(|cp: CheckpointView| cp.id)
}

proof fn lemma_goes_to(moves: Seq<MoveView>, cps: Seq<CheckpointView>, c: FileChangeView)
    ensures
        forall|id: Seq<char>| #[trigger]
            is_shown_in(moves, cps, c, id) == (goes_to(moves, ids_of(cps), c) == id),
{
    lemma_move_target(moves, c);
    let ids = ids_of(cps);
    assert forall|id: Seq<char>| is_there(cps, id) == #[trigger] ids.contains(id) by {
        if is_there(cps, id) {
            let i = choose|i: int| 0 <= i < cps.len() && (#[trigger] cps[i]).id == id;
            assert(ids[i] == id);
        }
        if ids.contains(id) {
            let i = choose|i: int| 0 <= i < ids.len() && ids[i] == id;
            assert(cps[i].id == id);
        }
    }
    match move_target(moves, c) {
        Some(to) => {
            let k = choose|k: int| #[trigger] moves_it(moves, c, k) && moves[k].to == to;
            assert(is_there(cps, to) == ids.contains(to));
        },
        None => {},
    }
}

proof fn lemma_index(cps: Seq<CheckpointView>, id: Seq<char>)
    ensures
        0 <= id_index(cps, id) <= cps.len(),
        id_index(cps, id) < cps.len() ==> cps[id_index(cps, id)].id == id,
        id_index(cps, id) < cps.len() <==> ids_of(cps).contains(id),
    decreases cps.len(),
{
    let ids = ids_of(cps);
    if cps.len() > 0 {
        if cps[0].id == id {
            assert(ids[0] == id);
        } else {
            let rest = cps.drop_first();
            lemma_index(rest, id);
            let sub = ids_of(rest);
            if sub.contains(id) {
                let i = choose|i: int| 0 <= i < sub.len() && sub[i] == id;
                assert(ids[i + 1] == id);
            }
            if ids.contains(id) {
                let i = choose|i: int| 0 <= i < ids.len() && ids[i] == id;
                assert(sub[i - 1] == id);
            }
        }
    }
}

/// Changes behind their targets.
spec fn are_targets(
    moves: Seq<MoveView>,
    ids: Seq<Seq<char>>,
    moved: Seq<(Seq<char>, FileChangeView)>,
) -> bool {
    forall|i: int|
        0 <= i < moved.len() ==> move_target(moves, (#[trigger] moved[i]).1) == Some(moved[i].0)
            && ids.contains(moved[i].1.origin)
}

/// Placing the moved changes adds to each checkpoint those that go to it.
#[verifier::rlimit(40)]
proof fn lemma_placed(
    moves: Seq<MoveView>,
    cps: Seq<CheckpointView>,
    moved: Seq<(Seq<char>, FileChangeView)>,
    k: int,
)
    requires
        0 <= k < cps.len(),
        are_targets(moves, ids_of(cps), moved),
        forall|i: int, j: int|
            0 <= i < j < cps.len() ==> (#[trigger] cps[i]).id != (#[trigger] cps[j]).id,
    ensures
        placed_all(cps, moved).len() == cps.len(),
        ids_of(placed_all(cps, moved)) == ids_of(cps),
        placed_all(cps, moved)[k] == (CheckpointView {
            changes: placed_all(cps, moved)[k].changes,
            ..cps[k]
        }),
        placed_all(cps, moved)[k].changes.to_multiset() == cps[k].changes.to_multiset().add(
            movers(moved).filter(
                |c: FileChangeView| goes_to(moves, ids_of(cps), c) == cps[k].id,
            ),
        ),
    decreases moved.len(),
{
    broadcast use vstd::seq_lib::group_to_multiset_ensures;

    let ids = ids_of(cps);
    let pred = |c: FileChangeView| goes_to(moves, ids, c) == cps[k].id;
    if moved.len() == 0 {
        assert(movers(moved).filter(pred) =~= Multiset::empty());
        assert(placed_all(cps, moved)[k].changes.to_multiset() =~= cps[k].changes.to_multiset().add(
            movers(moved).filter(pred),
        ));
    } else {
        let rest = moved.drop_last();
        let (to, c) = moved.last();
        assert(moved[moved.len() - 1] == moved.last());
        assert forall|i: int| 0 <= i < rest.len() implies move_target(
            moves,
            (#[trigger] rest[i]).1,
        ) == Some(rest[i].0) && ids.contains(rest[i].1.origin) by {
            assert(rest[i] == moved[i]);
        }
        lemma_placed(moves, cps, rest, k);
        let now = placed_all(cps, rest);
        let after = placed_all(cps, moved);
        lemma_index(now, to);
        lemma_index(now, c.origin);
        let at = if ids.contains(to) {
            id_index(now, to)
        } else {
            id_index(now, c.origin)
        };
        assert(after == now.update(at, with_change(now[at], c)));
        assert(ids_of(after) =~= ids);
        assert(ids_of(now)[at] == goes_to(moves, ids, c));
        assert(ids[at] == cps[at].id && ids[k] == cps[k].id);
        assert(movers(moved) == movers(rest).insert(c));
        if at == k {
            assert(pred(c));
            assert(after[k].changes == now[k].changes.push(c));
            assert(movers(moved).filter(pred) =~= movers(rest).filter(pred).insert(c));
            assert(after[k].changes.to_multiset() =~= now[k].changes.to_multiset().insert(c));
            assert(after[k].changes.to_multiset() =~= cps[k].changes.to_multiset().add(
                movers(moved).filter(pred),
            ));
        } else {
            if at < k {
                assert(cps[at].id != cps[k].id);
            } else {
                assert(cps[k].id != cps[at].id);
            }
            assert(!pred(c));
            assert(after[k] == now[k]);
            assert(movers(moved).filter(pred) =~= movers(rest).filter(pred));
        }
    }
}

#[verifier::rlimit(40)]
proof fn lemma_parts(
    moves: Seq<MoveView>,
    ids: Seq<Seq<char>>,
    changes: Seq<FileChangeView>,
    home: Seq<char>,
    id: Seq<char>,
)
    requires
        forall|j: int| 0 <= j < changes.len() ==> (#[trigger] changes[j]).origin == home,
        ids.contains(home),
    ensures
        are_targets(moves, ids, leaving(moves, changes)),
        changes.to_multiset().filter(|c: FileChangeView| goes_to(moves, ids, c) == id) == (if home
            == id {
            staying(moves, changes).to_multiset()
        } else {
            Multiset::empty()
        }).add(
            movers(leaving(moves, changes)).filter(
                |c: FileChangeView| goes_to(moves, ids, c) == id,
            ),
        ),
    decreases changes.len(),
{
    broadcast use vstd::seq_lib::group_to_multiset_ensures;

    let pred = |c: FileChangeView| goes_to(moves, ids, c) == id;
    if changes.len() == 0 {
        assert(changes.to_multiset() =~= Multiset::empty());
        assert(staying(moves, changes).to_multiset() =~= Multiset::empty());
        assert(changes.to_multiset().filter(pred) =~= Multiset::empty());
        assert(movers(leaving(moves, changes)).filter(pred) =~= Multiset::empty());
        assert(Multiset::<FileChangeView>::empty().add(Multiset::empty()) =~= Multiset::empty());
    } else {
        let rest = changes.drop_last();
        let c = changes.last();
        assert(changes =~= rest.push(c));
        assert(changes[changes.len() - 1] == c);
        assert forall|j: int| 0 <= j < rest.len() implies (#[trigger] rest[j]).origin == home by {
            assert(rest[j] == changes[j]);
        }
        lemma_parts(moves, ids, rest, home, id);
        let out = leaving(moves, changes);
        let base = if home == id {
            staying(moves, rest).to_multiset()
        } else {
            Multiset::empty()
        };
        let held = if home == id {
            staying(moves, changes).to_multiset()
        } else {
            Multiset::empty()
        };
        if pred(c) {
            assert(changes.to_multiset().filter(pred) =~= rest.to_multiset().filter(pred).insert(
                c,
            ));
        } else {
            assert(changes.to_multiset().filter(pred) =~= rest.to_multiset().filter(pred));
        }
        match move_target(moves, c) {
            Some(to) => {
                assert(out.drop_last() =~= leaving(moves, rest));
                assert(out.last() == (to, c));
                assert(movers(out) == movers(leaving(moves, rest)).insert(c));
                assert(staying(moves, changes) == staying(moves, rest));
                if pred(c) {
                    assert(movers(out).filter(pred) =~= movers(leaving(moves, rest)).filter(
                        pred,
                    ).insert(c));
                } else {
                    assert(movers(out).filter(pred) =~= movers(leaving(moves, rest)).filter(pred));
                }
                assert(changes.to_multiset().filter(pred) =~= held.add(movers(out).filter(pred)));
            },
            None => {
                assert(pred(c) == (home == id));
                if home == id {
                    assert(held =~= base.insert(c));
                }
                assert(changes.to_multiset().filter(pred) =~= held.add(movers(out).filter(pred)));
            },
        }
    }
}

proof fn lemma_movers_join(
    a: Seq<(Seq<char>, FileChangeView)>,
    b: Seq<(Seq<char>, FileChangeView)>,
)
    ensures
        movers(a + b) =~= movers(a).add(movers(b)),
    decreases b.len(),
{
    if b.len() == 0 {
        assert(a + b =~= a);
    } else {
        lemma_movers_join(a, b.drop_last());
        assert((a + b).drop_last() =~= a + b.drop_last());
    }
}

proof fn lemma_parts_all(
    moves: Seq<MoveView>,
    ids: Seq<Seq<char>>,
    cps: Seq<CheckpointView>,
    k: int,
    id: Seq<char>,
)
    requires
        as_recorded(cps),
        forall|i: int| 0 <= i < cps.len() ==> ids.contains((#[trigger] cps[i]).id),
        0 <= k < cps.len() ==> cps[k].id == id,
        forall|i: int| 0 <= i < cps.len() && i != k ==> (#[trigger] cps[i]).id != id,
    ensures
        are_targets(moves, ids, leaving_all(moves, cps)),
        all_changes(cps).filter(|c: FileChangeView| goes_to(moves, ids, c) == id) == (if 0 <= k
            < cps.len() {
            staying(moves, cps[k].changes).to_multiset()
        } else {
            Multiset::empty()
        }).add(
            movers(leaving_all(moves, cps)).filter(
                |c: FileChangeView| goes_to(moves, ids, c) == id,
            ),
        ),
    decreases cps.len(),
{
    let pred = |c: FileChangeView| goes_to(moves, ids, c) == id;
    let none = Multiset::<FileChangeView>::empty();
    if cps.len() == 0 {
        assert(all_changes(cps).filter(pred) =~= none);
        assert(movers(leaving_all(moves, cps)).filter(pred) =~= none);
        assert(none.add(none) =~= none);
    } else {
        let rest = cps.drop_last();
        let last = cps.last();
        let n = rest.len() as int;
        assert(cps[n] == last);
        assert forall|i: int| 0 <= i < n implies rest[i] == #[trigger] cps[i] by {}
        assert(as_recorded(rest)) by {
            assert forall|i: int, j: int|
                0 <= i < rest.len() && 0 <= j < rest[i].changes.len() implies (
            #[trigger] rest[i].changes[j]).origin == rest[i].id by {
                assert(cps[i].changes[j].origin == cps[i].id);
            }
        }
        lemma_parts_all(moves, ids, rest, k, id);
        assert forall|j: int| 0 <= j < last.changes.len() implies (
        #[trigger] last.changes[j]).origin == last.id by {
            assert(cps[n].changes[j].origin == cps[n].id);
        }
        lemma_parts(moves, ids, last.changes, last.id, id);
        let a = leaving_all(moves, rest);
        let b = leaving(moves, last.changes);
        lemma_movers_join(a, b);
        assert forall|i: int| 0 <= i < (a + b).len() implies move_target(
            moves,
            (#[trigger] (a + b)[i]).1,
        ) == Some((a + b)[i].0) && ids.contains((a + b)[i].1.origin) by {
            if i < a.len() {
                assert((a + b)[i] == a[i]);
            } else {
                assert((a + b)[i] == b[i - a.len()]);
            }
        }
        assert(movers(a + b).filter(pred) =~= movers(a).filter(pred).add(movers(b).filter(pred)));
        assert(all_changes(cps).filter(pred) =~= all_changes(rest).filter(pred).add(
            last.changes.to_multiset().filter(pred),
        ));
        let held = if 0 <= k < cps.len() {
            staying(moves, cps[k].changes).to_multiset()
        } else {
            none
        };
        assert(all_changes(cps).filter(pred) =~= held.add(movers(a + b).filter(pred)));
    }
}

/// How a checkpoint is shown when changes are moved: as it was recorded and with
/// what was said of it; with the changes that are shown in it, all of them and
/// no others, in the order in which they were first seen and then by path; and
/// flagged when they are more than twenty.
pub open spec fn is_shown_as(
    m: MetadataView,
    cps: Seq<CheckpointView>,
    k: int,
    shown: CheckpointView,
) -> bool {
    &&& says(m, cps[k], shown)
    &&& stays_recorded(cps[k], shown)
    &&& shown.bulk == (shown.changes.len() > 20)
    &&& shown.changes.to_multiset() == all_changes(cps).filter(
        |c: FileChangeView| is_shown_in(m.moves, cps, c, cps[k].id),
    )
    &&& forall|i: int, j: int|
        0 <= i < j < shown.changes.len() ==> {
            let a = #[trigger] shown.changes[i];
            let b = #[trigger] shown.changes[j];
            !earlier(b.first_seen, a.first_seen) && (a.first_seen == b.first_seen ==> !path::less(
                b.path,
                a.path,
            ))
        }
}

/// How every checkpoint would be shown.
pub open spec fn are_shown_as(
    m: MetadataView,
    cps: Seq<CheckpointView>,
    shown: Seq<CheckpointView>,
) -> bool {
    &&& shown.len() == cps.len()
    &&& forall|k: int| 0 <= k < cps.len() ==> is_shown_as(m, cps, k, #[trigger] shown[k])
}

proof fn lemma_non_empty_selects(cps: Seq<CheckpointView>)
    ensures
        selects(cps, |cp: CheckpointView| cp.changes.len() > 0, non_empty(cps)),
    decreases cps.len(),
{
    let pred = |cp: CheckpointView| cp.changes.len() > 0;
    if cps.len() == 0 {
        assert(cps =~= Seq::empty());
        lemma_selects_none(pred);
    } else {
        lemma_non_empty_selects(cps.drop_last());
        lemma_selects_last(cps, pred, non_empty(cps.drop_last()));
    }
}

/// With moves, every change is shown in the checkpoint that the first move that
/// names it puts it in, or where it was recorded; and every checkpoint that is
/// left with a change is shown, in its place.
#[verifier::rlimit(40)]
pub proof fn lemma_overlay_moves(m: MetadataView, cps: Seq<CheckpointView>) -> (shown: Seq<
    CheckpointView,
>)
    requires
        m.moves.len() > 0,
        as_recorded(cps),
    ensures
        are_shown_as(m, cps, shown),
        selects(shown, |cp: CheckpointView| cp.changes.len() > 0, applied(m, cps)),
{
    let said = cps.map_values(|cp: CheckpointView| described(m, cp));
    let kept = said.map_values(|cp: CheckpointView| stripped(m.moves, cp));
    let moved = leaving_all(m.moves, said);
    let put = placed_all(kept, moved);
    let shown = put.map_values(|cp: CheckpointView| regrouped(cp));
    let ids = ids_of(cps);
    assert(ids_of(said) =~= ids);
    assert(ids_of(kept) =~= ids);
    assert(as_recorded(said)) by {
        assert forall|i: int, j: int| 0 <= i < j < said.len() implies (#[trigger] said[i]).id != (
        #[trigger] said[j]).id by {
            assert(cps[i].id != cps[j].id);
        }
        assert forall|i: int, j: int|
            0 <= i < said.len() && 0 <= j < said[i].changes.len() implies (
        #[trigger] said[i].changes[j]).origin == said[i].id by {
            assert(cps[i].changes[j].origin == cps[i].id);
        }
    }
    assert forall|i: int| 0 <= i < said.len() implies ids.contains((#[trigger] said[i]).id) by {
        assert(ids[i] == said[i].id);
    }
    assert forall|i: int, j: int| 0 <= i < j < kept.len() implies (#[trigger] kept[i]).id != (
    #[trigger] kept[j]).id by {
        assert(cps[i].id != cps[j].id);
    }
    lemma_same_changes(m, cps);
    if cps.len() == 0 {
        lemma_nothing_placed(kept, moved);
    }
    assert forall|k: int| 0 <= k < cps.len() implies is_shown_as(m, cps, k, #[trigger] shown[k]) by {
        let id = cps[k].id;
        assert forall|i: int| 0 <= i < said.len() && i != k implies (#[trigger] said[i]).id
            != id by {
            if i < k {
                assert(cps[i].id != cps[k].id);
            } else {
                assert(cps[k].id != cps[i].id);
            }
        }
        lemma_parts_all(m.moves, ids, said, k, id);
        lemma_placed(m.moves, kept, moved, k);
        lemma_sorted::<FileChange, BySeen>(put[k].changes);
        let a = |c: FileChangeView| goes_to(m.moves, ids, c) == id;
        let b = |c: FileChangeView| is_shown_in(m.moves, cps, c, id);
        assert forall|c: FileChangeView| #[trigger] a(c) == b(c) by {
            lemma_goes_to(m.moves, cps, c);
        }
        assert(all_changes(cps).filter(a) =~= all_changes(cps).filter(b));
        assert(kept[k].id == id);
        assert(kept[k].changes == staying(m.moves, said[k].changes));
        assert(shown[k].changes.len() == put[k].changes.len());
        assert forall|i: int, j: int| 0 <= i < j < shown[k].changes.len() implies {
            let a = #[trigger] shown[k].changes[i];
            let b = #[trigger] shown[k].changes[j];
            !earlier(b.first_seen, a.first_seen) && (a.first_seen == b.first_seen ==> !path::less(
                b.path,
                a.path,
            ))
        } by {
            assert(!<BySeen as Order<FileChange>>::lt(
                shown[k].changes[j],
                shown[k].changes[i],
            ));
        }
    }
    assert(shown.len() == cps.len()) by {
        if cps.len() > 0 {
            assert forall|i: int| 0 <= i < said.len() && i != 0 implies (#[trigger] said[i]).id
                != cps[0].id by {
                assert(cps[0].id != cps[i].id);
            }
            lemma_parts_all(m.moves, ids, said, 0, cps[0].id);
            lemma_placed(m.moves, kept, moved, 0);
        }
    }
    lemma_non_empty_selects(shown);
    shown
}

proof fn lemma_nothing_placed(
    cps: Seq<CheckpointView>,
    moved: Seq<(Seq<char>, FileChangeView)>,
)
    requires
        cps.len() == 0,
    ensures
        placed_all(cps, moved) == cps,
    decreases moved.len(),
{
    if moved.len() > 0 {
        lemma_nothing_placed(cps, moved.drop_last());
    }
}

proof fn lemma_same_changes(m: MetadataView, cps: Seq<CheckpointView>)
    ensures
        all_changes(cps.map_values(|cp: CheckpointView| described(m, cp))) == all_changes(cps),
    decreases cps.len(),
{
    let f = |cp: CheckpointView| described(m, cp);
    if cps.len() > 0 {
        lemma_same_changes(m, cps.drop_last());
        assert(cps.map_values(f).drop_last() =~= cps.drop_last().map_values(f));
    } else {
        assert(cps.map_values(f) =~= cps);
    }
}

} // verus!
