//! What holds of every edit.

use super::{
    edit_refusal, field_of, file_of, has_block, header_id, invalid_at, lemma_error_stays, line_read,
    lines_read, parsed, with_field, with_file, BlockView, DocumentView,
};
use super::merge::{
    all_moved, all_moves, assigned, block_occurrences, block_with, complete, differing,
    distinct_files, filled, first_at, first_miscount, first_missing, first_removed, first_unknown,
    ids_of, kept_places, known_ids, lemma_accepted_keeps_files, lemma_distinct_once, lemma_first_at,
    lemma_kept_places, lemma_same_occurrences, lemma_same_targets, matching, merged, meta_of, metas,
    moved_lines, nothing_changed, occurrences, occurrences_at, other_ids, other_moves, path_moves,
    placeless, placements, rejection, summary_matches, targets_at, EditSummary, OccurrenceView,
};
use crate::error::TrailErrorView;
use crate::order::{self, ByText};
use crate::path;
use crate::recorder::checkpoint::{CheckpointView, FileChangeView};
use crate::recorder::metadata::{
    described, move_target, no_meta, CheckpointMetaView, MetadataView, MoveView,
};
use crate::text;
use vstd::multiset::Multiset;
use vstd::prelude::*;

verus! {

/// A document as a trail gives it: no two blocks of one id, and one origin for
/// every file line.
pub open spec fn aligned(doc: DocumentView) -> bool {
    &&& complete(doc)
    &&& forall|i: int, j: int|
        0 <= i < j < doc.blocks.len() ==> (#[trigger] doc.blocks[i]).id != (
        #[trigger] doc.blocks[j]).id
    &&& forall|i: int|
        0 <= i < doc.blocks.len() ==> doc.origins[(#[trigger] doc.blocks[i]).id].len()
            == doc.blocks[i].files.len()
}

proof fn lemma_none_unknown(blocks: Seq<BlockView>, k: int)
    requires
        0 <= k <= blocks.len(),
    ensures
        first_unknown(blocks, blocks.take(k)) is None,
    decreases k,
{
    if k > 0 {
        lemma_none_unknown(blocks, k - 1);
        assert(blocks.take(k).drop_last() =~= blocks.take(k - 1));
        assert(blocks[k - 1].id == blocks.take(k).last().id);
    }
}

proof fn lemma_none_removed(blocks: Seq<BlockView>, ids: Seq<Seq<char>>)
    requires
        forall|i: int| 0 <= i < ids.len() ==> has_block(blocks, #[trigger] ids[i]),
    ensures
        first_removed(ids, blocks) is None,
    decreases ids.len(),
{
    if ids.len() > 0 {
        assert forall|i: int| 0 <= i < ids.drop_last().len() implies has_block(
            blocks,
            #[trigger] ids.drop_last()[i],
        ) by {
            assert(ids.drop_last()[i] == ids[i]);
        }
        lemma_none_removed(blocks, ids.drop_last());
        assert(has_block(blocks, ids[ids.len() - 1]));
    }
}

spec fn places_of(occs: Seq<OccurrenceView>) -> Seq<(Seq<char>, Seq<char>)> {
    occs.map_values(|o: OccurrenceView| (o.path, o.shown))
}

spec fn shown_of(occs: Seq<OccurrenceView>) -> Seq<Seq<char>> {
    occs.map_values(|o: OccurrenceView| o.shown)
}

proof fn lemma_places(doc: DocumentView, k: int)
    requires
        aligned(doc),
        0 <= k <= doc.blocks.len(),
    ensures
        placements(doc.blocks.take(k)) == places_of(
            occurrences(doc.blocks.take(k), doc.origins),
        ),
    decreases k,
{
    let some = doc.blocks.take(k);
    if k == 0 {
        assert(placements(some) =~= places_of(occurrences(some, doc.origins)));
    } else {
        lemma_places(doc, k - 1);
        assert(some.drop_last() =~= doc.blocks.take(k - 1));
        let b = doc.blocks[k - 1];
        assert(some.last() == b);
        assert(doc.origins[doc.blocks[k - 1].id].len() == b.files.len());
        let here = block_occurrences(b, doc.origins[b.id]);
        assert(b.files.map_values(|f: Seq<char>| (f, b.id)) =~= places_of(here));
        assert(placements(some) =~= places_of(occurrences(some, doc.origins)));
    }
}

proof fn lemma_targets(occs: Seq<OccurrenceView>, p: Seq<char>)
    ensures
        targets_at(places_of(occs), p) == shown_of(occurrences_at(occs, p)),
    decreases occs.len(),
{
    let places = places_of(occs);
    if occs.len() == 0 {
        assert(targets_at(places, p) =~= shown_of(occurrences_at(occs, p)));
    } else {
        lemma_targets(occs.drop_last(), p);
        assert(places.drop_last() =~= places_of(occs.drop_last()));
        assert(places.last() == (occs.last().path, occs.last().shown));
        assert(targets_at(places, p) =~= shown_of(occurrences_at(occs, p)));
    }
}

proof fn lemma_occurs(occs: Seq<OccurrenceView>, i: int)
    requires
        0 <= i < occs.len(),
    ensures
        occurrences_at(occs, occs[i].path).len() > 0,
    decreases occs.len(),
{
    if i < occs.len() - 1 {
        lemma_occurs(occs.drop_last(), i);
    }
}

proof fn lemma_no_miscounts(occs: Seq<OccurrenceView>, k: nat)
    requires
        k <= occs.len(),
    ensures
        first_miscount(occs, places_of(occs), k) is None,
    decreases k,
{
    if k > 0 {
        lemma_no_miscounts(occs, (k - 1) as nat);
        let p = occs[k - 1].path;
        assert(places_of(occs)[k - 1].0 == p);
        lemma_targets(occs, p);
        lemma_occurs(occs, k - 1);
    }
}

proof fn lemma_no_missing(occs: Seq<OccurrenceView>, k: int)
    requires
        0 <= k <= occs.len(),
    ensures
        first_missing(occs.take(k), places_of(occs)) is None,
    decreases k,
{
    if k > 0 {
        lemma_no_missing(occs, k - 1);
        assert(occs.take(k).drop_last() =~= occs.take(k - 1));
        let p = occs[k - 1].path;
        lemma_targets(occs, p);
        lemma_occurs(occs, k - 1);
    }
}

proof fn lemma_block_with(blocks: Seq<BlockView>, i: int)
    requires
        0 <= i < blocks.len(),
        forall|a: int, b: int|
            0 <= a < b < blocks.len() ==> (#[trigger] blocks[a]).id != (#[trigger] blocks[b]).id,
    ensures
        block_with(blocks, blocks[i].id) == blocks[i],
    decreases blocks.len(),
{
    if i < blocks.len() - 1 {
        let rest = blocks.drop_last();
        assert forall|a: int, b: int| 0 <= a < b < rest.len() implies (#[trigger] rest[a]).id != (
        #[trigger] rest[b]).id by {
            assert(rest[a] == blocks[a] && rest[b] == blocks[b]);
        }
        lemma_block_with(rest, i);
        assert(blocks[i].id != blocks[blocks.len() - 1].id);
    }
}

proof fn lemma_no_difference(blocks: Seq<BlockView>, k: int)
    requires
        0 <= k <= blocks.len(),
        forall|a: int, b: int|
            0 <= a < b < blocks.len() ==> (#[trigger] blocks[a]).id != (#[trigger] blocks[b]).id,
    ensures
        differing(blocks, blocks.take(k)) == (0int, 0int, 0int),
    decreases k,
{
    if k > 0 {
        lemma_no_difference(blocks, k - 1);
        assert(blocks.take(k).drop_last() =~= blocks.take(k - 1));
        lemma_block_with(blocks, k - 1);
    }
}

spec fn all_kept(occs: Seq<OccurrenceView>) -> Seq<Option<Seq<char>>> {
    occs.map_values(|o: OccurrenceView| Some(o.shown))
}

proof fn lemma_all_kept(occs: Seq<OccurrenceView>, k: int)
    requires
        0 <= k <= occs.len(),
    ensures
        kept_places(occs.take(k), shown_of(occs)) == (
            all_kept(occs.take(k)),
            shown_of(occs).skip(k),
        ),
    decreases k,
{
    let targets = shown_of(occs);
    if k == 0 {
        assert(all_kept(occs.take(0)) =~= Seq::empty());
        assert(targets.skip(0) =~= targets);
    } else {
        lemma_all_kept(occs, k - 1);
        let some = occs.take(k);
        assert(some.drop_last() =~= occs.take(k - 1));
        let left = targets.skip(k - 1);
        assert(left[0] == occs[k - 1].shown);
        assert(first_at(left, some.last().shown) == 0);
        assert(left.remove(0) =~= targets.skip(k));
        assert(all_kept(occs.take(k - 1)).push(Some(some.last().shown)) =~= all_kept(some));
    }
}

proof fn lemma_filled_kept(occs: Seq<OccurrenceView>, left: Seq<Seq<char>>)
    ensures
        filled(all_kept(occs), left) == shown_of(occs),
    decreases occs.len(),
{
    if occs.len() == 0 {
        assert(filled(all_kept(occs), left) =~= shown_of(occs));
    } else {
        lemma_filled_kept(occs.drop_last(), left);
        assert(all_kept(occs).drop_last() =~= all_kept(occs.drop_last()));
        assert(filled(all_kept(occs), left) =~= shown_of(occs));
    }
}

proof fn lemma_none_moved(occs: Seq<OccurrenceView>, blocks: Seq<Seq<char>>)
    requires
        blocks.len() >= occs.len(),
        forall|i: int| 0 <= i < occs.len() ==> (#[trigger] occs[i]).shown == blocks[i],
    ensures
        moved_lines(occs, blocks) == 0,
    decreases occs.len(),
{
    if occs.len() > 0 {
        let rest = occs.drop_last();
        assert forall|i: int| 0 <= i < rest.len() implies (#[trigger] rest[i]).shown
            == blocks[i] by {
            assert(rest[i] == occs[i]);
        }
        lemma_none_moved(rest, blocks);
        assert(occs[occs.len() - 1].shown == blocks[occs.len() - 1]);
    }
}

proof fn lemma_nothing_moved(occs: Seq<OccurrenceView>, paths: Seq<Seq<char>>)
    ensures
        all_moved(occs, places_of(occs), paths) == 0,
    decreases paths.len(),
{
    if paths.len() > 0 {
        lemma_nothing_moved(occs, paths.drop_last());
        let p = paths.last();
        let at = occurrences_at(occs, p);
        lemma_targets(occs, p);
        lemma_all_kept(at, at.len() as int);
        assert(at.take(at.len() as int) =~= at);
        lemma_filled_kept(at, shown_of(at).skip(at.len() as int));
        lemma_none_moved(at, shown_of(at));
    }
}

/// An edit that leaves the blocks as they are is accepted, and nothing is
/// reported as changed.
pub proof fn lemma_unedited_changes_nothing(doc: DocumentView, s: EditSummary)
    requires
        aligned(doc),
        summary_matches(s, doc, doc.blocks),
    ensures
        rejection(doc, doc.blocks) is None,
        s == nothing_changed(),
{
    let blocks = doc.blocks;
    let n = blocks.len() as int;
    assert(blocks.take(n) =~= blocks);
    lemma_none_unknown(blocks, n);
    let ids = known_ids(blocks);
    assert forall|i: int| 0 <= i < ids.len() implies has_block(blocks, #[trigger] ids[i]) by {
        order::lemma_sorted_contains::<String, ByText>(ids_of(blocks), ids[i]);
        assert(ids.contains(ids[i]));
        let j = choose|j: int| 0 <= j < ids_of(blocks).len() && ids_of(blocks)[j] == ids[i];
        assert(blocks[j].id == ids[i]);
    }
    lemma_none_removed(blocks, ids);
    lemma_places(doc, n);
    let occs = occurrences(blocks, doc.origins);
    lemma_no_miscounts(occs, occs.len());
    lemma_no_missing(occs, occs.len() as int);
    assert(occs.take(occs.len() as int) =~= occs);
    lemma_no_difference(blocks, n);
    lemma_nothing_moved(occs, distinct_files(occs));
}

// ---------------------------------------------------------------------------
// Where the lines of an edit end up
spec fn somes(kept: Seq<Option<Seq<char>>>) -> Multiset<Seq<char>>
    decreases kept.len(),
{
    if kept.len() == 0 {
        Multiset::empty()
    } else {
        match kept.last() {
            Some(id) => somes(kept.drop_last()).insert(id),
            None => somes(kept.drop_last()),
        }
    }
}

proof fn lemma_kept_multiset(occs: Seq<OccurrenceView>, targets: Seq<Seq<char>>)
    ensures
        somes(kept_places(occs, targets).0).add(kept_places(occs, targets).1.to_multiset())
            =~= targets.to_multiset(),
    decreases occs.len(),
{
    broadcast use vstd::seq_lib::group_to_multiset_ensures;

    if occs.len() > 0 {
        lemma_kept_multiset(occs.drop_last(), targets);
        let (kept, left) = kept_places(occs.drop_last(), targets);
        let (kept2, left2) = kept_places(occs, targets);
        let x = occs.last().shown;
        lemma_first_at(left, x);
        assert(kept2.drop_last() =~= kept);
        let at = first_at(left, x);
        if at < left.len() {
            assert(left.remove(at).to_multiset() =~= left.to_multiset().remove(left[at]));
            assert(left.contains(left[at]));
            assert(left.to_multiset().count(x) > 0);
        }
    }
}

proof fn lemma_filled_multiset(kept: Seq<Option<Seq<char>>>, left: Seq<Seq<char>>)
    requires
        placeless(kept) <= left.len(),
    ensures
        0 <= placeless(kept),
        filled(kept, left).to_multiset() =~= somes(kept).add(
            left.take(placeless(kept)).to_multiset(),
        ),
    decreases kept.len(),
{
    broadcast use vstd::seq_lib::group_to_multiset_ensures;

    if kept.len() > 0 {
        let rest = kept.drop_last();
        lemma_filled_multiset(rest, left);
        let k = placeless(rest);
        match kept.last() {
            Some(id) => {},
            None => {
                assert(left.take(k + 1) =~= left.take(k).push(left[k]));
            },
        }
    } else {
        assert(left.take(0) =~= Seq::empty());
    }
}

/// The lines of a path take exactly the places that the edited buffer has for
/// it.
pub proof fn lemma_lines_take_their_places(occs: Seq<OccurrenceView>, targets: Seq<Seq<char>>)
    requires
        occs.len() == targets.len(),
    ensures
        assigned(occs, targets).to_multiset() == targets.to_multiset(),
{
    let (kept, left) = kept_places(occs, targets);
    lemma_kept_places(occs, targets);
    lemma_kept_multiset(occs, targets);
    lemma_filled_multiset(kept, left);
    assert(left.take(left.len() as int) =~= left);
}

proof fn lemma_target_concat(a: Seq<MoveView>, b: Seq<MoveView>, c: FileChangeView)
    ensures
        move_target(a + b, c) == (match move_target(a, c) {
            Some(to) => Some(to),
            None => move_target(b, c),
        }),
    decreases a.len(),
{
    if a.len() == 0 {
        assert(a + b =~= b);
    } else {
        lemma_target_concat(a.drop_first(), b, c);
        assert((a + b).drop_first() =~= a.drop_first() + b);
    }
}

spec fn names(m: MoveView, c: FileChangeView) -> bool {
    m.from == c.origin && path::same_path(m.path, c.path)
}

/// No two lines show the same recorded change.
pub open spec fn distinct_changes(occs: Seq<OccurrenceView>) -> bool {
    forall|i: int, j: int|
        0 <= i < j < occs.len() ==> (#[trigger] occs[i]).origin != (#[trigger] occs[j]).origin
            || !path::same_path(occs[i].path, occs[j].path)
}

proof fn lemma_selected(occs: Seq<OccurrenceView>, p: Seq<char>)
    ensures
        forall|i: int|
            0 <= i < occurrences_at(occs, p).len() ==> path::same_path(
                (#[trigger] occurrences_at(occs, p)[i]).path,
                p,
            ) && occs.contains(occurrences_at(occs, p)[i]),
        distinct_changes(occs) ==> distinct_changes(occurrences_at(occs, p)),
    decreases occs.len(),
{
    if occs.len() > 0 {
        let rest = occs.drop_last();
        lemma_selected(rest, p);
        let sub = occurrences_at(rest, p);
        let at = occurrences_at(occs, p);
        assert forall|i: int| 0 <= i < at.len() implies path::same_path(
            (#[trigger] at[i]).path,
            p,
        ) && occs.contains(at[i]) by {
            if i < sub.len() {
                assert(at[i] == sub[i]);
                let j = choose|j: int| 0 <= j < rest.len() && rest[j] == sub[i];
                assert(occs[j] == sub[i]);
            } else {
                assert(occs[occs.len() - 1] == at[i]);
            }
        }
        if distinct_changes(occs) {
            assert(distinct_changes(rest)) by {
                assert forall|i: int, j: int| 0 <= i < j < rest.len() implies (
                #[trigger] rest[i]).origin != (#[trigger] rest[j]).origin || !path::same_path(
                    rest[i].path,
                    rest[j].path,
                ) by {
                    assert(rest[i] == occs[i] && rest[j] == occs[j]);
                }
            }
            assert forall|i: int, j: int| 0 <= i < j < at.len() implies (#[trigger] at[i]).origin
                != (#[trigger] at[j]).origin || !path::same_path(at[i].path, at[j].path) by {
                if j < sub.len() {
                    assert(at[i] == sub[i] && at[j] == sub[j]);
                } else {
                    assert(at[i] == sub[i]);
                    let m = choose|m: int| 0 <= m < rest.len() && rest[m] == sub[i];
                    assert(occs[m] == at[i] && occs[occs.len() - 1] == at[j]);
                }
            }
        }
    }
}

/// Among the moves of one path, a line's own is the only one that names it.
proof fn lemma_path_target(
    p: Seq<char>,
    occs: Seq<OccurrenceView>,
    blocks: Seq<Seq<char>>,
    j: int,
    c: FileChangeView,
)
    requires
        blocks.len() >= occs.len(),
        path::same_path(p, c.path),
        -1 <= j < occs.len(),
        j >= 0 ==> occs[j].origin == c.origin,
        forall|i: int| 0 <= i < occs.len() && i != j ==> (#[trigger] occs[i]).origin != c.origin,
    ensures
        move_target(path_moves(p, occs, blocks), c) == (if j >= 0 && blocks[j] != c.origin {
            Some(blocks[j])
        } else {
            None
        }),
    decreases occs.len(),
{
    if occs.len() > 0 {
        let n = occs.len() - 1;
        let rest = occs.drop_last();
        let before = path_moves(p, rest, blocks);
        assert forall|i: int| 0 <= i < rest.len() && i != j implies (#[trigger] rest[i]).origin
            != c.origin by {
            assert(rest[i] == occs[i]);
        }
        lemma_path_target(
            p,
            rest,
            blocks,
            if j == n {
                -1
            } else {
                j
            },
            c,
        );
        let to = blocks[n];
        if occs.last().origin != to {
            let m = MoveView { from: occs.last().origin, path: p, to };
            assert(before.push(m) =~= before + seq![m]);
            lemma_target_concat(before, seq![m], c);
            assert(seq![m].drop_first() =~= Seq::empty());
            reveal_with_fuel(move_target, 2);
            if j != n {
                assert(occs[n].origin != c.origin);
            }
        }
    }
}

proof fn lemma_other_path(
    p: Seq<char>,
    occs: Seq<OccurrenceView>,
    blocks: Seq<Seq<char>>,
    c: FileChangeView,
)
    requires
        !path::same_path(p, c.path),
    ensures
        move_target(path_moves(p, occs, blocks), c) is None,
    decreases occs.len(),
{
    if occs.len() > 0 {
        lemma_other_path(p, occs.drop_last(), blocks, c);
        let before = path_moves(p, occs.drop_last(), blocks);
        let m = MoveView { from: occs.last().origin, path: p, to: blocks[occs.len() - 1] };
        assert(before.push(m) =~= before + seq![m]);
        lemma_target_concat(before, seq![m], c);
        assert(seq![m].drop_first() =~= Seq::empty());
        reveal_with_fuel(move_target, 2);
    }
}

proof fn lemma_all_targets(
    occs: Seq<OccurrenceView>,
    places: Seq<(Seq<char>, Seq<char>)>,
    paths: Seq<Seq<char>>,
    j: int,
    c: FileChangeView,
)
    requires
        distinct_changes(occs),
        0 <= j < occurrences_at(occs, c.path).len(),
        occurrences_at(occs, c.path)[j].origin == c.origin,
        forall|p: Seq<char>|
            occurrences_at(occs, p).len() == (#[trigger] targets_at(places, p)).len(),
    ensures
        ({
            let at = occurrences_at(occs, c.path);
            let to = assigned(at, targets_at(places, c.path))[j];
            move_target(all_moves(occs, places, paths), c) == (if matching(paths, c.path) > 0
                && to != c.origin {
                Some(to)
            } else {
                None
            })
        }),
        matching(paths, c.path) >= 0,
    decreases paths.len(),
{
    if paths.len() > 0 {
        let rest = paths.drop_last();
        lemma_all_targets(occs, places, rest, j, c);
        let p = paths.last();
        let here = occurrences_at(occs, p);
        let blocks = assigned(here, targets_at(places, p));
        let more = path_moves(p, here, blocks);
        lemma_target_concat(all_moves(occs, places, rest), more, c);
        if path::same_path(p, c.path) {
            lemma_same_occurrences(occs, p, c.path);
            lemma_same_targets(places, p, c.path);
            lemma_selected(occs, p);
            assert(occurrences_at(occs, p).len() == targets_at(places, p).len());
            lemma_kept_places(here, targets_at(places, p));
            lemma_filled_len(
                kept_places(here, targets_at(places, p)).0,
                kept_places(here, targets_at(places, p)).1,
            );
            assert forall|i: int| 0 <= i < here.len() && i != j implies (#[trigger] here[i]).origin
                != c.origin by {
                assert(path::same_path(here[i].path, here[j].path));
                if i < j {
                    assert(here[i].origin != here[j].origin);
                } else {
                    assert(here[j].origin != here[i].origin);
                }
            }
            lemma_path_target(p, here, blocks, j, c);
        } else {
            lemma_other_path(p, here, blocks, c);
        }
    }
}

proof fn lemma_filled_len(kept: Seq<Option<Seq<char>>>, left: Seq<Seq<char>>)
    ensures
        filled(kept, left).len() == kept.len(),
    decreases kept.len(),
{
    if kept.len() > 0 {
        lemma_filled_len(kept.drop_last(), left);
    }
}

/// After an accepted edit the overlay shows every change in the block that its
/// line was put in: it is moved there, unless that is where it originated.
///
/// The lines are those of distinct recorded changes, and no move that the
/// document does not concern names one of them.
pub proof fn lemma_edit_moves_changes(
    doc: DocumentView,
    edited: Seq<BlockView>,
    m: MetadataView,
    c: FileChangeView,
    j: int,
)
    requires
        rejection(doc, edited) is None,
        distinct_changes(occurrences(doc.blocks, doc.origins)),
        move_target(other_moves(m.moves, doc.blocks), c) is None,
        0 <= j < occurrences_at(occurrences(doc.blocks, doc.origins), c.path).len(),
        occurrences_at(occurrences(doc.blocks, doc.origins), c.path)[j].origin == c.origin,
    ensures
        ({
            let at = occurrences_at(occurrences(doc.blocks, doc.origins), c.path);
            let to = assigned(at, targets_at(placements(edited), c.path))[j];
            move_target(merged(doc, edited, m).moves, c) == (if to != c.origin {
                Some(to)
            } else {
                None
            })
        }),
{
    let occs = occurrences(doc.blocks, doc.origins);
    let places = placements(edited);
    assert forall|p: Seq<char>|
        occurrences_at(occs, p).len() == (#[trigger] targets_at(places, p)).len() by {
        lemma_accepted_keeps_files(doc, edited, p);
    }
    let paths = distinct_files(occs);
    lemma_all_targets(occs, places, paths, j, c);
    lemma_distinct_once(occs, c.path);
    lemma_target_concat(other_moves(m.moves, doc.blocks), all_moves(occs, places, paths), c);
}

// ---------------------------------------------------------------------------
// What cannot be edited
/// A line that is a section header of a commit.
pub open spec fn heads_commit(raw: Seq<char>) -> bool {
    let line = text::trim_start(text::trim_end(raw));
    line.len() >= 9 && line.take(8) == "[commit:"@ && line.last() == ']'
}

/// Commits cannot be edited: a buffer with a section for one is refused,
/// whatever else it says, and nothing is changed.
pub proof fn lemma_commits_cannot_be_edited(doc: DocumentView, text: Seq<char>, k: int)
    requires
        0 <= k < text::lines(text).len(),
        heads_commit(text::lines(text)[k]),
    ensures
        parsed(text) is Err,
        edit_refusal(doc, text) is Some,
{
    let lines = text::lines(text);
    let line = text::trim_start(text::trim_end(lines[k]));
    let upto = lines.take(k + 1);
    assert(upto.drop_last() =~= lines.take(k));
    assert(upto.last() == lines[k]);
    let rest = line.skip(1);
    let inner = rest.take(rest.len() - 1);
    reveal_strlit("[commit:");
    reveal_strlit("commit");
    reveal_strlit("]");
    assert(line.take(8)[0] == '[');
    assert("]"@.is_suffix_of(rest)) by {
        assert(rest.skip(rest.len() - 1) =~= "]"@);
    }
    assert forall|i: int| 0 <= i < 7 implies #[trigger] inner[i] == "[commit:"@[i + 1] by {
        assert(line.take(8)[i + 1] == line[i + 1]);
    }
    text::lemma_before_first_unique(inner, ':', 6);
    assert(inner.take(6) =~= "commit"@);
    assert(header_id(rest) is Err);
    assert(lines_read(upto) is Err);
    lemma_error_stays(lines, k + 1);
}

// ---------------------------------------------------------------------------
// What an edit says
/// No two blocks are of one id.
pub open spec fn own_ids(blocks: Seq<BlockView>) -> bool {
    forall|i: int, j: int|
        0 <= i < j < blocks.len() ==> (#[trigger] blocks[i]).id != (#[trigger] blocks[j]).id
}

proof fn lemma_lines_own_ids(lines: Seq<Seq<char>>)
    requires
        lines_read(lines) is Ok,
    ensures
        own_ids(lines_read(lines)->Ok_0),
    decreases lines.len(),
{
    if lines.len() > 0 {
        lemma_lines_own_ids(lines.drop_last());
        let before = lines_read(lines.drop_last())->Ok_0;
        let after = lines_read(lines)->Ok_0;
        assert forall|i: int, j: int| 0 <= i < j < after.len() implies (#[trigger] after[i]).id != (
        #[trigger] after[j]).id by {
            if after.len() > before.len() {
                if j == before.len() {
                    assert(before[i].id != after[j].id);
                } else {
                    assert(before[i].id != before[j].id);
                }
            } else {
                assert(before[i].id != before[j].id);
            }
        }
    }
}

/// A buffer that can be read names every checkpoint at most once.
pub proof fn lemma_buffers_name_checkpoints_once(text: Seq<char>)
    requires
        parsed(text) is Ok,
    ensures
        own_ids(parsed(text)->Ok_0),
{
    lemma_lines_own_ids(text::lines(text));
}

pub(crate) proof fn lemma_metas(
    before: Map<Seq<char>, CheckpointMetaView>,
    edited: Seq<BlockView>,
    k: int,
)
    requires
        own_ids(edited),
        0 <= k < edited.len(),
    ensures
        meta_of(edited[k]) == no_meta() ==> !metas(before, edited).dom().contains(edited[k].id),
        meta_of(edited[k]) != no_meta() ==> metas(before, edited).dom().contains(edited[k].id)
            && metas(before, edited)[edited[k].id] == meta_of(edited[k]),
    decreases edited.len(),
{
    let rest = edited.drop_last();
    if k < rest.len() {
        assert(rest[k] == edited[k]);
        assert forall|i: int, j: int| 0 <= i < j < rest.len() implies (#[trigger] rest[i]).id != (
        #[trigger] rest[j]).id by {
            assert(edited[i].id != edited[j].id);
        }
        lemma_metas(before, rest, k);
        assert(edited[k].id != edited[edited.len() - 1].id);
    }
}

/// After an edit every checkpoint is shown with the title, the note and the
/// visibility that its block says.
pub proof fn lemma_edit_labels_checkpoints(
    doc: DocumentView,
    edited: Seq<BlockView>,
    m: MetadataView,
    k: int,
    cp: CheckpointView,
)
    requires
        own_ids(edited),
        0 <= k < edited.len(),
        cp.id == edited[k].id,
        cp.title is None,
        !cp.hidden,
        cp.annotation is None,
    ensures
        ({
            let shown = described(merged(doc, edited, m), cp);
            shown.title == edited[k].title && shown.hidden == edited[k].hidden && shown.annotation
                == edited[k].note && shown.changes == cp.changes
        }),
{
    lemma_metas(m.checkpoints, edited, k);
}

// ---------------------------------------------------------------------------
// Saving twice
proof fn lemma_metas_agree(
    m: Map<Seq<char>, CheckpointMetaView>,
    n: Map<Seq<char>, CheckpointMetaView>,
    edited: Seq<BlockView>,
)
    requires
        forall|id: Seq<char>|
            !has_block(edited, id) ==> (#[trigger] m.dom().contains(id) <==> n.dom().contains(id))
                && (m.dom().contains(id) ==> m[id] == n[id]),
    ensures
        metas(m, edited) =~= metas(n, edited),
    decreases edited.len(),
{
    if edited.len() == 0 {
        assert forall|id: Seq<char>| #[trigger] m.dom().contains(id) <==> n.dom().contains(id) by {
            assert(!has_block(edited, id));
        }
        assert forall|id: Seq<char>| #[trigger] m.dom().contains(id) implies m[id] == n[id] by {
            assert(!has_block(edited, id));
        }
        assert(m =~= n);
    } else {
        let rest = edited.drop_last();
        let b = edited.last();
        let m1 = m.remove(b.id);
        let n1 = n.remove(b.id);
        assert forall|id: Seq<char>| !has_block(rest, id) implies (#[trigger] m1.dom().contains(id)
            <==> n1.dom().contains(id)) && (m1.dom().contains(id) ==> m1[id] == n1[id]) by {
            if id != b.id {
                assert(!has_block(edited, id)) by {
                    if has_block(edited, id) {
                        let i = choose|i: int|
                            0 <= i < edited.len() && (#[trigger] edited[i]).id == id;
                        assert(rest[i].id == id);
                    }
                }
                assert(m.dom().contains(id) <==> n.dom().contains(id));
            }
        }
        lemma_metas_agree(m1, n1, rest);
        lemma_metas_without(m, rest, b.id);
        lemma_metas_without(n, rest, b.id);
        assert(metas(m, rest).remove(b.id) =~= metas(n, rest).remove(b.id));
        assert(metas(m, rest).insert(b.id, meta_of(b)) =~= metas(m, rest).remove(b.id).insert(
            b.id,
            meta_of(b),
        ));
        assert(metas(n, rest).insert(b.id, meta_of(b)) =~= metas(n, rest).remove(b.id).insert(
            b.id,
            meta_of(b),
        ));
    }
}

proof fn lemma_metas_without(
    m: Map<Seq<char>, CheckpointMetaView>,
    edited: Seq<BlockView>,
    id: Seq<char>,
)
    ensures
        metas(m.remove(id), edited).remove(id) =~= metas(m, edited).remove(id),
    decreases edited.len(),
{
    if edited.len() > 0 {
        lemma_metas_without(m, edited.drop_last(), id);
        let a = metas(m.remove(id), edited.drop_last());
        let b = metas(m, edited.drop_last());
        let k = edited.last().id;
        let v = meta_of(edited.last());
        assert(a.remove(k).remove(id) =~= a.remove(id).remove(k));
        assert(b.remove(k).remove(id) =~= b.remove(id).remove(k));
        if k == id {
            assert(a.insert(k, v).remove(id) =~= a.remove(id));
            assert(b.insert(k, v).remove(id) =~= b.remove(id));
        } else {
            assert(a.insert(k, v).remove(id) =~= a.remove(id).insert(k, v));
            assert(b.insert(k, v).remove(id) =~= b.remove(id).insert(k, v));
        }
    }
}

pub(crate) proof fn lemma_metas_outside(
    m: Map<Seq<char>, CheckpointMetaView>,
    edited: Seq<BlockView>,
    id: Seq<char>,
)
    requires
        !has_block(edited, id),
    ensures
        metas(m, edited).dom().contains(id) <==> m.dom().contains(id),
        m.dom().contains(id) ==> metas(m, edited)[id] == m[id],
    decreases edited.len(),
{
    if edited.len() > 0 {
        let rest = edited.drop_last();
        assert(!has_block(rest, id)) by {
            if has_block(rest, id) {
                let i = choose|i: int| 0 <= i < rest.len() && (#[trigger] rest[i]).id == id;
                assert(edited[i].id == id);
            }
        }
        assert(edited[edited.len() - 1].id != id);
        lemma_metas_outside(m, rest, id);
    }
}

proof fn lemma_other_moves_kept(a: Seq<MoveView>, b: Seq<MoveView>, blocks: Seq<BlockView>)
    requires
        forall|i: int| 0 <= i < b.len() ==> has_block(blocks, (#[trigger] b[i]).to),
    ensures
        other_moves(other_moves(a, blocks) + b, blocks) =~= other_moves(a, blocks),
    decreases a.len() + b.len(),
{
    if b.len() > 0 {
        let rest = b.drop_last();
        assert forall|i: int| 0 <= i < rest.len() implies has_block(
            blocks,
            (#[trigger] rest[i]).to,
        ) by {
            assert(rest[i] == b[i]);
        }
        lemma_other_moves_kept(a, rest, blocks);
        let all = other_moves(a, blocks) + b;
        assert(all.drop_last() =~= other_moves(a, blocks) + rest);
        assert(has_block(blocks, b[b.len() - 1].to));
        assert(all.last() == b[b.len() - 1]);
    } else if a.len() > 0 {
        lemma_other_moves_kept(a.drop_last(), b, blocks);
        let before = other_moves(a.drop_last(), blocks);
        let kept = other_moves(a, blocks);
        assert(before + b =~= before);
        assert(kept + b =~= kept);
        if kept != before {
            assert(kept.drop_last() =~= before);
        }
    } else {
        assert(other_moves(a, blocks) + b =~= Seq::empty());
    }
}

proof fn lemma_other_ids_kept(a: Seq<Seq<char>>, b: Seq<Seq<char>>, blocks: Seq<BlockView>)
    requires
        forall|i: int| 0 <= i < b.len() ==> has_block(blocks, #[trigger] b[i]),
    ensures
        other_ids(other_ids(a, blocks) + b, blocks) =~= other_ids(a, blocks),
    decreases a.len() + b.len(),
{
    if b.len() > 0 {
        let rest = b.drop_last();
        assert forall|i: int| 0 <= i < rest.len() implies has_block(blocks, #[trigger] rest[i]) by {
            assert(rest[i] == b[i]);
        }
        lemma_other_ids_kept(a, rest, blocks);
        let all = other_ids(a, blocks) + b;
        assert(all.drop_last() =~= other_ids(a, blocks) + rest);
        assert(has_block(blocks, b[b.len() - 1]));
        assert(all.last() == b[b.len() - 1]);
    } else if a.len() > 0 {
        lemma_other_ids_kept(a.drop_last(), b, blocks);
        let before = other_ids(a.drop_last(), blocks);
        let kept = other_ids(a, blocks);
        assert(before + b =~= before);
        assert(kept + b =~= kept);
        if kept != before {
            assert(kept.drop_last() =~= before);
        }
    } else {
        assert(other_ids(a, blocks) + b =~= Seq::empty());
    }
}

proof fn lemma_known_blocks(original: Seq<BlockView>, edited: Seq<BlockView>)
    requires
        first_unknown(original, edited) is None,
    ensures
        forall|i: int| 0 <= i < edited.len() ==> has_block(original, (#[trigger] edited[i]).id),
    decreases edited.len(),
{
    if edited.len() > 0 {
        let rest = edited.drop_last();
        lemma_known_blocks(original, rest);
        assert forall|i: int| 0 <= i < edited.len() implies has_block(
            original,
            (#[trigger] edited[i]).id,
        ) by {
            if i < rest.len() {
                assert(rest[i] == edited[i]);
            }
        }
    }
}

proof fn lemma_placements_known(original: Seq<BlockView>, edited: Seq<BlockView>)
    requires
        forall|i: int| 0 <= i < edited.len() ==> has_block(original, (#[trigger] edited[i]).id),
    ensures
        forall|i: int|
            0 <= i < placements(edited).len() ==> has_block(
                original,
                (#[trigger] placements(edited)[i]).1,
            ),
    decreases edited.len(),
{
    if edited.len() > 0 {
        let rest = edited.drop_last();
        let b = edited.last();
        assert forall|i: int| 0 <= i < rest.len() implies has_block(
            original,
            (#[trigger] rest[i]).id,
        ) by {
            assert(rest[i] == edited[i]);
        }
        lemma_placements_known(original, rest);
        let before = placements(rest);
        let after = placements(edited);
        assert(has_block(original, edited[edited.len() - 1].id));
        assert forall|i: int| 0 <= i < after.len() implies has_block(
            original,
            (#[trigger] after[i]).1,
        ) by {
            if i < before.len() {
                assert(after[i] == before[i]);
            } else {
                assert(after[i].1 == b.id);
            }
        }
    }
}

proof fn lemma_targets_known(
    original: Seq<BlockView>,
    places: Seq<(Seq<char>, Seq<char>)>,
    p: Seq<char>,
)
    requires
        forall|i: int| 0 <= i < places.len() ==> has_block(original, (#[trigger] places[i]).1),
    ensures
        forall|i: int|
            0 <= i < targets_at(places, p).len() ==> has_block(
                original,
                #[trigger] targets_at(places, p)[i],
            ),
    decreases places.len(),
{
    if places.len() > 0 {
        let rest = places.drop_last();
        assert forall|i: int| 0 <= i < rest.len() implies has_block(
            original,
            (#[trigger] rest[i]).1,
        ) by {
            assert(rest[i] == places[i]);
        }
        lemma_targets_known(original, rest, p);
        let before = targets_at(rest, p);
        let after = targets_at(places, p);
        assert(has_block(original, places[places.len() - 1].1));
        assert forall|i: int| 0 <= i < after.len() implies has_block(
            original,
            #[trigger] after[i],
        ) by {
            if i < before.len() {
                assert(after[i] == before[i]);
            }
        }
    }
}

proof fn lemma_path_moves_known(
    original: Seq<BlockView>,
    p: Seq<char>,
    occs: Seq<OccurrenceView>,
    blocks: Seq<Seq<char>>,
)
    requires
        occs.len() <= blocks.len(),
        forall|i: int| 0 <= i < blocks.len() ==> has_block(original, #[trigger] blocks[i]),
    ensures
        forall|i: int|
            0 <= i < path_moves(p, occs, blocks).len() ==> has_block(
                original,
                (#[trigger] path_moves(p, occs, blocks)[i]).to,
            ),
    decreases occs.len(),
{
    if occs.len() > 0 {
        lemma_path_moves_known(original, p, occs.drop_last(), blocks);
        let before = path_moves(p, occs.drop_last(), blocks);
        let after = path_moves(p, occs, blocks);
        assert(has_block(original, blocks[occs.len() - 1]));
        assert forall|i: int| 0 <= i < after.len() implies has_block(
            original,
            (#[trigger] after[i]).to,
        ) by {
            if i < before.len() {
                assert(after[i] == before[i]);
            }
        }
    }
}

proof fn lemma_all_moves_known(
    original: Seq<BlockView>,
    occs: Seq<OccurrenceView>,
    places: Seq<(Seq<char>, Seq<char>)>,
    paths: Seq<Seq<char>>,
)
    requires
        forall|i: int| 0 <= i < places.len() ==> has_block(original, (#[trigger] places[i]).1),
        forall|p: Seq<char>|
            occurrences_at(occs, p).len() == (#[trigger] targets_at(places, p)).len(),
    ensures
        forall|i: int|
            0 <= i < all_moves(occs, places, paths).len() ==> has_block(
                original,
                (#[trigger] all_moves(occs, places, paths)[i]).to,
            ),
    decreases paths.len(),
{
    broadcast use vstd::seq_lib::group_to_multiset_ensures;

    if paths.len() > 0 {
        lemma_all_moves_known(original, occs, places, paths.drop_last());
        let p = paths.last();
        let at = occurrences_at(occs, p);
        let targets = targets_at(places, p);
        let taken = assigned(at, targets);
        lemma_targets_known(original, places, p);
        lemma_lines_take_their_places(at, targets);
        assert forall|i: int| 0 <= i < taken.len() implies has_block(
            original,
            #[trigger] taken[i],
        ) by {
            assert(taken.to_multiset().count(taken[i]) > 0);
            assert(targets.contains(taken[i]));
            let j = choose|j: int| 0 <= j < targets.len() && targets[j] == taken[i];
            assert(has_block(original, targets[j]));
        }
        taken.to_multiset_ensures();
        targets.to_multiset_ensures();
        lemma_path_moves_known(original, p, at, taken);
        let before = all_moves(occs, places, paths.drop_last());
        let more = path_moves(p, at, taken);
        let after = all_moves(occs, places, paths);
        assert forall|i: int| 0 <= i < after.len() implies has_block(
            original,
            (#[trigger] after[i]).to,
        ) by {
            if i < before.len() {
                assert(after[i] == before[i]);
            } else {
                assert(after[i] == more[i - before.len()]);
            }
        }
    }
}

/// Saving an accepted edit a second time changes nothing more: nothing is
/// recorded twice. That it is accepted and summed up as before does not depend
/// on the overlay at all.
pub proof fn lemma_saving_twice_changes_nothing(
    doc: DocumentView,
    edited: Seq<BlockView>,
    m: MetadataView,
)
    requires
        rejection(doc, edited) is None,
    ensures
        merged(doc, edited, merged(doc, edited, m)) == merged(doc, edited, m),
{
    let occs = occurrences(doc.blocks, doc.origins);
    let places = placements(edited);
    let once = merged(doc, edited, m);
    let moves = all_moves(occs, places, distinct_files(occs));
    lemma_known_blocks(doc.blocks, edited);
    lemma_placements_known(doc.blocks, edited);
    assert forall|p: Seq<char>|
        occurrences_at(occs, p).len() == (#[trigger] targets_at(places, p)).len() by {
        lemma_accepted_keeps_files(doc, edited, p);
    }
    lemma_all_moves_known(doc.blocks, occs, places, distinct_files(occs));
    lemma_other_moves_kept(m.moves, moves, doc.blocks);
    assert forall|i: int| 0 <= i < ids_of(edited).len() implies has_block(
        doc.blocks,
        #[trigger] ids_of(edited)[i],
    ) by {
        assert(ids_of(edited)[i] == edited[i].id);
    }
    lemma_other_ids_kept(m.order, ids_of(edited), doc.blocks);
    lemma_other_ids_kept(m.order, Seq::empty(), doc.blocks);
    assert forall|id: Seq<char>| !has_block(edited, id) implies (
    #[trigger] once.checkpoints.dom().contains(id) <==> m.checkpoints.dom().contains(id)) && (
    once.checkpoints.dom().contains(id) ==> once.checkpoints[id] == m.checkpoints[id]) by {
        lemma_metas_outside(m.checkpoints, edited, id);
    }
    lemma_metas_agree(once.checkpoints, m.checkpoints, edited);
    assert(merged(doc, edited, once) =~= once);
}

// ---------------------------------------------------------------------------
// Lines that say nothing
/// A blank line or a comment.
pub open spec fn is_idle(raw: Seq<char>) -> bool {
    let line = text::trim_start(text::trim_end(raw));
    line.len() == 0 || line[0] == '#'
}

/// The lines that are neither blank nor comments.
pub open spec fn speaking(lines: Seq<Seq<char>>) -> Seq<Seq<char>>
    decreases lines.len(),
{
    if lines.len() == 0 {
        Seq::empty()
    } else if is_idle(lines.last()) {
        speaking(lines.drop_last())
    } else {
        speaking(lines.drop_last()).push(lines.last())
    }
}

/// The position of the first line that cannot be read, among lines that cannot.
pub open spec fn first_faulty(lines: Seq<Seq<char>>) -> int
    decreases lines.len(),
{
    if lines.len() == 0 {
        0
    } else if lines_read(lines.drop_last()) is Err {
        first_faulty(lines.drop_last())
    } else {
        lines.len() - 1
    }
}

/// Lines cannot be read, and the error is `message` at the first faulty line,
/// counted from one.
pub open spec fn faulty(lines: Seq<Seq<char>>, message: Seq<char>) -> bool {
    lines_read(lines) == Err::<Seq<BlockView>, TrailErrorView>(
        invalid_at((first_faulty(lines) + 1) as nat, message),
    )
}

/// What a line says does not depend on its number.
proof fn lemma_line_number(blocks: Seq<BlockView>, m: nat, n: nat, raw: Seq<char>) -> (message: Seq<
    char,
>)
    ensures
        line_read(blocks, m, raw) is Ok ==> line_read(blocks, m, raw) == line_read(blocks, n, raw),
        line_read(blocks, m, raw) is Err ==> line_read(blocks, m, raw) == Err::<
            Seq<BlockView>,
            TrailErrorView,
        >(invalid_at(m, message)) && line_read(blocks, n, raw) == Err::<
            Seq<BlockView>,
            TrailErrorView,
        >(invalid_at(n, message)),
{
    let line = text::trim_start(text::trim_end(raw));
    if line.len() == 0 || line[0] == '#' {
        Seq::empty()
    } else if line[0] == '[' {
        match header_id(line.skip(1)) {
            Err(message) => message,
            Ok(id) => "checkpoint "@ + id + " appears twice"@,
        }
    } else if blocks.len() == 0 {
        "content before the first [checkpoint:ID] header"@
    } else {
        let read = match field_of(line) {
            Some((key, value)) => with_field(blocks.last(), key, value),
            None => with_file(blocks.last(), file_of(line)),
        };
        match read {
            Ok(_) => Seq::empty(),
            Err(message) => message,
        }
    }
}

proof fn lemma_speaking(lines: Seq<Seq<char>>) -> (message: Seq<char>)
    ensures
        lines_read(lines) is Ok ==> lines_read(lines) == lines_read(speaking(lines)),
        lines_read(lines) is Err ==> faulty(lines, message) && faulty(speaking(lines), message),
    decreases lines.len(),
{
    if lines.len() == 0 {
        Seq::empty()
    } else {
        let rest = lines.drop_last();
        let said = speaking(lines);
        let message = lemma_speaking(rest);
        if !is_idle(lines.last()) {
            assert(said.drop_last() =~= speaking(rest));
        }
        match lines_read(rest) {
            Err(_) => message,
            Ok(blocks) => if is_idle(lines.last()) {
                Seq::empty()
            } else {
                lemma_line_number(blocks, lines.len(), said.len(), lines.last())
            },
        }
    }
}

/// An error names the first line that cannot be read: those before it can be,
/// and with it they cannot.
pub proof fn lemma_errors_name_the_first_faulty_line(text: Seq<char>) -> (message: Seq<char>)
    requires
        parsed(text) is Err,
    ensures
        faulty(text::lines(text), message),
        ({
            let lines = text::lines(text);
            let k = first_faulty(lines);
            0 <= k < lines.len() && lines_read(lines.take(k)) is Ok && lines_read(lines.take(k + 1))
                is Err
        }),
{
    lemma_first_faulty(text::lines(text));
    lemma_speaking(text::lines(text))
}

proof fn lemma_first_faulty(lines: Seq<Seq<char>>)
    requires
        lines_read(lines) is Err,
    ensures
        0 <= first_faulty(lines) < lines.len(),
        lines_read(lines.take(first_faulty(lines))) is Ok,
        lines_read(lines.take(first_faulty(lines) + 1)) is Err,
    decreases lines.len(),
{
    let rest = lines.drop_last();
    if lines_read(rest) is Err {
        lemma_first_faulty(rest);
        let k = first_faulty(rest);
        assert(rest.take(k) =~= lines.take(k));
        assert(rest.take(k + 1) =~= lines.take(k + 1));
    } else {
        assert(lines.take(lines.len() - 1) =~= rest);
        assert(lines.take(lines.len() as int) =~= lines);
    }
}

/// Blank lines and comments change nothing: two buffers that differ in nothing
/// else say the same, or have the same fault, each at its own line.
pub proof fn lemma_idle_lines_change_nothing(a: Seq<char>, b: Seq<char>) -> (message: Seq<char>)
    requires
        speaking(text::lines(a)) == speaking(text::lines(b)),
    ensures
        parsed(a) is Ok <==> parsed(b) is Ok,
        parsed(a) is Ok ==> parsed(a) == parsed(b),
        parsed(a) is Err ==> faulty(text::lines(a), message) && faulty(text::lines(b), message),
{
    let m = lemma_speaking(text::lines(a));
    let n = lemma_speaking(text::lines(b));
    let said = speaking(text::lines(a));
    if parsed(a) is Err {
        let prefix = "line "@ + text::decimal((first_faulty(said) + 1) as nat) + ": "@;
        assert(prefix + m == prefix + n);
        assert((prefix + m).skip(prefix.len() as int) =~= m);
        assert((prefix + n).skip(prefix.len() as int) =~= n);
    }
    m
}

} // verus!
