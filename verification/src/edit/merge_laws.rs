//! What saving an edited buffer does.

use super::{has_block, BlockView, DocumentView};
use super::laws::{
    aligned, distinct_changes, lemma_edit_moves_changes, lemma_lines_take_their_places, lemma_metas,
    lemma_metas_outside, own_ids,
};
use super::merge::{
    assigned, block_with, differing, first_miscount, first_missing, first_removed, first_unknown,
    ids_of, known_ids, lemma_accepted_keeps_files, merged, occurrences, occurrences_at, other_ids,
    other_moves, placements, rejection, summary_matches, targets_at, EditSummary, OccurrenceView,
};
use crate::choice::{lemma_selects_last, lemma_selects_none, selects};
use crate::order::{in_order, lemma_sorted, lemma_sorted_contains, ByText};
use crate::path;
use crate::recorder::checkpoint::{ByRecorded, FileChangeView};
use crate::recorder::metadata::{move_target, MetadataView, MoveView};
use vstd::prelude::*;

verus! {

/// The file lines of some blocks, one block after the other.
pub open spec fn lines_in(blocks: Seq<BlockView>) -> Seq<Seq<char>> {
    blocks.map_values(|b: BlockView| b.files).flatten()
}

/// How often a file stands in some blocks.
pub open spec fn times(blocks: Seq<BlockView>, p: Seq<char>) -> nat {
    lines_in(blocks).filter(|f: Seq<char>| path::same_path(f, p)).len()
}

proof fn lemma_filter_add(a: Seq<Seq<char>>, b: Seq<Seq<char>>, p: Seq<char>)
    ensures
        (a + b).filter(|f: Seq<char>| path::same_path(f, p)).len() == a.filter(
            |f: Seq<char>| path::same_path(f, p),
        ).len() + b.filter(|f: Seq<char>| path::same_path(f, p)).len(),
    decreases b.len(),
{
    reveal(Seq::filter);
    if b.len() == 0 {
        assert(a + b =~= a);
    } else {
        lemma_filter_add(a, b.drop_last(), p);
        assert((a + b).drop_last() =~= a + b.drop_last());
        assert((a + b).last() == b.last());
    }
}

proof fn lemma_times(blocks: Seq<BlockView>, p: Seq<char>)
    requires
        blocks.len() > 0,
    ensures
        times(blocks, p) == times(blocks.drop_last(), p) + blocks.last().files.filter(
            |f: Seq<char>| path::same_path(f, p),
        ).len(),
{
    let of = |b: BlockView| b.files;
    let rest = blocks.drop_last();
    assert(blocks.map_values(of) =~= rest.map_values(of).push(blocks.last().files));
    rest.map_values(of).lemma_flatten_push(blocks.last().files);
    lemma_filter_add(lines_in(rest), blocks.last().files, p);
}

proof fn lemma_targets_add(
    places: Seq<(Seq<char>, Seq<char>)>,
    files: Seq<Seq<char>>,
    id: Seq<char>,
    p: Seq<char>,
)
    ensures
        targets_at(places + files.map_values(|f: Seq<char>| (f, id)), p).len() == targets_at(
            places,
            p,
        ).len() + files.filter(|f: Seq<char>| path::same_path(f, p)).len(),
    decreases files.len(),
{
    reveal(Seq::filter);
    let with = |f: Seq<char>| (f, id);
    let all = places + files.map_values(with);
    if files.len() == 0 {
        assert(all =~= places);
    } else {
        lemma_targets_add(places, files.drop_last(), id, p);
        assert(all.drop_last() =~= places + files.drop_last().map_values(with));
        assert(all.last() == (files.last(), id));
    }
}

proof fn lemma_placed_times(blocks: Seq<BlockView>, p: Seq<char>)
    ensures
        targets_at(placements(blocks), p).len() == times(blocks, p),
    decreases blocks.len(),
{
    if blocks.len() == 0 {
        reveal(Seq::filter);
        assert(lines_in(blocks) =~= Seq::empty());
    } else {
        let last = blocks.last();
        lemma_placed_times(blocks.drop_last(), p);
        lemma_times(blocks, p);
        lemma_targets_add(placements(blocks.drop_last()), last.files, last.id, p);
    }
}

proof fn lemma_occurs_add(
    occs: Seq<OccurrenceView>,
    more: Seq<OccurrenceView>,
    files: Seq<Seq<char>>,
    p: Seq<char>,
)
    requires
        more.len() == files.len(),
        forall|i: int| 0 <= i < more.len() ==> (#[trigger] more[i]).path == files[i],
    ensures
        occurrences_at(occs + more, p).len() == occurrences_at(occs, p).len() + files.filter(
            |f: Seq<char>| path::same_path(f, p),
        ).len(),
    decreases more.len(),
{
    reveal(Seq::filter);
    if more.len() == 0 {
        assert(occs + more =~= occs);
    } else {
        lemma_occurs_add(occs, more.drop_last(), files.drop_last(), p);
        assert((occs + more).drop_last() =~= occs + more.drop_last());
        assert((occs + more).last() == more.last());
        assert(more[more.len() - 1].path == files[files.len() - 1]);
    }
}

proof fn lemma_recorded_times(
    blocks: Seq<BlockView>,
    origins: Map<Seq<char>, Seq<Seq<char>>>,
    p: Seq<char>,
)
    requires
        forall|i: int|
            0 <= i < blocks.len() ==> origins[(#[trigger] blocks[i]).id].len()
                == blocks[i].files.len(),
    ensures
        occurrences_at(occurrences(blocks, origins), p).len() == times(blocks, p),
    decreases blocks.len(),
{
    if blocks.len() == 0 {
        reveal(Seq::filter);
        assert(lines_in(blocks) =~= Seq::empty());
    } else {
        let last = blocks.last();
        let rest = blocks.drop_last();
        assert(blocks[blocks.len() - 1] == last);
        assert forall|i: int| 0 <= i < rest.len() implies origins[(#[trigger] rest[i]).id].len()
            == rest[i].files.len() by {
            assert(rest[i] == blocks[i]);
        }
        lemma_recorded_times(rest, origins, p);
        lemma_times(blocks, p);
        lemma_occurs_add(
            occurrences(rest, origins),
            super::merge::block_occurrences(last, origins[last.id]),
            last.files,
            p,
        );
    }
}

proof fn lemma_unknown(original: Seq<BlockView>, edited: Seq<BlockView>)
    ensures
        first_unknown(original, edited) is None <==> forall|i: int|
            0 <= i < edited.len() ==> has_block(original, (#[trigger] edited[i]).id),
    decreases edited.len(),
{
    if edited.len() > 0 {
        let rest = edited.drop_last();
        lemma_unknown(original, rest);
        assert forall|i: int| 0 <= i < rest.len() implies rest[i] == #[trigger] edited[i] by {}
        assert(edited[edited.len() - 1] == edited.last());
        if first_unknown(original, edited) is None {
            assert forall|i: int| 0 <= i < edited.len() implies has_block(
                original,
                (#[trigger] edited[i]).id,
            ) by {
                if i < rest.len() {
                    assert(rest[i] == edited[i]);
                }
            }
        }
        if forall|i: int| 0 <= i < edited.len() ==> has_block(original, (#[trigger] edited[i]).id) {
            assert forall|i: int| 0 <= i < rest.len() implies has_block(
                original,
                (#[trigger] rest[i]).id,
            ) by {
                assert(rest[i] == edited[i]);
            }
        }
    }
}

proof fn lemma_removed(ids: Seq<Seq<char>>, edited: Seq<BlockView>)
    ensures
        first_removed(ids, edited) is None <==> forall|i: int|
            0 <= i < ids.len() ==> has_block(edited, #[trigger] ids[i]),
    decreases ids.len(),
{
    if ids.len() > 0 {
        let rest = ids.drop_last();
        lemma_removed(rest, edited);
        assert forall|i: int| 0 <= i < rest.len() implies rest[i] == #[trigger] ids[i] by {}
        assert(ids[ids.len() - 1] == ids.last());
        if first_removed(ids, edited) is None {
            assert forall|i: int| 0 <= i < ids.len() implies has_block(
                edited,
                #[trigger] ids[i],
            ) by {
                if i < rest.len() {
                    assert(rest[i] == ids[i]);
                }
            }
        }
        if forall|i: int| 0 <= i < ids.len() ==> has_block(edited, #[trigger] ids[i]) {
            assert forall|i: int| 0 <= i < rest.len() implies has_block(
                edited,
                #[trigger] rest[i],
            ) by {
                assert(rest[i] == ids[i]);
            }
        }
    }
}

proof fn lemma_counted(
    occs: Seq<OccurrenceView>,
    places: Seq<(Seq<char>, Seq<char>)>,
    n: nat,
    k: int,
)
    requires
        forall|p: Seq<char>|
            (#[trigger] targets_at(places, p)).len() == occurrences_at(occs, p).len(),
        n <= places.len(),
        0 <= k <= occs.len(),
    ensures
        first_miscount(occs, places, n) is None,
        first_missing(occs.take(k), places) is None,
    decreases n + k,
{
    if n > 0 {
        lemma_counted(occs, places, (n - 1) as nat, k);
        let p = places[n - 1].0;
        assert(targets_at(places, p).len() > 0) by {
            lemma_stands(places, n - 1);
        }
    }
    if k > 0 {
        lemma_counted(occs, places, n, k - 1);
        assert(occs.take(k).drop_last() =~= occs.take(k - 1));
        assert(occs.take(k).last() == occs[k - 1]);
        let p = occs[k - 1].path;
        lemma_occurs(occs, k - 1);
        assert(targets_at(places, p).len() == occurrences_at(occs, p).len());
    }
}

proof fn lemma_stands(places: Seq<(Seq<char>, Seq<char>)>, i: int)
    requires
        0 <= i < places.len(),
    ensures
        targets_at(places, places[i].0).len() > 0,
    decreases places.len(),
{
    if i < places.len() - 1 {
        assert(places.drop_last()[i] == places[i]);
        lemma_stands(places.drop_last(), i);
    }
}

proof fn lemma_occurs(occs: Seq<OccurrenceView>, i: int)
    requires
        0 <= i < occs.len(),
    ensures
        occurrences_at(occs, occs[i].path).len() > 0,
    decreases occs.len(),
{
    if i < occs.len() - 1 {
        assert(occs.drop_last()[i] == occs[i]);
        lemma_occurs(occs.drop_last(), i);
    }
}

/// An edit is accepted exactly when it has the blocks of the document, no others
/// and none missing, and every file as often as the document has it.
#[verifier::rlimit(40)]
pub proof fn lemma_which_edits_are_accepted(doc: DocumentView, edited: Seq<BlockView>)
    requires
        aligned(doc),
    ensures
        rejection(doc, edited) is None <==> {
            &&& forall|i: int|
                0 <= i < edited.len() ==> exists|j: int|
                    0 <= j < doc.blocks.len() && (#[trigger] doc.blocks[j]).id == (
                    #[trigger] edited[i]).id
            &&& forall|j: int|
                0 <= j < doc.blocks.len() ==> exists|i: int|
                    0 <= i < edited.len() && (#[trigger] edited[i]).id == (
                    #[trigger] doc.blocks[j]).id
            &&& forall|p: Seq<char>| #[trigger] times(edited, p) == times(doc.blocks, p)
        },
{
    let occs = occurrences(doc.blocks, doc.origins);
    let places = placements(edited);
    let ids = known_ids(doc.blocks);
    let plain = ids_of(doc.blocks);
    lemma_unknown(doc.blocks, edited);
    lemma_removed(ids, edited);
    assert forall|p: Seq<char>|
        times(edited, p) == (#[trigger] targets_at(places, p)).len() && times(doc.blocks, p)
            == occurrences_at(occs, p).len() by {
        lemma_placed_times(edited, p);
        lemma_recorded_times(doc.blocks, doc.origins, p);
    }
    assert((forall|i: int| 0 <= i < ids.len() ==> has_block(edited, #[trigger] ids[i])) <==> (
    forall|j: int|
        0 <= j < doc.blocks.len() ==> has_block(edited, (#[trigger] doc.blocks[j]).id))) by {
        assert forall|id: Seq<char>| ids.contains(id) == #[trigger] plain.contains(id) by {
            lemma_sorted_contains::<String, ByText>(plain, id);
        }
        if forall|i: int| 0 <= i < ids.len() ==> has_block(edited, #[trigger] ids[i]) {
            assert forall|j: int| 0 <= j < doc.blocks.len() implies has_block(
                edited,
                (#[trigger] doc.blocks[j]).id,
            ) by {
                assert(plain[j] == doc.blocks[j].id);
                assert(plain.contains(plain[j]));
                let i = choose|i: int| 0 <= i < ids.len() && ids[i] == plain[j];
                assert(has_block(edited, ids[i]));
            }
        }
        if forall|j: int|
            0 <= j < doc.blocks.len() ==> has_block(edited, (#[trigger] doc.blocks[j]).id) {
            assert forall|i: int| 0 <= i < ids.len() implies has_block(
                edited,
                #[trigger] ids[i],
            ) by {
                assert(ids.contains(ids[i]));
                assert(plain.contains(ids[i]));
                let j = choose|j: int| 0 <= j < plain.len() && plain[j] == ids[i];
                assert(has_block(edited, doc.blocks[j].id));
            }
        }
    }
    if rejection(doc, edited) is None {
        assert forall|p: Seq<char>| #[trigger] times(edited, p) == times(doc.blocks, p) by {
            lemma_accepted_keeps_files(doc, edited, p);
            assert(targets_at(places, p).len() == occurrences_at(occs, p).len());
        }
        assert forall|i: int| 0 <= i < edited.len() implies exists|j: int|
            0 <= j < doc.blocks.len() && (#[trigger] doc.blocks[j]).id == (
            #[trigger] edited[i]).id by {
            assert(has_block(doc.blocks, edited[i].id));
        }
        assert forall|j: int| 0 <= j < doc.blocks.len() implies exists|i: int|
            0 <= i < edited.len() && (#[trigger] edited[i]).id == (
            #[trigger] doc.blocks[j]).id by {
            assert(has_block(edited, doc.blocks[j].id));
        }
    } else if (forall|p: Seq<char>| #[trigger] times(edited, p) == times(doc.blocks, p)) && (forall|
        i: int,
    |
        0 <= i < edited.len() ==> has_block(doc.blocks, (#[trigger] edited[i]).id)) && (forall|
        j: int,
    |
        0 <= j < doc.blocks.len() ==> has_block(edited, (#[trigger] doc.blocks[j]).id)) {
        assert forall|p: Seq<char>| (#[trigger] targets_at(places, p)).len() == occurrences_at(
            occs,
            p,
        ).len() by {
            assert(times(edited, p) == times(doc.blocks, p));
        }
        lemma_counted(occs, places, places.len(), occs.len() as int);
        assert(occs.take(occs.len() as int) =~= occs);
        assert(false);
    }
}

/// A file that stands in one line is moved to the block that its line was put
/// in, unless that is where its change originated.
///
/// The lines are those of distinct recorded changes, and no move that the
/// document does not concern names the change.
pub proof fn lemma_lines_move_their_change(
    doc: DocumentView,
    edited: Seq<BlockView>,
    m: MetadataView,
    c: FileChangeView,
    k: int,
    f: int,
)
    requires
        aligned(doc),
        rejection(doc, edited) is None,
        distinct_changes(occurrences(doc.blocks, doc.origins)),
        move_target(other_moves(m.moves, doc.blocks), c) is None,
        times(doc.blocks, c.path) == 1,
        occurrences_at(occurrences(doc.blocks, doc.origins), c.path)[0].origin == c.origin,
        0 <= k < edited.len(),
        0 <= f < edited[k].files.len(),
        path::same_path(edited[k].files[f], c.path),
    ensures
        move_target(merged(doc, edited, m).moves, c) == (if edited[k].id != c.origin {
            Some(edited[k].id)
        } else {
            None
        }),
{
    broadcast use vstd::seq_lib::group_to_multiset_ensures;

    let occs = occurrences(doc.blocks, doc.origins);
    let places = placements(edited);
    let at = occurrences_at(occs, c.path);
    let targets = targets_at(places, c.path);
    lemma_recorded_times(doc.blocks, doc.origins, c.path);
    lemma_accepted_keeps_files(doc, edited, c.path);
    lemma_edit_moves_changes(doc, edited, m, c, 0);
    lemma_lines_take_their_places(at, targets);
    lemma_stands_in(edited, c.path, k, f);
    let to = assigned(at, targets);
    assert(to.len() == 1) by {
        to.to_multiset_ensures();
        targets.to_multiset_ensures();
    }
    assert(to.to_multiset().count(to[0]) > 0) by {
        assert(to.contains(to[0]));
    }
    assert(targets.to_multiset().count(to[0]) > 0);
    assert(targets.contains(to[0]));
    assert(targets[0] == edited[k].id);
}

proof fn lemma_stands_in(edited: Seq<BlockView>, p: Seq<char>, k: int, f: int)
    requires
        0 <= k < edited.len(),
        0 <= f < edited[k].files.len(),
        path::same_path(edited[k].files[f], p),
    ensures
        targets_at(placements(edited), p).contains(edited[k].id),
    decreases edited.len(),
{
    let rest = edited.drop_last();
    let last = edited.last();
    let with = |x: Seq<char>| (x, last.id);
    let more = last.files.map_values(with);
    if k < rest.len() {
        assert(rest[k] == edited[k]);
        lemma_stands_in(rest, p, k, f);
        lemma_targets_kept(placements(rest), more, p, edited[k].id);
    } else {
        lemma_targets_found(placements(rest), more, p, f);
    }
}

proof fn lemma_targets_kept(
    a: Seq<(Seq<char>, Seq<char>)>,
    b: Seq<(Seq<char>, Seq<char>)>,
    p: Seq<char>,
    id: Seq<char>,
)
    requires
        targets_at(a, p).contains(id),
    ensures
        targets_at(a + b, p).contains(id),
    decreases b.len(),
{
    if b.len() == 0 {
        assert(a + b =~= a);
    } else {
        lemma_targets_kept(a, b.drop_last(), p, id);
        assert((a + b).drop_last() =~= a + b.drop_last());
        let before = targets_at(a + b.drop_last(), p);
        let i = choose|i: int| 0 <= i < before.len() && before[i] == id;
        assert(targets_at(a + b, p)[i] == id);
    }
}

proof fn lemma_targets_found(
    a: Seq<(Seq<char>, Seq<char>)>,
    b: Seq<(Seq<char>, Seq<char>)>,
    p: Seq<char>,
    f: int,
)
    requires
        0 <= f < b.len(),
        path::same_path(b[f].0, p),
    ensures
        targets_at(a + b, p).contains(b[f].1),
    decreases b.len(),
{
    let all = targets_at(a + b, p);
    assert((a + b).drop_last() =~= a + b.drop_last());
    assert((a + b).last() == b.last());
    if f == b.len() - 1 {
        assert(all[all.len() - 1] == b[f].1);
    } else {
        assert(b.drop_last()[f] == b[f]);
        lemma_targets_found(a, b.drop_last(), p, f);
        let before = targets_at(a + b.drop_last(), p);
        let i = choose|i: int| 0 <= i < before.len() && before[i] == b[f].1;
        assert(all[i] == b[f].1);
    }
}

/// What an accepted edit leaves in the overlay besides moves: of every edited
/// checkpoint what its block says, and nothing where it says nothing; of every
/// other checkpoint what was there. The moves of other documents stay, in front.
/// The reading order is that of the blocks, if
/// it is not the recorded one, behind the ids of other checkpoints.
pub proof fn lemma_what_an_edit_leaves(
    doc: DocumentView,
    edited: Seq<BlockView>,
    m: MetadataView,
    k: int,
    id: Seq<char>,
)
    requires
        own_ids(edited),
        0 <= k < edited.len(),
        !(exists|i: int| 0 <= i < edited.len() && (#[trigger] edited[i]).id == id),
    ensures
        ({
            let r = merged(doc, edited, m);
            let b = edited[k];
            let plain = b.title is None && !b.hidden && b.note is None;
            &&& plain <==> !r.checkpoints.dom().contains(b.id)
            &&& !plain ==> r.checkpoints[b.id].title == b.title && r.checkpoints[b.id].hidden
                == b.hidden && r.checkpoints[b.id].annotation == b.note
            &&& r.checkpoints.dom().contains(id) <==> m.checkpoints.dom().contains(id)
            &&& m.checkpoints.dom().contains(id) ==> r.checkpoints[id] == m.checkpoints[id]
            &&& r.version == m.version
            &&& exists|kept: Seq<MoveView>|
                #[trigger] are_unconcerned(doc.blocks, m.moves, kept) && kept.is_prefix_of(r.moves)
            &&& exists|others: Seq<Seq<char>>| {
                &&& #[trigger] are_others(doc.blocks, m.order, others)
                &&& r.order == others + edited.map_values(|b: BlockView| b.id) || (r.order
                    == others && in_order::<String, ByRecorded>(
                    edited.map_values(|b: BlockView| b.id),
                ))
            }
        }),
{
    assert(!has_block(edited, id));
    lemma_metas(m.checkpoints, edited, k);
    lemma_metas_outside(m.checkpoints, edited, id);
    lemma_others(doc.blocks, m.order);
    let others = other_ids(m.order, doc.blocks);
    assert(are_others(doc.blocks, m.order, others));
    lemma_sorted::<String, ByRecorded>(ids_of(doc.blocks));
    let r = merged(doc, edited, m);
    lemma_unconcerned(doc.blocks, m.moves);
    let kept = other_moves(m.moves, doc.blocks);
    assert(are_unconcerned(doc.blocks, m.moves, kept));
    assert(kept =~= r.moves.subrange(0, kept.len() as int));
    assert(others + Seq::<Seq<char>>::empty() =~= others);
    assert(ids_of(edited) == edited.map_values(|b: BlockView| b.id));
}

/// The ids of a reading order that are no blocks of a document.
pub open spec fn are_others(
    blocks: Seq<BlockView>,
    order: Seq<Seq<char>>,
    others: Seq<Seq<char>>,
) -> bool {
    selects(
        order,
        |id: Seq<char>|
            !(exists|i: int| 0 <= i < blocks.len() && (#[trigger] blocks[i]).id == id),
        others,
    )
}

proof fn lemma_others(blocks: Seq<BlockView>, order: Seq<Seq<char>>)
    ensures
        are_others(blocks, order, other_ids(order, blocks)),
    decreases order.len(),
{
    let pred = |id: Seq<char>|
        !(exists|i: int| 0 <= i < blocks.len() && (#[trigger] blocks[i]).id == id);
    if order.len() == 0 {
        assert(order =~= Seq::empty());
        lemma_selects_none(pred);
    } else {
        lemma_others(blocks, order.drop_last());
        lemma_selects_last(order, pred, other_ids(order.drop_last(), blocks));
        assert(pred(order.last()) == !has_block(blocks, order.last()));
    }
}

/// The moves from and to no block of a document.
pub open spec fn are_unconcerned(
    blocks: Seq<BlockView>,
    moves: Seq<MoveView>,
    kept: Seq<MoveView>,
) -> bool {
    selects(
        moves,
        |m: MoveView|
            forall|i: int|
                0 <= i < blocks.len() ==> (#[trigger] blocks[i]).id != m.from && blocks[i].id
                    != m.to,
        kept,
    )
}

proof fn lemma_unconcerned(blocks: Seq<BlockView>, moves: Seq<MoveView>)
    ensures
        are_unconcerned(blocks, moves, other_moves(moves, blocks)),
    decreases moves.len(),
{
    let pred = |m: MoveView|
        forall|i: int|
            0 <= i < blocks.len() ==> (#[trigger] blocks[i]).id != m.from && blocks[i].id != m.to;
    if moves.len() == 0 {
        assert(moves =~= Seq::empty());
        lemma_selects_none(pred);
    } else {
        let m = moves.last();
        lemma_unconcerned(blocks, moves.drop_last());
        lemma_selects_last(moves, pred, other_moves(moves.drop_last(), blocks));
        assert(pred(m) == !(has_block(blocks, m.from) || has_block(blocks, m.to)));
    }
}

/// An edited block has another title than the block of the document.
pub open spec fn is_retitled(original: Seq<BlockView>, b: BlockView) -> bool {
    exists|j: int|
        0 <= j < original.len() && (#[trigger] original[j]).id == b.id && original[j].title
            != b.title
}

/// An edited block has another visibility than the block of the document.
pub open spec fn is_rehidden(original: Seq<BlockView>, b: BlockView) -> bool {
    exists|j: int|
        0 <= j < original.len() && (#[trigger] original[j]).id == b.id && original[j].hidden
            != b.hidden
}

/// An edited block has another note than the block of the document.
pub open spec fn is_renoted(original: Seq<BlockView>, b: BlockView) -> bool {
    exists|j: int|
        0 <= j < original.len() && (#[trigger] original[j]).id == b.id && original[j].note
            != b.note
}

proof fn lemma_block_with(blocks: Seq<BlockView>, id: Seq<char>)
    requires
        has_block(blocks, id),
    ensures
        block_with(blocks, id).id == id,
        exists|j: int| 0 <= j < blocks.len() && #[trigger] blocks[j] == block_with(blocks, id),
    decreases blocks.len(),
{
    let j = choose|j: int| 0 <= j < blocks.len() && (#[trigger] blocks[j]).id == id;
    if blocks.last().id == id {
        assert(blocks[blocks.len() - 1] == blocks.last());
    } else {
        let rest = blocks.drop_last();
        assert(rest[j] == blocks[j]);
        lemma_block_with(rest, id);
        let k = choose|k: int|
            0 <= k < rest.len() && #[trigger] rest[k] == block_with(rest, id);
        assert(blocks[k] == rest[k]);
    }
}

proof fn lemma_differing(original: Seq<BlockView>, edited: Seq<BlockView>)
    requires
        own_ids(original),
        forall|i: int| 0 <= i < edited.len() ==> has_block(original, (#[trigger] edited[i]).id),
    ensures
        differing(original, edited).0 == edited.filter(
            |b: BlockView| is_retitled(original, b),
        ).len(),
        differing(original, edited).1 == edited.filter(
            |b: BlockView| is_rehidden(original, b),
        ).len(),
        differing(original, edited).2 == edited.filter(
            |b: BlockView| is_renoted(original, b),
        ).len(),
    decreases edited.len(),
{
    reveal(Seq::filter);
    if edited.len() > 0 {
        let rest = edited.drop_last();
        let b = edited.last();
        assert(edited[edited.len() - 1] == b);
        assert forall|i: int| 0 <= i < rest.len() implies has_block(
            original,
            (#[trigger] rest[i]).id,
        ) by {
            assert(rest[i] == edited[i]);
        }
        lemma_differing(original, rest);
        lemma_block_with(original, b.id);
        let was = block_with(original, b.id);
        let k = choose|k: int| 0 <= k < original.len() && #[trigger] original[k] == was;
        assert forall|j: int| 0 <= j < original.len() && (#[trigger] original[j]).id
            == b.id implies j == k by {
            if j < k {
                assert(original[j].id != original[k].id);
            } else if k < j {
                assert(original[k].id != original[j].id);
            }
        }
        assert(original[k].id == b.id);
        assert(is_retitled(original, b) == (was.title != b.title));
        assert(is_rehidden(original, b) == (was.hidden != b.hidden));
        assert(is_renoted(original, b) == (was.note != b.note));
    }
}

/// The summary of an accepted edit counts the checkpoints whose title, whose
/// visibility and whose note it changed, and says whether it changed their order.
pub proof fn lemma_edits_are_summed_up(
    doc: DocumentView,
    edited: Seq<BlockView>,
    s: EditSummary,
)
    requires
        aligned(doc),
        rejection(doc, edited) is None,
        summary_matches(s, doc, edited),
    ensures
        s.titled == edited.filter(|b: BlockView| is_retitled(doc.blocks, b)).len(),
        s.hidden_changed == edited.filter(|b: BlockView| is_rehidden(doc.blocks, b)).len(),
        s.noted == edited.filter(|b: BlockView| is_renoted(doc.blocks, b)).len(),
        s.reordered <==> doc.blocks.map_values(|b: BlockView| b.id) != edited.map_values(
            |b: BlockView| b.id,
        ),
{
    lemma_unknown(doc.blocks, edited);
    lemma_differing(doc.blocks, edited);
}

} // verus!
