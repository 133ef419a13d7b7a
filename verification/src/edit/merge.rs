//! What an edited buffer means: whether it is acceptable, and what it makes of
//! the metadata overlay.

use super::{has_block, known_block, Block, BlockView, Document, DocumentView};
use crate::data::{Dup, Same};
use crate::error::{outcome, TrailError, TrailErrorView};
use crate::order::{self, sorted, ByText};
use crate::path;
use crate::recorder::checkpoint::ByRecorded;
use crate::recorder::metadata::{
    no_meta, CheckpointMeta, CheckpointMetaView, Metadata, MetadataView, Move, MoveView,
};
use crate::text;
use vstd::prelude::*;

verus! {

/// What a successful edit changed, for the summary line.
#[derive(Debug, Clone, Copy, PartialEq, Eq, Structural)]
pub struct EditSummary {
    pub titled: usize,
    pub hidden_changed: usize,
    pub noted: usize,
    pub moved: usize,
    pub reordered: bool,
}

impl DeepView for EditSummary {
    type V = EditSummary;

    open spec fn deep_view(&self) -> EditSummary {
        *self
    }
}

impl Dup for EditSummary {
    fn dup(&self) -> (r: EditSummary) {
        *self
    }
}

// ---------------------------------------------------------------------------
// What an edit means
/// One file line of the original buffer: the change behind it and the block it
/// stands in.
#[derive(Debug, Clone, PartialEq, Eq)]
pub struct Occurrence {
    pub path: String,
    pub origin: String,
    pub shown: String,
}

/// What a [`Occurrence`] denotes.
#[verifier::ext_equal]
pub struct OccurrenceView {
    pub path: Seq<char>,
    pub origin: Seq<char>,
    pub shown: Seq<char>,
}

impl DeepView for Occurrence {
    type V = OccurrenceView;

    open spec fn deep_view(&self) -> OccurrenceView {
        OccurrenceView {
            path: self.path.deep_view(),
            origin: self.origin.deep_view(),
            shown: self.shown.deep_view(),
        }
    }
}

impl Dup for Occurrence {
    fn dup(&self) -> (r: Occurrence) {
        Occurrence {
            path: self.path.dup(),
            origin: self.origin.dup(),
            shown: self.shown.dup(),
        }
    }
}

pub open spec fn ids_of(blocks: Seq<BlockView>) -> Seq<Seq<char>> {
    blocks.map_values(|b: BlockView| b.id)
}

/// The ids of some blocks in the order of texts.
pub open spec fn known_ids(blocks: Seq<BlockView>) -> Seq<Seq<char>> {
    sorted::<String, ByText>(ids_of(blocks))
}

/// Ids in the order the recorder produced them.
pub open spec fn chronological_ids(blocks: Seq<BlockView>) -> Seq<Seq<char>> {
    sorted::<String, ByRecorded>(ids_of(blocks))
}

pub open spec fn block_occurrences(b: BlockView, origins: Seq<Seq<char>>) -> Seq<OccurrenceView> {
    Seq::new(
        if b.files.len() <= origins.len() {
            b.files.len()
        } else {
            origins.len()
        },
        |i: int| OccurrenceView { path: b.files[i], origin: origins[i], shown: b.id },
    )
}

/// The file lines of the original buffer, in order.
pub open spec fn occurrences(
    blocks: Seq<BlockView>,
    origins: Map<Seq<char>, Seq<Seq<char>>>,
) -> Seq<OccurrenceView>
    decreases blocks.len(),
{
    if blocks.len() == 0 {
        Seq::empty()
    } else {
        occurrences(blocks.drop_last(), origins) + block_occurrences(
            blocks.last(),
            origins[blocks.last().id],
        )
    }
}

/// The file lines of an edited buffer, each with the block it stands in.
pub open spec fn placements(blocks: Seq<BlockView>) -> Seq<(Seq<char>, Seq<char>)>
    decreases blocks.len(),
{
    if blocks.len() == 0 {
        Seq::empty()
    } else {
        placements(blocks.drop_last()) + blocks.last().files.map_values(
            |f: Seq<char>| (f, blocks.last().id),
        )
    }
}

/// The original lines of one path.
pub open spec fn occurrences_at(occs: Seq<OccurrenceView>, p: Seq<char>) -> Seq<OccurrenceView>
    decreases occs.len(),
{
    if occs.len() == 0 {
        Seq::empty()
    } else if path::same_path(occs.last().path, p) {
        occurrences_at(occs.drop_last(), p).push(occs.last())
    } else {
        occurrences_at(occs.drop_last(), p)
    }
}

/// The blocks an edited buffer puts one path in.
pub open spec fn targets_at(places: Seq<(Seq<char>, Seq<char>)>, p: Seq<char>) -> Seq<Seq<char>>
    decreases places.len(),
{
    if places.len() == 0 {
        Seq::empty()
    } else if path::same_path(places.last().0, p) {
        targets_at(places.drop_last(), p).push(places.last().1)
    } else {
        targets_at(places.drop_last(), p)
    }
}

/// The first edited block that the original does not have.
pub open spec fn first_unknown(original: Seq<BlockView>, edited: Seq<BlockView>) -> Option<
    Seq<char>,
>
    decreases edited.len(),
{
    if edited.len() == 0 {
        None
    } else {
        match first_unknown(original, edited.drop_last()) {
            Some(id) => Some(id),
            None => if has_block(original, edited.last().id) {
                None
            } else {
                Some(edited.last().id)
            },
        }
    }
}

/// The first of some ids that the edited buffer lacks.
pub open spec fn first_removed(ids: Seq<Seq<char>>, edited: Seq<BlockView>) -> Option<Seq<char>>
    decreases ids.len(),
{
    if ids.len() == 0 {
        None
    } else {
        match first_removed(ids.drop_last(), edited) {
            Some(id) => Some(id),
            None => if has_block(edited, ids.last()) {
                None
            } else {
                Some(ids.last())
            },
        }
    }
}

/// What is wrong with a path that the edited buffer has, if anything: it must
/// stand there as often as it was recorded.
pub open spec fn miscount(
    occs: Seq<OccurrenceView>,
    places: Seq<(Seq<char>, Seq<char>)>,
    p: Seq<char>,
) -> Option<Seq<char>> {
    let expected = occurrences_at(occs, p).len();
    let found = targets_at(places, p).len();
    if expected == 0 {
        Some(p + " was not recorded in any checkpoint; files cannot be invented"@)
    } else if found != expected {
        Some(
            p + " appears "@ + text::decimal(found) + " time(s) but was recorded "@ + text::decimal(
                expected,
            ) + " time(s); files cannot be removed or duplicated"@,
        )
    } else {
        None
    }
}

pub open spec fn first_miscount(
    occs: Seq<OccurrenceView>,
    places: Seq<(Seq<char>, Seq<char>)>,
    upto: nat,
) -> Option<Seq<char>>
    decreases upto,
{
    if upto == 0 {
        None
    } else {
        match first_miscount(occs, places, (upto - 1) as nat) {
            Some(m) => Some(m),
            None => miscount(occs, places, places[upto - 1].0),
        }
    }
}

/// The first original line whose path the edited buffer lacks.
pub open spec fn first_missing(
    occs: Seq<OccurrenceView>,
    places: Seq<(Seq<char>, Seq<char>)>,
) -> Option<Seq<char>>
    decreases occs.len(),
{
    if occs.len() == 0 {
        None
    } else {
        match first_missing(occs.drop_last(), places) {
            Some(m) => Some(m),
            None => if targets_at(places, occs.last().path).len() == 0 {
                Some(
                    occs.last().path + " (checkpoint "@ + occs.last().shown
                        + ") was removed; move it to another checkpoint or keep it"@,
                )
            } else {
                None
            },
        }
    }
}

/// Why an edit is not accepted, if it is not: blocks can be neither created
/// nor removed, files neither invented nor duplicated nor removed.
pub open spec fn rejection(doc: DocumentView, edited: Seq<BlockView>) -> Option<Seq<char>> {
    let occs = occurrences(doc.blocks, doc.origins);
    let places = placements(edited);
    match first_unknown(doc.blocks, edited) {
        Some(id) => Some(
            "unknown checkpoint "@ + id + "; checkpoints cannot be created here"@,
        ),
        None => match first_removed(known_ids(doc.blocks), edited) {
            Some(id) => Some(
                "checkpoint "@ + id + " was removed; hide it with `hidden = true` instead"@,
            ),
            None => match first_miscount(occs, places, places.len()) {
                Some(m) => Some(m),
                None => first_missing(occs, places),
            },
        },
    }
}

/// The position of the first `x`; the length when there is none.
pub open spec fn first_at(s: Seq<Seq<char>>, x: Seq<char>) -> int
    decreases s.len(),
{
    if s.len() == 0 || s[0] == x {
        0
    } else {
        1 + first_at(s.drop_first(), x)
    }
}

/// Each line that still stands in the block it was shown in keeps it. The rest
/// of the targets is left over.
pub open spec fn kept_places(occs: Seq<OccurrenceView>, targets: Seq<Seq<char>>) -> (
    Seq<Option<Seq<char>>>,
    Seq<Seq<char>>,
)
    decreases occs.len(),
{
    if occs.len() == 0 {
        (Seq::empty(), targets)
    } else {
        let (kept, left) = kept_places(occs.drop_last(), targets);
        let at = first_at(left, occs.last().shown);
        if 0 <= at < left.len() {
            (kept.push(Some(occs.last().shown)), left.remove(at))
        } else {
            (kept.push(None), left)
        }
    }
}

/// How many lines have no place yet.
pub open spec fn placeless(kept: Seq<Option<Seq<char>>>) -> int
    decreases kept.len(),
{
    if kept.len() == 0 {
        0
    } else {
        placeless(kept.drop_last()) + if kept.last() is None {
            1int
        } else {
            0int
        }
    }
}

/// The lines without a place take what is left, in order.
pub open spec fn filled(kept: Seq<Option<Seq<char>>>, left: Seq<Seq<char>>) -> Seq<Seq<char>>
    decreases kept.len(),
{
    if kept.len() == 0 {
        Seq::empty()
    } else {
        filled(kept.drop_last(), left).push(
            match kept.last() {
                Some(id) => id,
                None => left[placeless(kept.drop_last())],
            },
        )
    }
}

/// The block each line of one path now stands in. Lines are paired with the
/// block they were shown in when possible, so reordering blocks does not look
/// like a move.
pub open spec fn assigned(occs: Seq<OccurrenceView>, targets: Seq<Seq<char>>) -> Seq<Seq<char>> {
    let (kept, left) = kept_places(occs, targets);
    filled(kept, left)
}

/// The moves that show some changes in their new blocks.
pub open spec fn path_moves(
    p: Seq<char>,
    occs: Seq<OccurrenceView>,
    blocks: Seq<Seq<char>>,
) -> Seq<MoveView>
    decreases occs.len(),
{
    if occs.len() == 0 {
        Seq::empty()
    } else {
        let before = path_moves(p, occs.drop_last(), blocks);
        let to = blocks[occs.len() - 1];
        if occs.last().origin != to {
            before.push(MoveView { from: occs.last().origin, path: p, to })
        } else {
            before
        }
    }
}

/// How many lines stand in another block than before.
pub open spec fn moved_lines(occs: Seq<OccurrenceView>, blocks: Seq<Seq<char>>) -> int
    decreases occs.len(),
{
    if occs.len() == 0 {
        0
    } else {
        moved_lines(occs.drop_last(), blocks) + if occs.last().shown != blocks[occs.len() - 1] {
            1int
        } else {
            0int
        }
    }
}

/// The paths of some lines, each once, in the order of their first line.
pub open spec fn distinct_files(occs: Seq<OccurrenceView>) -> Seq<Seq<char>>
    decreases occs.len(),
{
    if occs.len() == 0 {
        Seq::empty()
    } else if occurrences_at(occs.drop_last(), occs.last().path).len() > 0 {
        distinct_files(occs.drop_last())
    } else {
        distinct_files(occs.drop_last()).push(occs.last().path)
    }
}

pub open spec fn all_moves(
    occs: Seq<OccurrenceView>,
    places: Seq<(Seq<char>, Seq<char>)>,
    paths: Seq<Seq<char>>,
) -> Seq<MoveView>
    decreases paths.len(),
{
    if paths.len() == 0 {
        Seq::empty()
    } else {
        let at = occurrences_at(occs, paths.last());
        all_moves(occs, places, paths.drop_last()) + path_moves(
            paths.last(),
            at,
            assigned(at, targets_at(places, paths.last())),
        )
    }
}

pub open spec fn all_moved(
    occs: Seq<OccurrenceView>,
    places: Seq<(Seq<char>, Seq<char>)>,
    paths: Seq<Seq<char>>,
) -> int
    decreases paths.len(),
{
    if paths.len() == 0 {
        0
    } else {
        let at = occurrences_at(occs, paths.last());
        all_moved(occs, places, paths.drop_last()) + moved_lines(
            at,
            assigned(at, targets_at(places, paths.last())),
        )
    }
}

/// The last block with an id.
pub open spec fn block_with(blocks: Seq<BlockView>, id: Seq<char>) -> BlockView
    decreases blocks.len(),
{
    if blocks.len() <= 1 || blocks.last().id == id {
        blocks.last()
    } else {
        block_with(blocks.drop_last(), id)
    }
}

pub open spec fn meta_of(b: BlockView) -> CheckpointMetaView {
    CheckpointMetaView { title: b.title, hidden: b.hidden, annotation: b.note }
}

/// What is said about checkpoints, with what the edited blocks say.
pub open spec fn metas(
    before: Map<Seq<char>, CheckpointMetaView>,
    edited: Seq<BlockView>,
) -> Map<Seq<char>, CheckpointMetaView>
    decreases edited.len(),
{
    if edited.len() == 0 {
        before
    } else {
        let rest = metas(before, edited.drop_last());
        let b = edited.last();
        if meta_of(b) == no_meta() {
            rest.remove(b.id)
        } else {
            rest.insert(b.id, meta_of(b))
        }
    }
}

/// How many edited blocks differ from the original ones in title, visibility
/// and note.
pub open spec fn differing(original: Seq<BlockView>, edited: Seq<BlockView>) -> (int, int, int)
    decreases edited.len(),
{
    if edited.len() == 0 {
        (0, 0, 0)
    } else {
        let (t, h, n) = differing(original, edited.drop_last());
        let b = edited.last();
        let was = block_with(original, b.id);
        (
            t + if was.title != b.title {
                1int
            } else {
                0int
            },
            h + if was.hidden != b.hidden {
                1int
            } else {
                0int
            },
            n + if was.note != b.note {
                1int
            } else {
                0int
            },
        )
    }
}

/// The moves that concern no block of a document.
pub open spec fn other_moves(moves: Seq<MoveView>, blocks: Seq<BlockView>) -> Seq<MoveView>
    decreases moves.len(),
{
    if moves.len() == 0 {
        Seq::empty()
    } else if has_block(blocks, moves.last().from) || has_block(blocks, moves.last().to) {
        other_moves(moves.drop_last(), blocks)
    } else {
        other_moves(moves.drop_last(), blocks).push(moves.last())
    }
}

/// The listed ids that are no block of a document.
pub open spec fn other_ids(order: Seq<Seq<char>>, blocks: Seq<BlockView>) -> Seq<Seq<char>>
    decreases order.len(),
{
    if order.len() == 0 {
        Seq::empty()
    } else if has_block(blocks, order.last()) {
        other_ids(order.drop_last(), blocks)
    } else {
        other_ids(order.drop_last(), blocks).push(order.last())
    }
}

/// The overlay once an accepted edit is folded into it.
pub open spec fn merged(doc: DocumentView, edited: Seq<BlockView>, m: MetadataView) -> MetadataView {
    let occs = occurrences(doc.blocks, doc.origins);
    MetadataView {
        version: m.version,
        checkpoints: metas(m.checkpoints, edited),
        moves: other_moves(m.moves, doc.blocks) + all_moves(
            occs,
            placements(edited),
            distinct_files(occs),
        ),
        order: other_ids(m.order, doc.blocks) + (if ids_of(edited) != chronological_ids(
            doc.blocks,
        ) {
            ids_of(edited)
        } else {
            Seq::empty()
        }),
    }
}

pub open spec fn summary_matches(s: EditSummary, doc: DocumentView, edited: Seq<BlockView>) -> bool {
    let occs = occurrences(doc.blocks, doc.origins);
    &&& (s.titled as int, s.hidden_changed as int, s.noted as int) == differing(doc.blocks, edited)
    &&& s.moved == all_moved(occs, placements(edited), distinct_files(occs))
    &&& s.reordered == (ids_of(doc.blocks) != ids_of(edited))
}

/// Every block has its origins.
pub open spec fn complete(doc: DocumentView) -> bool {
    forall|i: int|
        0 <= i < doc.blocks.len() ==> doc.origins.dom().contains((#[trigger] doc.blocks[i]).id)
}

fn ids(blocks: &Vec<Block>) -> (r: Vec<String>)
    ensures
        r.deep_view() == ids_of(blocks.deep_view()),
{
    let mut out: Vec<String> = Vec::new();
    let mut k: usize = 0;
    while k < blocks.len()
        invariant
            k <= blocks.len(),
            k == out.len(),
            forall|i: int| 0 <= i < k ==> (#[trigger] out[i])@ == blocks[i].id@,
        decreases blocks.len() - k,
    {
        out.push(blocks[k].id.dup());
        k += 1;
    }
    assert(out.deep_view() =~= ids_of(blocks.deep_view()));
    out
}

/// Ids in the order the recorder produced them.
fn chronological(original: &Document) -> (r: Vec<String>)
    ensures
        r.deep_view() == chronological_ids(original.deep_view().blocks),
{
    order::sort::<String, ByRecorded>(ids(&original.blocks))
}

fn collect_occurrences(doc: &Document) -> (r: Vec<Occurrence>)
    requires
        complete(doc.deep_view()),
    ensures
        r.deep_view() == occurrences(doc.deep_view().blocks, doc.deep_view().origins),
{
    let ghost d = doc.deep_view();
    let ghost all = d.blocks;
    let mut out: Vec<Occurrence> = Vec::new();
    let mut k: usize = 0;
    assert(out.deep_view() =~= occurrences(all.take(0), d.origins));
    while k < doc.blocks.len()
        invariant
            k <= doc.blocks.len(),
            d == doc.deep_view(),
            all == d.blocks,
            complete(d),
            out.deep_view() == occurrences(all.take(k as int), d.origins),
        decreases doc.blocks.len() - k,
    {
        let ghost base = out.deep_view();
        let ghost b = all[k as int];
        proof {
            assert(all.take(k + 1).drop_last() =~= all.take(k as int));
            assert(all.take(k + 1).last() == b);
            assert(d.origins.dom().contains(all[k as int].id));
        }
        let block: &Block = &doc.blocks[k];
        match doc.origins.get(&block.id) {
            Some(origins) => {
                let ghost here = block_occurrences(b, origins.deep_view());
                let mut j: usize = 0;
                assert(base + here.take(0) =~= base);
                while j < block.files.len() && j < origins.len()
                    invariant
                        j <= block.files.len(),
                        j <= origins.len(),
                        b == block.deep_view(),
                        here == block_occurrences(b, origins.deep_view()),
                        out.deep_view() == base + here.take(j as int),
                    decreases block.files.len() - j,
                {
                    let ghost was = out.deep_view();
                    let o = Occurrence {
                        path: block.files[j].dup(),
                        origin: origins[j].dup(),
                        shown: block.id.dup(),
                    };
                    assert(o.deep_view() =~= here[j as int]);
                    out.push(o);
                    assert(out.deep_view() =~= was.push(here[j as int]));
                    assert(out.deep_view() =~= base + here.take(j + 1));
                    j += 1;
                }
                assert(here.take(j as int) =~= here);
            },
            None => {},
        }
        k += 1;
    }
    assert(all.take(k as int) =~= all);
    out
}

fn collect_places(edited: &Vec<Block>) -> (r: Vec<(String, String)>)
    ensures
        r.deep_view() == placements(edited.deep_view()),
{
    let ghost all = edited.deep_view();
    let mut out: Vec<(String, String)> = Vec::new();
    let mut k: usize = 0;
    assert(out.deep_view() =~= placements(all.take(0)));
    while k < edited.len()
        invariant
            k <= edited.len(),
            all == edited.deep_view(),
            out.deep_view() == placements(all.take(k as int)),
        decreases edited.len() - k,
    {
        let ghost base = out.deep_view();
        let ghost b = all[k as int];
        proof {
            assert(all.take(k + 1).drop_last() =~= all.take(k as int));
            assert(all.take(k + 1).last() == b);
        }
        let block: &Block = &edited[k];
        let ghost here = b.files.map_values(|f: Seq<char>| (f, b.id));
        let mut j: usize = 0;
        assert(base + here.take(0) =~= base);
        while j < block.files.len()
            invariant
                j <= block.files.len(),
                b == block.deep_view(),
                here == b.files.map_values(|f: Seq<char>| (f, b.id)),
                out.deep_view() == base + here.take(j as int),
            decreases block.files.len() - j,
        {
            let ghost was = out.deep_view();
            out.push((block.files[j].dup(), block.id.dup()));
            assert(out.deep_view() =~= was.push(here[j as int]));
            assert(out.deep_view() =~= base + here.take(j + 1));
            j += 1;
        }
        assert(here.take(j as int) =~= here);
        k += 1;
    }
    assert(all.take(k as int) =~= all);
    out
}

fn select_occurrences(occs: &Vec<Occurrence>, p: &str) -> (r: Vec<Occurrence>)
    ensures
        r.deep_view() == occurrences_at(occs.deep_view(), p@),
{
    let ghost all = occs.deep_view();
    let mut out: Vec<Occurrence> = Vec::new();
    let mut k: usize = 0;
    assert(out.deep_view() =~= occurrences_at(all.take(0), p@));
    while k < occs.len()
        invariant
            k <= occs.len(),
            all == occs.deep_view(),
            out.deep_view() == occurrences_at(all.take(k as int), p@),
        decreases occs.len() - k,
    {
        let ghost was = out.deep_view();
        proof {
            assert(all.take(k + 1).drop_last() =~= all.take(k as int));
            assert(all.take(k + 1).last() == occs[k as int].deep_view());
        }
        if path::same(&occs[k].path, p) {
            out.push(occs[k].dup());
            assert(out.deep_view() =~= was.push(all[k as int]));
        }
        k += 1;
    }
    assert(all.take(k as int) =~= all);
    out
}

fn select_targets(places: &Vec<(String, String)>, p: &str) -> (r: Vec<String>)
    ensures
        r.deep_view() == targets_at(places.deep_view(), p@),
{
    let ghost all = places.deep_view();
    let mut out: Vec<String> = Vec::new();
    let mut k: usize = 0;
    assert(out.deep_view() =~= targets_at(all.take(0), p@));
    while k < places.len()
        invariant
            k <= places.len(),
            all == places.deep_view(),
            out.deep_view() == targets_at(all.take(k as int), p@),
        decreases places.len() - k,
    {
        let ghost was = out.deep_view();
        proof {
            assert(all.take(k + 1).drop_last() =~= all.take(k as int));
            assert(all.take(k + 1).last() == all[k as int]);
        }
        if path::same(&places[k].0, p) {
            out.push(places[k].1.dup());
            assert(out.deep_view() =~= was.push(all[k as int].1));
        }
        k += 1;
    }
    assert(all.take(k as int) =~= all);
    out
}

/// Why an edit is not accepted, if it is not.
fn reject(
    original: &Document,
    edited: &Vec<Block>,
    occs: &Vec<Occurrence>,
    places: &Vec<(String, String)>,
) -> (r: Option<String>)
    requires
        occs.deep_view() == occurrences(original.deep_view().blocks, original.deep_view().origins),
        places.deep_view() == placements(edited.deep_view()),
    ensures
        r.deep_view() == rejection(original.deep_view(), edited.deep_view()),
{
    let ghost doc = original.deep_view();
    let ghost ed = edited.deep_view();
    let ghost os = occs.deep_view();
    let ghost ps = places.deep_view();
    let mut k: usize = 0;
    while k < edited.len()
        invariant
            k <= edited.len(),
            ed == edited.deep_view(),
            doc == original.deep_view(),
            first_unknown(doc.blocks, ed.take(k as int)) is None,
        decreases edited.len() - k,
    {
        proof {
            assert(ed.take(k + 1).drop_last() =~= ed.take(k as int));
            assert(ed.take(k + 1).last() == ed[k as int]);
        }
        if !known_block(&original.blocks, &edited[k].id) {
            proof {
                lemma_first_unknown(doc.blocks, ed, k + 1);
            }
            return Some(
                text::cat3(
                    "unknown checkpoint ",
                    &edited[k].id,
                    "; checkpoints cannot be created here",
                ),
            );
        }
        k += 1;
    }
    assert(ed.take(k as int) =~= ed);
    let known: Vec<String> = order::sort::<String, ByText>(ids(&original.blocks));
    let ghost ks = known.deep_view();
    let mut k: usize = 0;
    while k < known.len()
        invariant
            k <= known.len(),
            ed == edited.deep_view(),
            doc == original.deep_view(),
            first_unknown(doc.blocks, ed) is None,
            ks == known.deep_view(),
            ks == known_ids(doc.blocks),
            first_removed(ks.take(k as int), ed) is None,
        decreases known.len() - k,
    {
        proof {
            assert(ks.take(k + 1).drop_last() =~= ks.take(k as int));
            assert(ks.take(k + 1).last() == ks[k as int]);
        }
        if !known_block(edited, &known[k]) {
            proof {
                lemma_first_removed(ks, ed, k + 1);
            }
            return Some(
                text::cat3(
                    "checkpoint ",
                    &known[k],
                    " was removed; hide it with `hidden = true` instead",
                ),
            );
        }
        k += 1;
    }
    assert(ks.take(k as int) =~= ks);
    let mut k: usize = 0;
    while k < places.len()
        invariant
            k <= places.len(),
            ed == edited.deep_view(),
            doc == original.deep_view(),
            os == occs.deep_view(),
            ps == places.deep_view(),
            os == occurrences(doc.blocks, doc.origins),
            ps == placements(ed),
            first_unknown(doc.blocks, ed) is None,
            first_removed(known_ids(doc.blocks), ed) is None,
            first_miscount(os, ps, k as nat) is None,
        decreases places.len() - k,
    {
        let p: &String = &places[k].0;
        assert(p@ == ps[k as int].0);
        let expected: usize = select_occurrences(occs, p).len();
        let found: usize = select_targets(places, p).len();
        if expected == 0 {
            proof {
                lemma_first_miscount(os, ps, (k + 1) as nat, ps.len());
            }
            return Some(
                text::cat2(
                    p,
                    " was not recorded in any checkpoint; files cannot be invented",
                ),
            );
        }
        if found != expected {
            proof {
                lemma_first_miscount(os, ps, (k + 1) as nat, ps.len());
            }
            return Some(
                text::cat6(
                    p,
                    " appears ",
                    &text::decimal_of(found as u64),
                    " time(s) but was recorded ",
                    &text::decimal_of(expected as u64),
                    " time(s); files cannot be removed or duplicated",
                ),
            );
        }
        k += 1;
    }
    let mut k: usize = 0;
    while k < occs.len()
        invariant
            k <= occs.len(),
            ed == edited.deep_view(),
            doc == original.deep_view(),
            os == occs.deep_view(),
            ps == places.deep_view(),
            os == occurrences(doc.blocks, doc.origins),
            ps == placements(ed),
            first_unknown(doc.blocks, ed) is None,
            first_removed(known_ids(doc.blocks), ed) is None,
            first_miscount(os, ps, ps.len()) is None,
            first_missing(os.take(k as int), ps) is None,
        decreases occs.len() - k,
    {
        proof {
            assert(os.take(k + 1).drop_last() =~= os.take(k as int));
            assert(os.take(k + 1).last() == os[k as int]);
        }
        if select_targets(places, &occs[k].path).len() == 0 {
            proof {
                lemma_first_missing(os, ps, k + 1);
            }
            return Some(
                text::cat4(
                    &occs[k].path,
                    " (checkpoint ",
                    &occs[k].shown,
                    ") was removed; move it to another checkpoint or keep it",
                ),
            );
        }
        k += 1;
    }
    assert(os.take(k as int) =~= os);
    None
}

proof fn lemma_first_unknown(original: Seq<BlockView>, edited: Seq<BlockView>, k: int)
    requires
        0 <= k <= edited.len(),
        first_unknown(original, edited.take(k)) is Some,
    ensures
        first_unknown(original, edited) == first_unknown(original, edited.take(k)),
    decreases edited.len() - k,
{
    if k == edited.len() {
        assert(edited.take(k) =~= edited);
    } else {
        assert(edited.take(k + 1).drop_last() =~= edited.take(k));
        lemma_first_unknown(original, edited, k + 1);
    }
}

proof fn lemma_first_removed(ids: Seq<Seq<char>>, edited: Seq<BlockView>, k: int)
    requires
        0 <= k <= ids.len(),
        first_removed(ids.take(k), edited) is Some,
    ensures
        first_removed(ids, edited) == first_removed(ids.take(k), edited),
    decreases ids.len() - k,
{
    if k == ids.len() {
        assert(ids.take(k) =~= ids);
    } else {
        assert(ids.take(k + 1).drop_last() =~= ids.take(k));
        lemma_first_removed(ids, edited, k + 1);
    }
}

proof fn lemma_first_miscount(
    occs: Seq<OccurrenceView>,
    places: Seq<(Seq<char>, Seq<char>)>,
    k: nat,
    n: nat,
)
    requires
        k <= n,
        first_miscount(occs, places, k) is Some,
    ensures
        first_miscount(occs, places, n) == first_miscount(occs, places, k),
    decreases n - k,
{
    if k < n {
        lemma_first_miscount(occs, places, k, (n - 1) as nat);
    }
}

proof fn lemma_first_missing(
    occs: Seq<OccurrenceView>,
    places: Seq<(Seq<char>, Seq<char>)>,
    k: int,
)
    requires
        0 <= k <= occs.len(),
        first_missing(occs.take(k), places) is Some,
    ensures
        first_missing(occs, places) == first_missing(occs.take(k), places),
    decreases occs.len() - k,
{
    if k == occs.len() {
        assert(occs.take(k) =~= occs);
    } else {
        assert(occs.take(k + 1).drop_last() =~= occs.take(k));
        lemma_first_missing(occs, places, k + 1);
    }
}

/// Two texts for one path select the same lines.
pub proof fn lemma_same_occurrences(occs: Seq<OccurrenceView>, p: Seq<char>, q: Seq<char>)
    requires
        path::same_path(p, q),
    ensures
        occurrences_at(occs, p) == occurrences_at(occs, q),
    decreases occs.len(),
{
    if occs.len() > 0 {
        lemma_same_occurrences(occs.drop_last(), p, q);
    }
}

pub proof fn lemma_same_targets(places: Seq<(Seq<char>, Seq<char>)>, p: Seq<char>, q: Seq<char>)
    requires
        path::same_path(p, q),
    ensures
        targets_at(places, p) == targets_at(places, q),
    decreases places.len(),
{
    if places.len() > 0 {
        lemma_same_targets(places.drop_last(), p, q);
    }
}

proof fn lemma_target_place(places: Seq<(Seq<char>, Seq<char>)>, p: Seq<char>) -> (i: int)
    requires
        targets_at(places, p).len() > 0,
    ensures
        0 <= i < places.len(),
        path::same_path(places[i].0, p),
    decreases places.len(),
{
    if path::same_path(places.last().0, p) {
        places.len() - 1
    } else {
        lemma_target_place(places.drop_last(), p)
    }
}

proof fn lemma_no_miscount(
    occs: Seq<OccurrenceView>,
    places: Seq<(Seq<char>, Seq<char>)>,
    n: nat,
    i: int,
)
    requires
        first_miscount(occs, places, n) is None,
        0 <= i < n,
    ensures
        miscount(occs, places, places[i].0) is None,
    decreases n,
{
    if i < n - 1 {
        lemma_no_miscount(occs, places, (n - 1) as nat, i);
    }
}

proof fn lemma_none_missing(
    occs: Seq<OccurrenceView>,
    places: Seq<(Seq<char>, Seq<char>)>,
    i: int,
)
    requires
        first_missing(occs, places) is None,
        0 <= i < occs.len(),
    ensures
        targets_at(places, occs[i].path).len() > 0,
    decreases occs.len(),
{
    if i < occs.len() - 1 {
        lemma_none_missing(occs.drop_last(), places, i);
    }
}

proof fn lemma_occurrence(occs: Seq<OccurrenceView>, p: Seq<char>) -> (i: int)
    requires
        occurrences_at(occs, p).len() > 0,
    ensures
        0 <= i < occs.len(),
        path::same_path(occs[i].path, p),
    decreases occs.len(),
{
    if path::same_path(occs.last().path, p) {
        occs.len() - 1
    } else {
        lemma_occurrence(occs.drop_last(), p)
    }
}

/// An accepted edit has every file exactly as often as it was recorded: no
/// file is removed, none is duplicated and none is invented.
pub proof fn lemma_accepted_keeps_files(doc: DocumentView, edited: Seq<BlockView>, p: Seq<char>)
    requires
        rejection(doc, edited) is None,
    ensures
        targets_at(placements(edited), p).len() == occurrences_at(
            occurrences(doc.blocks, doc.origins),
            p,
        ).len(),
{
    let occs = occurrences(doc.blocks, doc.origins);
    let places = placements(edited);
    if targets_at(places, p).len() > 0 {
        let i = lemma_target_place(places, p);
        lemma_no_miscount(occs, places, places.len(), i);
        lemma_same_occurrences(occs, places[i].0, p);
        lemma_same_targets(places, places[i].0, p);
    } else if occurrences_at(occs, p).len() > 0 {
        let i = lemma_occurrence(occs, p);
        lemma_none_missing(occs, places, i);
        lemma_same_targets(places, occs[i].path, p);
    }
}

/// How many lines some paths have.
spec fn total_at(occs: Seq<OccurrenceView>, paths: Seq<Seq<char>>) -> int
    decreases paths.len(),
{
    if paths.len() == 0 {
        0
    } else {
        total_at(occs, paths.drop_last()) + occurrences_at(occs, paths.last()).len()
    }
}

/// How many of some paths are `p`.
pub open spec fn matching(paths: Seq<Seq<char>>, p: Seq<char>) -> int
    decreases paths.len(),
{
    if paths.len() == 0 {
        0
    } else {
        matching(paths.drop_last(), p) + if path::same_path(p, paths.last()) {
            1int
        } else {
            0int
        }
    }
}

proof fn lemma_total_grows(occs: Seq<OccurrenceView>, paths: Seq<Seq<char>>)
    requires
        occs.len() > 0,
    ensures
        total_at(occs, paths) == total_at(occs.drop_last(), paths) + matching(
            paths,
            occs.last().path,
        ),
    decreases paths.len(),
{
    if paths.len() > 0 {
        lemma_total_grows(occs, paths.drop_last());
    }
}

pub proof fn lemma_distinct_once(occs: Seq<OccurrenceView>, p: Seq<char>)
    ensures
        matching(distinct_files(occs), p) == if occurrences_at(occs, p).len() > 0 {
            1int
        } else {
            0int
        },
    decreases occs.len(),
{
    if occs.len() > 0 {
        let rest = occs.drop_last();
        let q = occs.last().path;
        lemma_distinct_once(rest, p);
        if path::same_path(q, p) {
            lemma_same_occurrences(rest, q, p);
        }
        if occurrences_at(rest, q).len() == 0 {
            assert(distinct_files(occs).drop_last() =~= distinct_files(rest));
        }
    }
}

/// Every line is a line of exactly one of the distinct paths.
proof fn lemma_total(occs: Seq<OccurrenceView>)
    ensures
        total_at(occs, distinct_files(occs)) == occs.len(),
    decreases occs.len(),
{
    if occs.len() > 0 {
        let rest = occs.drop_last();
        let q = occs.last().path;
        lemma_total(rest);
        lemma_total_grows(occs, distinct_files(rest));
        lemma_distinct_once(rest, q);
        if occurrences_at(rest, q).len() == 0 {
            assert(distinct_files(occs).drop_last() =~= distinct_files(rest));
        }
    }
}

proof fn lemma_total_take(occs: Seq<OccurrenceView>, paths: Seq<Seq<char>>, k: int)
    requires
        0 <= k <= paths.len(),
    ensures
        0 <= total_at(occs, paths.take(k)) <= total_at(occs, paths),
    decreases paths.len(),
{
    if k == paths.len() {
        assert(paths.take(k) =~= paths);
        if k > 0 {
            lemma_total_take(occs, paths.drop_last(), k - 1);
        }
    } else {
        assert(paths.drop_last().take(k) =~= paths.take(k));
        lemma_total_take(occs, paths.drop_last(), k);
    }
}

pub proof fn lemma_first_at(s: Seq<Seq<char>>, x: Seq<char>)
    ensures
        0 <= first_at(s, x) <= s.len(),
        first_at(s, x) < s.len() ==> s[first_at(s, x)] == x,
    decreases s.len(),
{
    if s.len() > 0 && s[0] != x {
        lemma_first_at(s.drop_first(), x);
    }
}

pub proof fn lemma_kept_places(occs: Seq<OccurrenceView>, targets: Seq<Seq<char>>)
    ensures
        kept_places(occs, targets).0.len() == occs.len(),
        kept_places(occs, targets).1.len() + occs.len() == targets.len() + placeless(
            kept_places(occs, targets).0,
        ),
    decreases occs.len(),
{
    if occs.len() > 0 {
        lemma_kept_places(occs.drop_last(), targets);
        let (kept, left) = kept_places(occs.drop_last(), targets);
        lemma_first_at(left, occs.last().shown);
        let now = kept_places(occs, targets).0;
        assert(now.drop_last() =~= kept);
    }
}

proof fn lemma_placeless_take(kept: Seq<Option<Seq<char>>>, k: int)
    requires
        0 <= k <= kept.len(),
    ensures
        0 <= placeless(kept.take(k)) <= k,
        placeless(kept.take(k)) <= placeless(kept),
    decreases kept.len(),
{
    if k == kept.len() {
        assert(kept.take(k) =~= kept);
        if k > 0 {
            lemma_placeless_take(kept.drop_last(), k - 1);
            assert(kept.drop_last().take(k - 1) =~= kept.drop_last());
        }
    } else {
        assert(kept.drop_last().take(k) =~= kept.take(k));
        lemma_placeless_take(kept.drop_last(), k);
    }
}

fn position(s: &Vec<String>, x: &str) -> (r: usize)
    ensures
        r == first_at(s.deep_view(), x@),
        r <= s.len(),
{
    let ghost all = s.deep_view();
    let mut k: usize = 0;
    assert(all.skip(0) =~= all);
    while k < s.len()
        invariant
            k <= s.len(),
            all == s.deep_view(),
            first_at(all, x@) == k + first_at(all.skip(k as int), x@),
        decreases s.len() - k,
    {
        assert(all.skip(k as int)[0] == s[k as int]@);
        if text::same(&s[k], x) {
            return k;
        }
        assert(all.skip(k as int).drop_first() =~= all.skip(k + 1));
        k += 1;
    }
    k
}

/// The block each line of one path now stands in.
fn assign(occs: &Vec<Occurrence>, targets: Vec<String>) -> (r: Vec<String>)
    requires
        occs.len() == targets.len(),
    ensures
        r.deep_view() == assigned(occs.deep_view(), targets.deep_view()),
        r.len() == occs.len(),
{
    let ghost all = occs.deep_view();
    let ghost ts = targets.deep_view();
    let mut left: Vec<String> = targets;
    let mut kept: Vec<Option<String>> = Vec::new();
    let mut k: usize = 0;
    assert(kept.deep_view() =~= kept_places(all.take(0), ts).0);
    while k < occs.len()
        invariant
            k <= occs.len(),
            all == occs.deep_view(),
            kept.deep_view() == kept_places(all.take(k as int), ts).0,
            left.deep_view() == kept_places(all.take(k as int), ts).1,
        decreases occs.len() - k,
    {
        let ghost was_kept = kept.deep_view();
        let ghost was_left = left.deep_view();
        proof {
            assert(all.take(k + 1).drop_last() =~= all.take(k as int));
            assert(all.take(k + 1).last() == occs[k as int].deep_view());
        }
        let at: usize = position(&left, &occs[k].shown);
        if at < left.len() {
            let _ = left.remove(at);
            assert(left.deep_view() =~= was_left.remove(at as int));
            kept.push(Some(occs[k].shown.dup()));
            assert(kept.deep_view() =~= was_kept.push(Some(occs[k as int].shown@)));
        } else {
            kept.push(None);
            assert(kept.deep_view() =~= was_kept.push(None));
        }
        k += 1;
    }
    assert(all.take(k as int) =~= all);
    proof {
        lemma_kept_places(all, ts);
    }
    let ghost ks = kept.deep_view();
    let ghost ls = left.deep_view();
    let mut out: Vec<String> = Vec::new();
    let mut used: usize = 0;
    let mut k: usize = 0;
    assert(out.deep_view() =~= filled(ks.take(0), ls));
    while k < kept.len()
        invariant
            k <= kept.len(),
            k == out.len(),
            ks == kept.deep_view(),
            ls == left.deep_view(),
            placeless(ks) == ls.len(),
            used == placeless(ks.take(k as int)),
            out.deep_view() == filled(ks.take(k as int), ls),
        decreases kept.len() - k,
    {
        let ghost was = out.deep_view();
        proof {
            assert(ks.take(k + 1).drop_last() =~= ks.take(k as int));
            assert(ks.take(k + 1).last() == ks[k as int]);
            lemma_placeless_take(ks, k + 1);
        }
        match &kept[k] {
            Some(id) => {
                out.push(id.dup());
                assert(out.deep_view() =~= was.push(id@));
            },
            None => {
                out.push(left[used].dup());
                assert(out.deep_view() =~= was.push(ls[used as int]));
                used = used + 1;
            },
        }
        k += 1;
    }
    assert(ks.take(k as int) =~= ks);
    out
}

fn known_occurrence(occs: &Vec<Occurrence>, upto: usize, p: &str) -> (r: bool)
    requires
        upto <= occs.len(),
    ensures
        r == (occurrences_at(occs.deep_view().take(upto as int), p@).len() > 0),
{
    let ghost all = occs.deep_view();
    let mut k: usize = 0;
    assert(occurrences_at(all.take(0), p@) =~= Seq::empty());
    let mut found: bool = false;
    while k < upto
        invariant
            k <= upto <= occs.len(),
            all == occs.deep_view(),
            found == (occurrences_at(all.take(k as int), p@).len() > 0),
        decreases upto - k,
    {
        proof {
            assert(all.take(k + 1).drop_last() =~= all.take(k as int));
            assert(all.take(k + 1).last() == occs[k as int].deep_view());
        }
        if path::same(&occs[k].path, p) {
            found = true;
        }
        k += 1;
    }
    found
}

fn collect_files(occs: &Vec<Occurrence>) -> (r: Vec<String>)
    ensures
        r.deep_view() == distinct_files(occs.deep_view()),
{
    let ghost all = occs.deep_view();
    let mut out: Vec<String> = Vec::new();
    let mut k: usize = 0;
    assert(out.deep_view() =~= distinct_files(all.take(0)));
    while k < occs.len()
        invariant
            k <= occs.len(),
            all == occs.deep_view(),
            out.deep_view() == distinct_files(all.take(k as int)),
        decreases occs.len() - k,
    {
        let ghost was = out.deep_view();
        proof {
            assert(all.take(k + 1).drop_last() =~= all.take(k as int));
            assert(all.take(k + 1).last() == occs[k as int].deep_view());
        }
        if !known_occurrence(occs, k, &occs[k].path) {
            out.push(occs[k].path.dup());
            assert(out.deep_view() =~= was.push(all[k as int].path));
        }
        k += 1;
    }
    assert(all.take(k as int) =~= all);
    out
}

/// The moves that show every change in its new block, and how many lines moved.
fn regroup(occs: &Vec<Occurrence>, places: &Vec<(String, String)>) -> (r: (Vec<Move>, usize))
    requires
        forall|p: Seq<char>|
            occurrences_at(occs.deep_view(), p).len() == (#[trigger] targets_at(
                places.deep_view(),
                p,
            )).len(),
    ensures
        r.0.deep_view() == all_moves(
            occs.deep_view(),
            places.deep_view(),
            distinct_files(occs.deep_view()),
        ),
        r.1 == all_moved(
            occs.deep_view(),
            places.deep_view(),
            distinct_files(occs.deep_view()),
        ),
{
    let ghost os = occs.deep_view();
    let ghost ps = places.deep_view();
    let paths: Vec<String> = collect_files(occs);
    let ghost fs = paths.deep_view();
    let mut moves: Vec<Move> = Vec::new();
    let mut moved: usize = 0;
    let mut k: usize = 0;
    assert(moves.deep_view() =~= all_moves(os, ps, fs.take(0)));
    proof {
        lemma_total(os);
    }
    while k < paths.len()
        invariant
            k <= paths.len(),
            os == occs.deep_view(),
            ps == places.deep_view(),
            fs == paths.deep_view(),
            total_at(os, fs) == os.len(),
            forall|p: Seq<char>|
                occurrences_at(os, p).len() == (#[trigger] targets_at(ps, p)).len(),
            moves.deep_view() == all_moves(os, ps, fs.take(k as int)),
            moved == all_moved(os, ps, fs.take(k as int)),
            moved <= total_at(os, fs.take(k as int)),
        decreases paths.len() - k,
    {
        let p: &String = &paths[k];
        let ghost next = fs.take(k + 1);
        proof {
            assert(next.drop_last() =~= fs.take(k as int));
            assert(next.last() == p@);
            lemma_total_take(os, fs, k + 1);
            lemma_total_take(os, fs, k as int);
            assert(occurrences_at(os, p@).len() == targets_at(ps, p@).len());
        }
        let at: Vec<Occurrence> = select_occurrences(occs, p);
        let ghost here = at.deep_view();
        let blocks: Vec<String> = assign(&at, select_targets(places, p));
        let ghost bs = blocks.deep_view();
        let ghost base = moves.deep_view();
        let ghost before = moved as int;
        let mut j: usize = 0;
        assert(base + path_moves(p@, here.take(0), bs) =~= base);
        while j < at.len()
            invariant
                j <= at.len(),
                at.len() == blocks.len(),
                here == at.deep_view(),
                bs == blocks.deep_view(),
                moves.deep_view() == base + path_moves(p@, here.take(j as int), bs),
                moved == before + moved_lines(here.take(j as int), bs),
                moved <= before + j,
                before + at.len() <= occs.len(),
            decreases at.len() - j,
        {
            let ghost was = moves.deep_view();
            proof {
                assert(here.take(j + 1).drop_last() =~= here.take(j as int));
                assert(here.take(j + 1).last() == at[j as int].deep_view());
            }
            if at[j].origin != blocks[j] {
                let m = Move { from: at[j].origin.dup(), path: p.dup(), to: blocks[j].dup() };
                let ghost mv = m.deep_view();
                moves.push(m);
                assert(moves.deep_view() =~= was.push(mv));
            }
            assert(moves.deep_view() =~= base + path_moves(p@, here.take(j + 1), bs));
            if at[j].shown != blocks[j] {
                moved = moved + 1;
            }
            j += 1;
        }
        assert(here.take(j as int) =~= here);
        k += 1;
    }
    assert(fs.take(k as int) =~= fs);
    (moves, moved)
}

fn retain_moves(moves: &Vec<Move>, blocks: &Vec<Block>) -> (r: Vec<Move>)
    ensures
        r.deep_view() == other_moves(moves.deep_view(), blocks.deep_view()),
{
    let ghost all = moves.deep_view();
    let ghost bs = blocks.deep_view();
    let mut out: Vec<Move> = Vec::new();
    let mut k: usize = 0;
    assert(out.deep_view() =~= other_moves(all.take(0), bs));
    while k < moves.len()
        invariant
            k <= moves.len(),
            all == moves.deep_view(),
            bs == blocks.deep_view(),
            out.deep_view() == other_moves(all.take(k as int), bs),
        decreases moves.len() - k,
    {
        let ghost was = out.deep_view();
        proof {
            assert(all.take(k + 1).drop_last() =~= all.take(k as int));
            assert(all.take(k + 1).last() == moves[k as int].deep_view());
        }
        if !known_block(blocks, &moves[k].from) && !known_block(blocks, &moves[k].to) {
            out.push(moves[k].dup());
            assert(out.deep_view() =~= was.push(all[k as int]));
        }
        k += 1;
    }
    assert(all.take(k as int) =~= all);
    out
}

fn retain_ids(order: &Vec<String>, blocks: &Vec<Block>) -> (r: Vec<String>)
    ensures
        r.deep_view() == other_ids(order.deep_view(), blocks.deep_view()),
{
    let ghost all = order.deep_view();
    let ghost bs = blocks.deep_view();
    let mut out: Vec<String> = Vec::new();
    let mut k: usize = 0;
    assert(out.deep_view() =~= other_ids(all.take(0), bs));
    while k < order.len()
        invariant
            k <= order.len(),
            all == order.deep_view(),
            bs == blocks.deep_view(),
            out.deep_view() == other_ids(all.take(k as int), bs),
        decreases order.len() - k,
    {
        let ghost was = out.deep_view();
        proof {
            assert(all.take(k + 1).drop_last() =~= all.take(k as int));
            assert(all.take(k + 1).last() == order[k as int]@);
        }
        if !known_block(blocks, &order[k]) {
            out.push(order[k].dup());
            assert(out.deep_view() =~= was.push(all[k as int]));
        }
        k += 1;
    }
    assert(all.take(k as int) =~= all);
    out
}

/// The last block with an id.
fn find_block<'a>(blocks: &'a Vec<Block>, id: &str) -> (r: &'a Block)
    requires
        blocks.len() > 0,
    ensures
        r.deep_view() == block_with(blocks.deep_view(), id@),
{
    let ghost all = blocks.deep_view();
    let mut k: usize = blocks.len();
    assert(all.take(k as int) =~= all);
    while k > 1
        invariant
            1 <= k <= blocks.len(),
            all == blocks.deep_view(),
            block_with(all, id@) == block_with(all.take(k as int), id@),
        decreases k,
    {
        assert(all.take(k as int).last() == blocks[k - 1].deep_view());
        if text::same(&blocks[k - 1].id, id) {
            return &blocks[k - 1];
        }
        assert(all.take(k as int).drop_last() =~= all.take(k - 1));
        k -= 1;
    }
    assert(all.take(1).last() == blocks[0].deep_view());
    &blocks[0]
}

/// Validate `edited` against `original` and fold the result into `metadata`.
/// Nothing is written here; the caller saves atomically on success.
pub fn diff(original: &Document, edited: &Vec<Block>, metadata: &mut Metadata) -> (r: Result<
    EditSummary,
    TrailError,
>)
    requires
        complete(original.deep_view()),
    ensures
        match rejection(original.deep_view(), edited.deep_view()) {
            Some(m) => outcome(r) == Err::<EditSummary, TrailErrorView>(
                TrailErrorView::InvalidEdit(m),
            ) && *final(metadata) == *old(metadata),
            None => r is Ok && summary_matches(
                r->Ok_0,
                original.deep_view(),
                edited.deep_view(),
            ) && final(metadata).deep_view() == merged(
                original.deep_view(),
                edited.deep_view(),
                old(metadata).deep_view(),
            ),
        },
{
    let ghost doc = original.deep_view();
    let ghost ed = edited.deep_view();
    let ghost m = metadata.deep_view();
    let occs: Vec<Occurrence> = collect_occurrences(original);
    let places: Vec<(String, String)> = collect_places(edited);
    match reject(original, edited, &occs, &places) {
        Some(message) => {
            return Err(TrailError::InvalidEdit(message));
        },
        None => {},
    }
    proof {
        assert forall|p: Seq<char>|
            occurrences_at(occs.deep_view(), p).len() == (#[trigger] targets_at(
                places.deep_view(),
                p,
            )).len() by {
            lemma_accepted_keeps_files(doc, ed, p);
        }
    }

    // Moves: regenerated for every change shown in this document. Occurrences
    // of the same path are paired with the block they were shown in when
    // possible, so reordering blocks does not look like a move.
    let mut moves: Vec<Move> = retain_moves(&metadata.moves, &original.blocks);
    let (added, moved) = regroup(&occs, &places);
    let ghost kept_moves = moves.deep_view();
    let ghost new_moves = added.deep_view();
    let mut added: Vec<Move> = added;
    moves.append(&mut added);
    assert(moves.deep_view() =~= kept_moves + new_moves);
    metadata.moves = moves;

    // Titles, hidden flags and notes.
    let mut titled: usize = 0;
    let mut hidden_changed: usize = 0;
    let mut noted: usize = 0;
    let mut k: usize = 0;
    assert(ed.take(0) =~= Seq::empty());
    while k < edited.len()
        invariant
            k <= edited.len(),
            ed == edited.deep_view(),
            doc == original.deep_view(),
            first_unknown(doc.blocks, ed) is None,
            titled <= k,
            hidden_changed <= k,
            noted <= k,
            (titled as int, hidden_changed as int, noted as int) == differing(
                doc.blocks,
                ed.take(k as int),
            ),
            metadata.checkpoints.deep_view() == metas(m.checkpoints, ed.take(k as int)),
            metadata.version == m.version,
            metadata.moves.deep_view() == kept_moves + new_moves,
            metadata.order.deep_view() == m.order,
        decreases edited.len() - k,
    {
        proof {
            assert(ed.take(k + 1).drop_last() =~= ed.take(k as int));
            assert(ed.take(k + 1).last() == ed[k as int]);
            lemma_all_known(doc.blocks, ed, k as int);
        }
        let block: &Block = &edited[k];
        let before: &Block = find_block(&original.blocks, &block.id);
        if !before.title.same(&block.title) {
            titled = titled + 1;
        }
        if before.hidden != block.hidden {
            hidden_changed = hidden_changed + 1;
        }
        if !before.note.same(&block.note) {
            noted = noted + 1;
        }
        let meta = CheckpointMeta {
            title: block.title.dup(),
            hidden: block.hidden,
            annotation: block.note.dup(),
        };
        assert(meta.deep_view() =~= meta_of(ed[k as int]));
        if meta.same(&CheckpointMeta::default()) {
            metadata.checkpoints.remove(&block.id);
        } else {
            metadata.checkpoints.insert(block.id.dup(), meta);
        }
        k += 1;
    }
    assert(ed.take(k as int) =~= ed);

    // Order: the document's block order replaces the order of these ids.
    let original_order: Vec<String> = ids(&original.blocks);
    let edited_order: Vec<String> = ids(edited);
    let reordered: bool = !original_order.same(&edited_order);
    let mut order: Vec<String> = retain_ids(&metadata.order, &original.blocks);
    let ghost kept_ids = order.deep_view();
    if !edited_order.same(&chronological(original)) {
        let mut tail: Vec<String> = edited_order;
        order.append(&mut tail);
        assert(order.deep_view() =~= kept_ids + ids_of(ed));
    } else {
        assert(order.deep_view() =~= kept_ids + Seq::empty());
    }
    metadata.order = order;
    assert(metadata.deep_view() =~= merged(doc, ed, m));
    Ok(EditSummary { titled, hidden_changed, noted, moved, reordered })
}

proof fn lemma_all_known(original: Seq<BlockView>, edited: Seq<BlockView>, i: int)
    requires
        first_unknown(original, edited) is None,
        0 <= i < edited.len(),
    ensures
        has_block(original, edited[i].id),
        original.len() > 0,
    decreases edited.len(),
{
    if i < edited.len() - 1 {
        lemma_all_known(original, edited.drop_last(), i);
    }
}

pub open spec fn nothing_changed() -> EditSummary {
    EditSummary { titled: 0, hidden_changed: 0, noted: 0, moved: 0, reordered: false }
}

impl Default for EditSummary {
    fn default() -> (r: EditSummary)
        ensures
            r == nothing_changed(),
    {
        EditSummary { titled: 0, hidden_changed: 0, noted: 0, moved: 0, reordered: false }
    }
}

impl EditSummary {
    pub fn is_empty(&self) -> (r: bool)
        ensures
            r == (*self == nothing_changed()),
    {
        *self == EditSummary::default()
    }
}

/// The parts of an edit's description.
pub open spec fn described_parts(s: EditSummary) -> Seq<Seq<char>> {
    (if s.titled > 0 {
        seq![text::decimal(s.titled as nat) + " title(s)"@]
    } else {
        Seq::empty()
    }) + (if s.noted > 0 {
        seq![text::decimal(s.noted as nat) + " note(s)"@]
    } else {
        Seq::empty()
    }) + (if s.hidden_changed > 0 {
        seq![text::decimal(s.hidden_changed as nat) + " visibility change(s)"@]
    } else {
        Seq::empty()
    }) + (if s.moved > 0 {
        seq![text::decimal(s.moved as nat) + " file(s) regrouped"@]
    } else {
        Seq::empty()
    }) + (if s.reordered {
        seq!["checkpoints reordered"@]
    } else {
        Seq::empty()
    })
}

/// What an edit changed, in one line.
pub fn describe(summary: &EditSummary) -> (r: String)
    ensures
        r@ == (if *summary == nothing_changed() {
            "No changes."@
        } else {
            "Updated trail metadata: "@ + text::join(described_parts(*summary), ", "@)
        }),
{
    if summary.is_empty() {
        return "No changes.".to_owned();
    }
    let mut parts: Vec<String> = Vec::new();
    if summary.titled > 0 {
        parts.push(text::cat2(&text::decimal_of(summary.titled as u64), " title(s)"));
    }
    if summary.noted > 0 {
        parts.push(text::cat2(&text::decimal_of(summary.noted as u64), " note(s)"));
    }
    if summary.hidden_changed > 0 {
        parts.push(
            text::cat2(&text::decimal_of(summary.hidden_changed as u64), " visibility change(s)"),
        );
    }
    if summary.moved > 0 {
        parts.push(text::cat2(&text::decimal_of(summary.moved as u64), " file(s) regrouped"));
    }
    if summary.reordered {
        parts.push("checkpoints reordered".to_owned());
    }
    assert(parts.deep_view() =~= described_parts(*summary));
    text::cat2("Updated trail metadata: ", &text::join_of(&parts, ", "))
}

} // verus!
