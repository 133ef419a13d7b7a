//! Human edits layered over the immutable raw log.
//!
//! The raw session files record what happened. This file records what people
//! later said about it: titles, notes, which checkpoints are hidden, which
//! changes were regrouped and in which order checkpoints should be read.
//! Applying the overlay never touches the raw log, and deleting the overlay
//! restores the recorder's view.

use super::checkpoint::{BULK_THRESHOLD, Checkpoint, CheckpointView, FileChange, FileChangeView};
use crate::data::{Dup, Same};
use crate::error::{TrailError, TrailErrorView};
use crate::map::TextMap;
use crate::order::{self, sorted, Order};
use crate::path;
use crate::text;
use crate::time::earlier;
use vstd::multiset::Multiset;
use vstd::prelude::*;

verus! {

pub const METADATA_VERSION: u32 = 1;

#[derive(Debug, Clone, PartialEq, Eq)]
pub struct CheckpointMeta {
    pub title: Option<String>,
    pub hidden: bool,
    pub annotation: Option<String>,
}

/// A change regrouped by a human: `(from, path)` identifies it in the raw
/// log, `to` is the checkpoint it should be shown in.
#[derive(Debug, Clone, PartialEq, Eq)]
pub struct Move {
    pub from: String,
    pub path: String,
    pub to: String,
}

#[derive(Debug, Clone, PartialEq, Eq)]
pub struct Metadata {
    pub version: u32,
    pub checkpoints: TextMap<CheckpointMeta>,
    pub moves: Vec<Move>,
    /// Reading order of checkpoints. Ids not listed keep their chronological
    /// position; listed ids are permuted among the slots they occupy.
    pub order: Vec<String>,
}

/// What a [`CheckpointMeta`] denotes.
#[verifier::ext_equal]
pub struct CheckpointMetaView {
    pub title: Option<Seq<char>>,
    pub hidden: bool,
    pub annotation: Option<Seq<char>>,
}

impl DeepView for CheckpointMeta {
    type V = CheckpointMetaView;

    open spec fn deep_view(&self) -> CheckpointMetaView {
        CheckpointMetaView {
            title: self.title.deep_view(),
            hidden: self.hidden.deep_view(),
            annotation: self.annotation.deep_view(),
        }
    }
}

impl Dup for CheckpointMeta {
    fn dup(&self) -> (r: CheckpointMeta) {
        CheckpointMeta {
            title: self.title.dup(),
            hidden: self.hidden.dup(),
            annotation: self.annotation.dup(),
        }
    }
}

impl Same for CheckpointMeta {
    fn same(&self, other: &CheckpointMeta) -> (r: bool) {
        self.title.same(&other.title) && self.hidden.same(&other.hidden) && self.annotation.same(&other.annotation)
    }
}

/// What a [`Move`] denotes.
#[verifier::ext_equal]
pub struct MoveView {
    pub from: Seq<char>,
    pub path: Seq<char>,
    pub to: Seq<char>,
}

impl DeepView for Move {
    type V = MoveView;

    open spec fn deep_view(&self) -> MoveView {
        MoveView {
            from: self.from.deep_view(),
            path: self.path.deep_view(),
            to: self.to.deep_view(),
        }
    }
}

impl Dup for Move {
    fn dup(&self) -> (r: Move) {
        Move {
            from: self.from.dup(),
            path: self.path.dup(),
            to: self.to.dup(),
        }
    }
}

/// What a [`Metadata`] denotes.
#[verifier::ext_equal]
pub struct MetadataView {
    pub version: u32,
    pub checkpoints: Map<Seq<char>, CheckpointMetaView>,
    pub moves: Seq<MoveView>,
    pub order: Seq<Seq<char>>,
}

impl DeepView for Metadata {
    type V = MetadataView;

    open spec fn deep_view(&self) -> MetadataView {
        MetadataView {
            version: self.version.deep_view(),
            checkpoints: self.checkpoints.deep_view(),
            moves: self.moves.deep_view(),
            order: self.order.deep_view(),
        }
    }
}

impl Dup for Metadata {
    fn dup(&self) -> (r: Metadata) {
        Metadata {
            version: self.version.dup(),
            checkpoints: self.checkpoints.dup(),
            moves: self.moves.dup(),
            order: self.order.dup(),
        }
    }
}

/// Nothing said about a checkpoint.
pub open spec fn no_meta() -> CheckpointMetaView {
    CheckpointMetaView { title: None, hidden: false, annotation: None }
}

impl Default for CheckpointMeta {
    fn default() -> (r: CheckpointMeta)
        ensures
            r.deep_view() == no_meta(),
    {
        CheckpointMeta { title: None, hidden: false, annotation: None }
    }
}

/// The overlay that changes nothing.
pub open spec fn no_metadata() -> MetadataView {
    MetadataView {
        version: METADATA_VERSION,
        checkpoints: Map::empty(),
        moves: Seq::empty(),
        order: Seq::empty(),
    }
}

impl Default for Metadata {
    fn default() -> (r: Metadata)
        ensures
            r.deep_view() == no_metadata(),
    {
        let r = Metadata {
            version: METADATA_VERSION,
            checkpoints: TextMap::new(),
            moves: Vec::new(),
            order: Vec::new(),
        };
        assert(r.deep_view() =~= no_metadata());
        r
    }
}

// ---------------------------------------------------------------------------
// What the overlay does
/// A checkpoint with what was said about it.
pub open spec fn described(m: MetadataView, cp: CheckpointView) -> CheckpointView {
    if m.checkpoints.dom().contains(cp.id) {
        CheckpointView {
            title: m.checkpoints[cp.id].title,
            hidden: m.checkpoints[cp.id].hidden,
            annotation: m.checkpoints[cp.id].annotation,
            ..cp
        }
    } else {
        cp
    }
}

/// Where a change is to be shown: the target of the first move that names it.
pub open spec fn move_target(moves: Seq<MoveView>, c: FileChangeView) -> Option<Seq<char>>
    decreases moves.len(),
{
    if moves.len() == 0 {
        None
    } else if moves[0].from == c.origin && path::same_path(moves[0].path, c.path) {
        Some(moves[0].to)
    } else {
        move_target(moves.drop_first(), c)
    }
}

/// The changes that stay where they are.
pub open spec fn staying(moves: Seq<MoveView>, changes: Seq<FileChangeView>) -> Seq<FileChangeView>
    decreases changes.len(),
{
    if changes.len() == 0 {
        Seq::empty()
    } else if move_target(moves, changes.last()) is None {
        staying(moves, changes.drop_last()).push(changes.last())
    } else {
        staying(moves, changes.drop_last())
    }
}

/// The changes to be shown elsewhere, each behind its target.
pub open spec fn leaving(moves: Seq<MoveView>, changes: Seq<FileChangeView>) -> Seq<
    (Seq<char>, FileChangeView),
>
    decreases changes.len(),
{
    if changes.len() == 0 {
        Seq::empty()
    } else {
        match move_target(moves, changes.last()) {
            Some(to) => leaving(moves, changes.drop_last()).push((to, changes.last())),
            None => leaving(moves, changes.drop_last()),
        }
    }
}

pub open spec fn leaving_all(moves: Seq<MoveView>, cps: Seq<CheckpointView>) -> Seq<
    (Seq<char>, FileChangeView),
>
    decreases cps.len(),
{
    if cps.len() == 0 {
        Seq::empty()
    } else {
        leaving_all(moves, cps.drop_last()) + leaving(moves, cps.last().changes)
    }
}

/// The position of the first checkpoint with an id; their number when there is none.
pub open spec fn id_index(cps: Seq<CheckpointView>, id: Seq<char>) -> int
    decreases cps.len(),
{
    if cps.len() == 0 || cps[0].id == id {
        0
    } else {
        1 + id_index(cps.drop_first(), id)
    }
}

pub open spec fn with_change(cp: CheckpointView, change: FileChangeView) -> CheckpointView {
    CheckpointView { changes: cp.changes.push(change), ..cp }
}

/// A moved change put into its target, or back into its origin when there is
/// no such checkpoint.
pub open spec fn placed(
    cps: Seq<CheckpointView>,
    to: Seq<char>,
    change: FileChangeView,
) -> Seq<CheckpointView> {
    let k = id_index(cps, to);
    let home = id_index(cps, change.origin);
    if 0 <= k < cps.len() {
        cps.update(k, with_change(cps[k], change))
    } else if 0 <= home < cps.len() {
        cps.update(home, with_change(cps[home], change))
    } else {
        cps
    }
}

pub open spec fn placed_all(
    cps: Seq<CheckpointView>,
    moved: Seq<(Seq<char>, FileChangeView)>,
) -> Seq<CheckpointView>
    decreases moved.len(),
{
    if moved.len() == 0 {
        cps
    } else {
        placed(placed_all(cps, moved.drop_last()), moved.last().0, moved.last().1)
    }
}

/// Changes in the order in which they were first seen, then by path.
pub struct BySeen;

impl Order<FileChange> for BySeen {
    open spec fn lt(a: FileChangeView, b: FileChangeView) -> bool {
        earlier(a.first_seen, b.first_seen) || (a.first_seen == b.first_seen && path::less(
            a.path,
            b.path,
        ))
    }

    proof fn lemma_order(a: FileChangeView, b: FileChangeView, c: FileChangeView) {
        path::lemma_less(a.path, b.path, c.path);
    }

    fn before(a: &FileChange, b: &FileChange) -> (r: bool) {
        a.first_seen.before(&b.first_seen) || (a.first_seen.same(&b.first_seen) && path::before(
            &a.path,
            &b.path,
        ))
    }
}

/// A checkpoint once its changes are regrouped.
pub open spec fn regrouped(cp: CheckpointView) -> CheckpointView {
    CheckpointView {
        changes: sorted::<FileChange, BySeen>(cp.changes),
        bulk: cp.changes.len() > BULK_THRESHOLD,
        ..cp
    }
}

pub open spec fn stripped(moves: Seq<MoveView>, cp: CheckpointView) -> CheckpointView {
    CheckpointView { changes: staying(moves, cp.changes), ..cp }
}

/// Checkpoints that hold a change.
pub open spec fn non_empty(cps: Seq<CheckpointView>) -> Seq<CheckpointView>
    decreases cps.len(),
{
    if cps.len() == 0 {
        Seq::empty()
    } else if cps.last().changes.len() > 0 {
        non_empty(cps.drop_last()).push(cps.last())
    } else {
        non_empty(cps.drop_last())
    }
}

/// Checkpoints as people want to see them.
pub open spec fn applied(m: MetadataView, cps: Seq<CheckpointView>) -> Seq<CheckpointView> {
    let said = cps.map_values(|cp: CheckpointView| described(m, cp));
    if m.moves.len() == 0 {
        said
    } else {
        let kept = said.map_values(|cp: CheckpointView| stripped(m.moves, cp));
        let shown = placed_all(kept, leaving_all(m.moves, said));
        non_empty(shown.map_values(|cp: CheckpointView| regrouped(cp)))
    }
}

// ---------------------------------------------------------------------------
// What the overlay cannot do
/// All changes of some checkpoints, each as often as it is there.
pub open spec fn all_changes(cps: Seq<CheckpointView>) -> Multiset<FileChangeView>
    decreases cps.len(),
{
    if cps.len() == 0 {
        Multiset::empty()
    } else {
        all_changes(cps.drop_last()).add(cps.last().changes.to_multiset())
    }
}

/// The changes behind their targets.
pub open spec fn movers(moved: Seq<(Seq<char>, FileChangeView)>) -> Multiset<FileChangeView>
    decreases moved.len(),
{
    if moved.len() == 0 {
        Multiset::empty()
    } else {
        movers(moved.drop_last()).insert(moved.last().1)
    }
}

/// Every change originates in one of the checkpoints.
pub open spec fn origins_known(cps: Seq<CheckpointView>) -> bool {
    forall|i: int, j: int|
        0 <= i < cps.len() && 0 <= j < cps[i].changes.len() ==> has_id(
            cps,
            (#[trigger] cps[i].changes[j]).origin,
        )
}

pub open spec fn has_id(cps: Seq<CheckpointView>, id: Seq<char>) -> bool {
    exists|i: int| 0 <= i < cps.len() && (#[trigger] cps[i]).id == id
}

proof fn lemma_id_index(cps: Seq<CheckpointView>, id: Seq<char>)
    ensures
        0 <= id_index(cps, id) <= cps.len(),
        id_index(cps, id) < cps.len() ==> cps[id_index(cps, id)].id == id,
        has_id(cps, id) ==> id_index(cps, id) < cps.len(),
    decreases cps.len(),
{
    if cps.len() > 0 && cps[0].id != id {
        let rest = cps.drop_first();
        lemma_id_index(rest, id);
        if has_id(cps, id) {
            let i = choose|i: int| 0 <= i < cps.len() && (#[trigger] cps[i]).id == id;
            assert(rest[i - 1].id == id);
        }
    }
}

proof fn lemma_movers_concat(
    a: Seq<(Seq<char>, FileChangeView)>,
    b: Seq<(Seq<char>, FileChangeView)>,
)
    ensures
        movers(a + b) =~= movers(a).add(movers(b)),
    decreases b.len(),
{
    if b.len() == 0 {
        assert(a + b =~= a);
    } else {
        lemma_movers_concat(a, b.drop_last());
        assert((a + b).drop_last() =~= a + b.drop_last());
    }
}

proof fn lemma_parted(moves: Seq<MoveView>, changes: Seq<FileChangeView>)
    ensures
        staying(moves, changes).to_multiset().add(movers(leaving(moves, changes)))
            =~= changes.to_multiset(),
        forall|i: int|
            0 <= i < leaving(moves, changes).len() ==> changes.contains(
                (#[trigger] leaving(moves, changes)[i]).1,
            ),
    decreases changes.len(),
{
    broadcast use vstd::seq_lib::group_to_multiset_ensures;

    if changes.len() > 0 {
        let rest = changes.drop_last();
        lemma_parted(moves, rest);
        assert(changes =~= rest.push(changes.last()));
        match move_target(moves, changes.last()) {
            Some(to) => {
                assert(leaving(moves, changes).drop_last() =~= leaving(moves, rest));
            },
            None => {},
        }
        assert forall|i: int| 0 <= i < leaving(moves, changes).len() implies changes.contains(
            (#[trigger] leaving(moves, changes)[i]).1,
        ) by {
            if i < leaving(moves, rest).len() {
                let c = leaving(moves, rest)[i].1;
                assert(leaving(moves, changes)[i].1 == c);
                assert(rest.contains(c));
                let q = choose|q: int| 0 <= q < rest.len() && rest[q] == c;
                assert(changes[q] == c);
            } else {
                assert(changes[changes.len() - 1] == leaving(moves, changes)[i].1);
            }
        }
    }
}

proof fn lemma_parted_all(moves: Seq<MoveView>, cps: Seq<CheckpointView>)
    ensures
        all_changes(cps.map_values(|cp: CheckpointView| stripped(moves, cp))).add(
            movers(leaving_all(moves, cps)),
        ) =~= all_changes(cps),
        forall|i: int|
            0 <= i < leaving_all(moves, cps).len() ==> exists|a: int|
                0 <= a < cps.len() && (#[trigger] cps[a]).changes.contains(
                    (#[trigger] leaving_all(moves, cps)[i]).1,
                ),
    decreases cps.len(),
{
    let strip = |cp: CheckpointView| stripped(moves, cp);
    if cps.len() > 0 {
        let rest = cps.drop_last();
        lemma_parted_all(moves, rest);
        lemma_parted(moves, cps.last().changes);
        lemma_movers_concat(leaving_all(moves, rest), leaving(moves, cps.last().changes));
        assert(cps.map_values(strip).drop_last() =~= rest.map_values(strip));
        assert forall|i: int| 0 <= i < leaving_all(moves, cps).len() implies exists|a: int|
            0 <= a < cps.len() && (#[trigger] cps[a]).changes.contains(
                (#[trigger] leaving_all(moves, cps)[i]).1,
            ) by {
            let n = leaving_all(moves, rest).len();
            if i < n {
                assert(leaving_all(moves, cps)[i] == leaving_all(moves, rest)[i]);
                let a = choose|a: int|
                    0 <= a < rest.len() && (#[trigger] rest[a]).changes.contains(
                        leaving_all(moves, rest)[i].1,
                    );
                assert(cps[a] == rest[a]);
            } else {
                assert(leaving_all(moves, cps)[i] == leaving(moves, cps.last().changes)[i - n]);
                assert(cps[cps.len() - 1].changes.contains(leaving_all(moves, cps)[i].1));
            }
        }
    } else {
        assert(cps.map_values(strip) =~= Seq::empty());
    }
}

proof fn lemma_with_change(cps: Seq<CheckpointView>, k: int, change: FileChangeView)
    requires
        0 <= k < cps.len(),
    ensures
        all_changes(cps.update(k, with_change(cps[k], change))) =~= all_changes(cps).insert(change),
    decreases cps.len(),
{
    broadcast use vstd::seq_lib::group_to_multiset_ensures;

    let after = cps.update(k, with_change(cps[k], change));
    if k == cps.len() - 1 {
        assert(after.drop_last() =~= cps.drop_last());
    } else {
        lemma_with_change(cps.drop_last(), k, change);
        assert(after.drop_last() =~= cps.drop_last().update(k, with_change(cps[k], change)));
    }
}

proof fn lemma_placed_all(
    cps: Seq<CheckpointView>,
    moved: Seq<(Seq<char>, FileChangeView)>,
)
    requires
        forall|i: int| 0 <= i < moved.len() ==> has_id(cps, (#[trigger] moved[i]).1.origin),
    ensures
        all_changes(placed_all(cps, moved)) =~= all_changes(cps).add(movers(moved)),
        placed_all(cps, moved).len() == cps.len(),
        forall|i: int| 0 <= i < cps.len() ==> (#[trigger] placed_all(cps, moved)[i]).id == cps[i].id,
    decreases moved.len(),
{
    if moved.len() > 0 {
        let rest = moved.drop_last();
        assert forall|i: int| 0 <= i < rest.len() implies has_id(
            cps,
            (#[trigger] rest[i]).1.origin,
        ) by {
            assert(rest[i] == moved[i]);
        }
        lemma_placed_all(cps, rest);
        let now = placed_all(cps, rest);
        let (to, change) = moved.last();
        assert(moved[moved.len() - 1].1 == change);
        assert(has_id(now, change.origin)) by {
            let i = choose|i: int| 0 <= i < cps.len() && (#[trigger] cps[i]).id == change.origin;
            assert(now[i].id == change.origin);
        }
        lemma_id_index(now, to);
        lemma_id_index(now, change.origin);
        let k = if id_index(now, to) < now.len() {
            id_index(now, to)
        } else {
            id_index(now, change.origin)
        };
        lemma_with_change(now, k, change);
    }
}

proof fn lemma_regrouped(cps: Seq<CheckpointView>)
    ensures
        all_changes(cps.map_values(|cp: CheckpointView| regrouped(cp))) =~= all_changes(cps),
    decreases cps.len(),
{
    let f = |cp: CheckpointView| regrouped(cp);
    if cps.len() > 0 {
        lemma_regrouped(cps.drop_last());
        assert(cps.map_values(f).drop_last() =~= cps.drop_last().map_values(f));
        order::lemma_sorted::<FileChange, BySeen>(cps.last().changes);
    } else {
        assert(cps.map_values(f) =~= cps);
    }
}

proof fn lemma_non_empty(cps: Seq<CheckpointView>)
    ensures
        all_changes(non_empty(cps)) =~= all_changes(cps),
        forall|i: int| 0 <= i < non_empty(cps).len() ==> (#[trigger] non_empty(cps)[i]).changes.len() > 0,
    decreases cps.len(),
{
    if cps.len() > 0 {
        lemma_non_empty(cps.drop_last());
        if cps.last().changes.len() > 0 {
            assert(non_empty(cps).drop_last() =~= non_empty(cps.drop_last()));
        } else {
            assert(cps.last().changes =~= Seq::empty());
            assert(cps.last().changes.to_multiset() =~= Multiset::empty()) by {
                cps.last().changes.to_multiset_ensures();
            }
        }
    }
}

proof fn lemma_described(m: MetadataView, cps: Seq<CheckpointView>)
    ensures
        all_changes(cps.map_values(|cp: CheckpointView| described(m, cp))) =~= all_changes(cps),
    decreases cps.len(),
{
    let f = |cp: CheckpointView| described(m, cp);
    if cps.len() > 0 {
        lemma_described(m, cps.drop_last());
        assert(cps.map_values(f).drop_last() =~= cps.drop_last().map_values(f));
    } else {
        assert(cps.map_values(f) =~= cps);
    }
}

/// The overlay neither loses nor makes up a change: whatever was said, titled,
/// hidden or moved, every recorded change is shown exactly as often as it was
/// recorded.
pub proof fn lemma_overlay_keeps_changes(m: MetadataView, cps: Seq<CheckpointView>)
    requires
        origins_known(cps),
    ensures
        all_changes(applied(m, cps)) == all_changes(cps),
{
    let said = cps.map_values(|cp: CheckpointView| described(m, cp));
    lemma_described(m, cps);
    if m.moves.len() > 0 {
        let kept = said.map_values(|cp: CheckpointView| stripped(m.moves, cp));
        let moved = leaving_all(m.moves, said);
        lemma_parted_all(m.moves, said);
        assert forall|i: int| 0 <= i < moved.len() implies has_id(
            kept,
            (#[trigger] moved[i]).1.origin,
        ) by {
            let a = choose|a: int|
                0 <= a < said.len() && (#[trigger] said[a]).changes.contains(moved[i].1);
            let j = choose|j: int|
                0 <= j < said[a].changes.len() && said[a].changes[j] == moved[i].1;
            assert(said[a].changes == cps[a].changes);
            assert(has_id(cps, cps[a].changes[j].origin));
            let b = choose|b: int|
                0 <= b < cps.len() && (#[trigger] cps[b]).id == moved[i].1.origin;
            assert(kept[b].id == moved[i].1.origin);
        }
        lemma_placed_all(kept, moved);
        let shown = placed_all(kept, moved);
        lemma_regrouped(shown);
        lemma_non_empty(shown.map_values(|cp: CheckpointView| regrouped(cp)));
    }
}

/// Without an overlay the recorder's view is what is shown.
pub proof fn lemma_no_overlay(cps: Seq<CheckpointView>)
    ensures
        applied(no_metadata(), cps) == cps,
{
    assert(applied(no_metadata(), cps) =~= cps);
}

/// With changes regrouped, no checkpoint is shown without a change.
pub proof fn lemma_overlay_hides_emptied(m: MetadataView, cps: Seq<CheckpointView>)
    requires
        m.moves.len() > 0,
    ensures
        forall|i: int|
            0 <= i < applied(m, cps).len() ==> (#[trigger] applied(m, cps)[i]).changes.len() > 0,
{
    let said = cps.map_values(|cp: CheckpointView| described(m, cp));
    let kept = said.map_values(|cp: CheckpointView| stripped(m.moves, cp));
    let shown = placed_all(kept, leaving_all(m.moves, said));
    lemma_non_empty(shown.map_values(|cp: CheckpointView| regrouped(cp)));
}

pub open spec fn metadata_path_of(common_dir: Seq<char>) -> Seq<char> {
    path::joined(
        path::joined(path::joined(common_dir, "trail"@), "metadata"@),
        "checkpoints.json"@,
    )
}

/// Where the overlay is kept.
pub fn metadata_path(common_dir: &str) -> (r: String)
    ensures
        r@ == metadata_path_of(common_dir@),
{
    path::join(&path::join(&path::join(common_dir, "trail"), "metadata"), "checkpoints.json")
}

/// The file the overlay is written to before it takes the place of the old one.
pub fn metadata_scratch(common_dir: &str, pid: u32) -> (r: String)
    ensures
        r@ == path::joined(
            path::joined(path::joined(common_dir@, "trail"@), "metadata"@),
            ".checkpoints.json."@ + text::decimal(pid as nat) + ".tmp"@,
        ),
{
    path::join(
        &path::join(&path::join(common_dir, "trail"), "metadata"),
        &text::cat3(".checkpoints.json.", &text::decimal_of(pid as u64), ".tmp"),
    )
}

/// What an overlay that cannot be parsed is reported as.
pub fn invalid_metadata(common_dir: &str, reason: &str) -> (r: TrailError)
    ensures
        r.deep_view() == TrailErrorView::Git(
            "trail metadata at "@ + metadata_path_of(common_dir@) + " is not valid JSON: "@
                + reason@
                + "\n  hint: fix or remove the file; the raw session logs are untouched"@,
        ),
{
    TrailError::Git(
        text::cat5(
            "trail metadata at ",
            &metadata_path(common_dir),
            " is not valid JSON: ",
            reason,
            "\n  hint: fix or remove the file; the raw session logs are untouched",
        ),
    )
}

/// The target of the first move that names a change.
fn target_of<'a>(moves: &'a Vec<Move>, c: &FileChange) -> (r: Option<&'a String>)
    ensures
        r.deep_view() == move_target(moves.deep_view(), c.deep_view()),
{
    let ghost all = moves.deep_view();
    let mut k: usize = 0;
    assert(all.skip(0) =~= all);
    while k < moves.len()
        invariant
            k <= moves.len(),
            all == moves.deep_view(),
            move_target(all, c.deep_view()) == move_target(all.skip(k as int), c.deep_view()),
        decreases moves.len() - k,
    {
        assert(all.skip(k as int)[0] == moves[k as int].deep_view());
        if moves[k].from == c.origin && path::same(&moves[k].path, &c.path) {
            return Some(&moves[k].to);
        }
        assert(all.skip(k as int).drop_first() =~= all.skip(k + 1));
        k += 1;
    }
    None
}

fn position(cps: &Vec<Checkpoint>, id: &str) -> (r: usize)
    ensures
        r == id_index(cps.deep_view(), id@),
        r <= cps.len(),
{
    let ghost all = cps.deep_view();
    let mut k: usize = 0;
    assert(all.skip(0) =~= all);
    while k < cps.len()
        invariant
            k <= cps.len(),
            all == cps.deep_view(),
            id_index(all, id@) == k + id_index(all.skip(k as int), id@),
        decreases cps.len() - k,
    {
        assert(all.skip(k as int)[0] == cps[k as int].deep_view());
        if text::same(&cps[k].id, id) {
            return k;
        }
        assert(all.skip(k as int).drop_first() =~= all.skip(k + 1));
        k += 1;
    }
    k
}

fn add_change(cps: &mut Vec<Checkpoint>, k: usize, change: FileChange)
    requires
        k < old(cps).len(),
    ensures
        final(cps).deep_view() == old(cps).deep_view().update(
            k as int,
            with_change(old(cps).deep_view()[k as int], change.deep_view()),
        ),
{
    let ghost was = cps.deep_view();
    let ghost before = cps[k as int].deep_view();
    let ghost added = change.deep_view();
    cps[k].changes.push(change);
    assert(cps[k as int].deep_view() =~= with_change(before, added)) by {
        assert(cps[k as int].changes.deep_view() =~= before.changes.push(added));
    }
    assert(cps.deep_view() =~= was.update(k as int, with_change(before, added)));
}

impl Metadata {
    pub fn is_empty(&self) -> (r: bool)
        ensures
            r == (self.deep_view().checkpoints == Map::<
                Seq<char>,
                CheckpointMetaView,
            >::empty() && self.deep_view().moves.len() == 0 && self.deep_view().order.len() == 0),
    {
        self.checkpoints.is_empty() && self.moves.len() == 0 && self.order.len() == 0
    }

    /// Apply titles, hidden flags, annotations and moves. Ordering is applied
    /// by the trail builder because it needs the surrounding timeline.
    pub fn apply(&self, checkpoints: Vec<Checkpoint>) -> (r: Vec<Checkpoint>)
        ensures
            r.deep_view() == applied(self.deep_view(), checkpoints.deep_view()),
    {
        let ghost given = checkpoints.deep_view();
        let ghost m = self.deep_view();
        let mut cps: Vec<Checkpoint> = checkpoints;
        let n: usize = cps.len();
        let mut k: usize = 0;
        while k < n
            invariant
                k <= n,
                n == cps.len(),
                n == given.len(),
                m == self.deep_view(),
                forall|i: int|
                    0 <= i < k ==> #[trigger] cps[i].deep_view() == described(m, given[i]),
                forall|i: int| k <= i < n ==> #[trigger] cps[i].deep_view() == given[i],
            decreases n - k,
        {
            let ghost was = cps[k as int].deep_view();
            assert(was == given[k as int]);
            match self.checkpoints.get(&cps[k].id) {
                Some(meta) => {
                    cps[k].title = meta.title.dup();
                    cps[k].hidden = meta.hidden;
                    cps[k].annotation = meta.annotation.dup();
                },
                None => {},
            }
            assert(cps[k as int].deep_view() =~= described(m, given[k as int]));
            k += 1;
        }
        let ghost said = given.map_values(|cp: CheckpointView| described(m, cp));
        assert(cps.deep_view() =~= said);
        if self.moves.len() == 0 {
            return cps;
        }
        // Pull moved changes out of their origin ...
        let mut moved: Vec<(String, FileChange)> = Vec::new();
        let mut k: usize = 0;
        assert(moved.deep_view() =~= leaving_all(m.moves, said.take(0)));
        while k < n
            invariant
                k <= n,
                n == cps.len(),
                n == said.len(),
                m == self.deep_view(),
                moved.deep_view() == leaving_all(m.moves, said.take(k as int)),
                forall|i: int|
                    0 <= i < k ==> #[trigger] cps[i].deep_view() == stripped(m.moves, said[i]),
                forall|i: int| k <= i < n ==> #[trigger] cps[i].deep_view() == said[i],
            decreases n - k,
        {
            let ghost base = moved.deep_view();
            let ghost here = said[k as int].changes;
            assert(cps[k as int].deep_view() == said[k as int]);
            let mut kept: Vec<FileChange> = Vec::new();
            let mut j: usize = 0;
            assert(kept.deep_view() =~= staying(m.moves, here.take(0)));
            assert(moved.deep_view() =~= base + leaving(m.moves, here.take(0)));
            while j < cps[k].changes.len()
                invariant
                    k < n == cps.len(),
                    j <= here.len(),
                    here == cps[k as int].changes.deep_view(),
                    m == self.deep_view(),
                    kept.deep_view() == staying(m.moves, here.take(j as int)),
                    moved.deep_view() == base + leaving(m.moves, here.take(j as int)),
                decreases here.len() - j,
            {
                let change: &FileChange = &cps[k].changes[j];
                let ghost was_kept = kept.deep_view();
                let ghost was_moved = moved.deep_view();
                proof {
                    assert(here.take(j + 1).drop_last() =~= here.take(j as int));
                    assert(here.take(j + 1).last() == change.deep_view());
                }
                match target_of(&self.moves, change) {
                    Some(to) => {
                        moved.push((to.dup(), change.dup()));
                        assert(moved.deep_view() =~= was_moved.push((to@, change.deep_view())));
                        assert(moved.deep_view() =~= base + leaving(m.moves, here.take(j + 1)));
                    },
                    None => {
                        kept.push(change.dup());
                        assert(kept.deep_view() =~= was_kept.push(change.deep_view()));
                    },
                }
                j += 1;
            }
            assert(here.take(j as int) =~= here);
            cps[k].changes = kept;
            assert(cps[k as int].deep_view() =~= stripped(m.moves, said[k as int]));
            proof {
                assert(said.take(k + 1).drop_last() =~= said.take(k as int));
                assert(said.take(k + 1).last() == said[k as int]);
            }
            k += 1;
        }
        assert(said.take(n as int) =~= said);
        let ghost kept = said.map_values(|cp: CheckpointView| stripped(m.moves, cp));
        assert(cps.deep_view() =~= kept);
        // ... and put them where the human wants them. A target that does
        // not exist (log deleted) leaves the change in its origin.
        let ghost all = moved.deep_view();
        let mut k: usize = 0;
        assert(all.take(0) =~= Seq::empty());
        while k < moved.len()
            invariant
                k <= moved.len(),
                all == moved.deep_view(),
                cps.deep_view() == placed_all(kept, all.take(k as int)),
            decreases moved.len() - k,
        {
            proof {
                assert(all.take(k + 1).drop_last() =~= all.take(k as int));
                assert(all.take(k + 1).last() == all[k as int]);
            }
            let to: &String = &moved[k].0;
            let change: &FileChange = &moved[k].1;
            let at: usize = position(&cps, to);
            if at < cps.len() {
                add_change(&mut cps, at, change.dup());
            } else {
                let home: usize = position(&cps, &change.origin);
                if home < cps.len() {
                    add_change(&mut cps, home, change.dup());
                }
            }
            k += 1;
        }
        assert(all.take(k as int) =~= all);
        let ghost shown = cps.deep_view();
        let ghost done = shown.map_values(|cp: CheckpointView| regrouped(cp));
        let mut out: Vec<Checkpoint> = Vec::new();
        let mut k: usize = 0;
        assert(out.deep_view() =~= non_empty(done.take(0)));
        while k < cps.len()
            invariant
                k <= cps.len(),
                shown == cps.deep_view(),
                done == shown.map_values(|cp: CheckpointView| regrouped(cp)),
                out.deep_view() == non_empty(done.take(k as int)),
            decreases cps.len() - k,
        {
            proof {
                assert(done.take(k + 1).drop_last() =~= done.take(k as int));
                assert(done.take(k + 1).last() == regrouped(shown[k as int]));
                order::lemma_sorted::<FileChange, BySeen>(shown[k as int].changes);
            }
            let mut cp: Checkpoint = cps[k].dup();
            let bulk: bool = cp.changes.len() > BULK_THRESHOLD;
            let changes: Vec<FileChange> = order::sort::<FileChange, BySeen>(cp.changes.dup());
            cp.changes = changes;
            cp.bulk = bulk;
            assert(cp.deep_view() =~= regrouped(shown[k as int]));
            if cp.changes.len() > 0 {
                let ghost was = out.deep_view();
                let ghost added = cp.deep_view();
                out.push(cp);
                assert(out.deep_view() =~= was.push(added));
            }
            k += 1;
        }
        assert(done.take(k as int) =~= done);
        out
    }
}

} // verus!
