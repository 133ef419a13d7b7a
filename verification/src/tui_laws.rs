//! What the keys of the browser do.

use crate::review::ReviewSectionView;
use crate::review::select::DiffTargetView;
use crate::tui::{pressed, rows_of, AppView, Key, Level, Node, OpenTargetView};
use vstd::prelude::*;

verus! {

// ---------------------------------------------------------------------------
// The tree
/// How many checkpoints a section has.
pub open spec fn step_count(s: ReviewSectionView) -> nat {
    match s {
        ReviewSectionView::Commit(c) => c.checkpoints.len(),
        ReviewSectionView::WorkingTree(w) => w.checkpoints.len(),
    }
}

/// A row stands above another one: its section comes first, or it is the section
/// of the other, or a checkpoint before it in the same section.
pub open spec fn is_above(a: Node, b: Node) -> bool {
    match (a, b) {
        (Node::Section(i), Node::Section(k)) => i < k,
        (Node::Section(i), Node::Checkpoint(k, _)) => i <= k,
        (Node::Checkpoint(i, _), Node::Section(k)) => i < k,
        (Node::Checkpoint(i, j), Node::Checkpoint(k, m)) => i < k || (i == k && j < m),
    }
}

/// A node is a row among the first `n` sections: every section is, and so are
/// the checkpoints of a section that is expanded.
pub open spec fn is_row(
    sections: Seq<ReviewSectionView>,
    expanded: Seq<bool>,
    n: int,
    node: Node,
) -> bool {
    match node {
        Node::Section(i) => i < n,
        Node::Checkpoint(i, j) => i < n && expanded[i as int] && j < step_count(
            sections[i as int],
        ),
    }
}

proof fn lemma_rows(sections: Seq<ReviewSectionView>, expanded: Seq<bool>, n: nat)
    requires
        n <= sections.len(),
        sections.len() == expanded.len(),
        sections.len() <= usize::MAX,
        forall|i: int|
            0 <= i < sections.len() ==> step_count(#[trigger] sections[i]) <= usize::MAX,
    ensures
        forall|node: Node|
            #[trigger] rows_of(sections, expanded, n).contains(node) <==> is_row(
                sections,
                expanded,
                n as int,
                node,
            ),
        forall|a: int, b: int|
            0 <= a < b < rows_of(sections, expanded, n).len() ==> is_above(
                #[trigger] rows_of(sections, expanded, n)[a],
                #[trigger] rows_of(sections, expanded, n)[b],
            ),
    decreases n,
{
    if n > 0 {
        let m = (n - 1) as nat;
        let i = m as usize;
        lemma_rows(sections, expanded, m);
        let before = rows_of(sections, expanded, m);
        let all = rows_of(sections, expanded, n);
        let s = sections[m as int];
        let head = before.push(Node::Section(i));
        let more = if expanded[m as int] {
            Seq::new(s.steps().len(), |j: int| Node::Checkpoint(i, j as usize))
        } else {
            Seq::empty()
        };
        assert(all == head + more);
        assert(s.steps().len() == step_count(s));
        assert forall|node: Node| #[trigger] all.contains(node) <==> is_row(
            sections,
            expanded,
            n as int,
            node,
        ) by {
            if all.contains(node) {
                let k = choose|k: int| 0 <= k < all.len() && all[k] == node;
                if k < before.len() {
                    assert(before[k] == node);
                    assert(before.contains(node));
                } else if k > before.len() {
                    assert(all[k] == more[k - head.len()]);
                }
            }
            if is_row(sections, expanded, n as int, node) {
                if is_row(sections, expanded, m as int, node) {
                    assert(before.contains(node));
                    let k = choose|k: int| 0 <= k < before.len() && before[k] == node;
                    assert(all[k] == node);
                } else {
                    match node {
                        Node::Section(x) => {
                            assert(x == i);
                            assert(all[before.len() as int] == node);
                        },
                        Node::Checkpoint(x, j) => {
                            assert(x == i);
                            assert(more[j as int] == node);
                            assert(all[head.len() + j] == node);
                        },
                    }
                }
            }
        }
        assert forall|a: int, b: int| 0 <= a < b < all.len() implies is_above(
            #[trigger] all[a],
            #[trigger] all[b],
        ) by {
            if b < before.len() {
                assert(all[a] == before[a] && all[b] == before[b]);
            } else if a < before.len() {
                assert(all[a] == before[a]);
                assert(before.contains(before[a]));
                if b > before.len() {
                    assert(all[b] == more[b - head.len()]);
                }
            } else if a == before.len() {
                assert(all[b] == more[b - head.len()]);
            } else {
                assert(all[a] == more[a - head.len()]);
                assert(all[b] == more[b - head.len()]);
            }
        }
    }
}

/// A browser that can count its rows.
pub open spec fn is_sized(a: AppView) -> bool {
    &&& a.expanded.len() == a.review.sections.len()
    &&& a.review.sections.len() <= usize::MAX
    &&& forall|i: int|
        0 <= i < a.review.sections.len() ==> step_count(#[trigger] a.review.sections[i])
            <= usize::MAX
}

/// The tree shows every section, and below each that is expanded all its
/// checkpoints, in order; each once.
pub proof fn lemma_what_the_tree_shows(a: AppView)
    requires
        is_sized(a),
    ensures
        forall|node: Node|
            #[trigger] a.tree().contains(node) <==> is_row(
                a.review.sections,
                a.expanded,
                a.review.sections.len() as int,
                node,
            ),
        forall|x: int, y: int|
            0 <= x < y < a.tree().len() ==> is_above(
                #[trigger] a.tree()[x],
                #[trigger] a.tree()[y],
            ),
{
    lemma_rows(a.review.sections, a.expanded, a.review.sections.len());
}

// ---------------------------------------------------------------------------
// Keys
/// The row under the cursor.
pub open spec fn is_at(a: AppView, node: Node) -> bool {
    a.cursor < a.tree().len() && a.tree()[a.cursor as int] == node
}

/// On the tree the keys up and down move the cursor by one row, and stop at the
/// ends; a new row starts with its first file and no diff. Among files they move
/// the selection in the same way. In a diff they scroll by one line.
pub proof fn lemma_up_and_down(a: AppView)
    ensures
        ({
            let down = pressed(a, Key::Down);
            let up = pressed(a, Key::Up);
            let rows = a.tree().len();
            let files = a.files().len();
            &&& down.1 is Stay
            &&& up.1 is Stay
            &&& down.0.level == a.level
            &&& up.0.level == a.level
            &&& a.level == Level::Development && a.cursor < rows <= usize::MAX ==> {
                &&& down.0.cursor == (if a.cursor + 1 < rows {
                    a.cursor + 1
                } else {
                    a.cursor as int
                })
                &&& up.0.cursor == (if a.cursor > 0 {
                    a.cursor - 1
                } else {
                    0
                })
                &&& down.0.cursor != a.cursor ==> down.0.file == 0 && down.0.diff.len() == 0
                &&& up.0.cursor != a.cursor ==> up.0.file == 0 && up.0.diff.len() == 0
                &&& down.0.expanded == a.expanded
                &&& up.0.expanded == a.expanded
            }
            &&& a.level == Level::Files && a.file < files <= usize::MAX ==> {
                &&& down.0.file == (if a.file + 1 < files {
                    a.file + 1
                } else {
                    a.file as int
                })
                &&& up.0.file == (if a.file > 0 {
                    a.file - 1
                } else {
                    0
                })
                &&& down.0.cursor == a.cursor
                &&& up.0.cursor == a.cursor
            }
            &&& a.level == Level::Diff && a.scroll < a.diff.len() <= usize::MAX ==> {
                &&& down.0.scroll == (if a.scroll + 1 < a.diff.len() {
                    a.scroll + 1
                } else {
                    a.scroll as int
                })
                &&& up.0.scroll == (if a.scroll > 0 {
                    a.scroll - 1
                } else {
                    0
                })
                &&& down.0.diff == a.diff
                &&& up.0.diff == a.diff
            }
        }),
{
    let b = AppView { status: None, ..a };
    assert(b.tree() == a.tree());
    assert(b.files() == a.files());
}

/// On the tree, enter expands a section that is collapsed, and otherwise leads
/// to the files of the row, if there are any.
pub proof fn lemma_enter_leads_in(a: AppView, node: Node)
    requires
        a.level == Level::Development,
        is_at(a, node),
        is_sized(a),
    ensures
        ({
            let (after, effect) = pressed(a, Key::Enter);
            &&& effect is Stay
            &&& after.cursor == a.cursor
            &&& match node {
                Node::Section(i) if !a.expanded[i as int] => {
                    &&& after.level == Level::Development
                    &&& after.expanded[i as int]
                    &&& forall|k: int|
                        0 <= k < a.expanded.len() && k != i ==> #[trigger] after.expanded[k]
                            == a.expanded[k]
                },
                _ => {
                    &&& after.expanded == a.expanded
                    &&& a.files().len() > 0 ==> after.level == Level::Files
                    &&& a.files().len() == 0 ==> after.level == Level::Development
                        && after.status is Some
                },
            }
        }),
{
    let b = AppView { status: None, ..a };
    assert(b.tree() == a.tree());
    assert(b.files() == a.files());
    lemma_what_the_tree_shows(a);
    assert(a.tree().contains(node));
}

/// What the diff key asks for on the tree: the diff of the row, of a commit, of
/// the working tree or of a checkpoint as a whole.
pub proof fn lemma_diff_of_a_row(a: AppView, node: Node)
    requires
        a.level == Level::Development,
        is_at(a, node),
    ensures
        ({
            let (after, effect) = pressed(a, Key::Diff);
            &&& effect is Load
            &&& !effect->Load_0.of_file
            &&& effect->Load_0.target == (match node {
                Node::Section(i) => match a.review.sections[i as int] {
                    ReviewSectionView::Commit(c) => DiffTargetView::Commit { section: c.number },
                    ReviewSectionView::WorkingTree(_) => DiffTargetView::WorkingTree,
                },
                Node::Checkpoint(i, j) => DiffTargetView::Checkpoint {
                    label: a.review.sections[i as int].steps()[j as int].label,
                },
            })
        }),
{
    let b = AppView { status: None, ..a };
    assert(b.tree() == a.tree());
}

/// What enter and the diff key ask for among files, and what is opened there:
/// the selected file of the row.
pub proof fn lemma_diff_of_a_file(a: AppView, node: Node, key: Key)
    requires
        a.level == Level::Files,
        is_at(a, node),
        a.file < a.files().len(),
        key == Key::Enter || key == Key::Diff,
    ensures
        ({
            let effect = pressed(a, key).1;
            let opened = pressed(a, Key::Open).1;
            let p = a.files()[a.file as int].path;
            &&& effect is Load
            &&& effect->Load_0.of_file
            &&& effect->Load_0.title == p
            &&& opened is Open
            &&& match node {
                Node::Section(i) => match a.review.sections[i as int] {
                    ReviewSectionView::Commit(c) => effect->Load_0.target
                        == (DiffTargetView::CommitFile { section: c.number, path: p })
                        && opened->Open_0 == (OpenTargetView::CommitFile {
                        section: c.number,
                        path: p,
                    }),
                    ReviewSectionView::WorkingTree(_) => effect->Load_0.target
                        == (DiffTargetView::WorkingTreeFile { path: p }) && opened->Open_0
                        == (OpenTargetView::WorktreeFile { path: p }),
                },
                Node::Checkpoint(i, j) => {
                    let cp = a.review.sections[i as int].steps()[j as int];
                    effect->Load_0.target == (DiffTargetView::CheckpointFile {
                        label: cp.label,
                        path: p,
                    }) && opened->Open_0 == (OpenTargetView::Snapshot {
                        checkpoint_id: cp.id,
                        path: p,
                    })
                },
            }
        }),
{
    let b = AppView { status: None, ..a };
    assert(b.tree() == a.tree());
    assert(b.files() == a.files());
}

/// Everywhere the commit key asks for the diff of the commit whose section the
/// row is in; in the section of the working tree there is none.
pub proof fn lemma_diff_of_the_commit(a: AppView, node: Node)
    requires
        is_at(a, node),
    ensures
        ({
            let (after, effect) = pressed(a, Key::CommitDiff);
            let i = match node {
                Node::Section(i) => i,
                Node::Checkpoint(i, _) => i,
            };
            match a.review.sections[i as int] {
                ReviewSectionView::Commit(c) => effect is Load && !effect->Load_0.of_file
                    && effect->Load_0.target == (DiffTargetView::Commit { section: c.number }),
                ReviewSectionView::WorkingTree(_) => effect is Stay && after.status is Some,
            }
        }),
{
    let b = AppView { status: None, ..a };
    assert(b.tree() == a.tree());
}

} // verus!
