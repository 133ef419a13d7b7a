//! What holds of every diff.

use super::{
    CommitFileView, CommitReviewView, ReviewCheckpointView, ReviewFileView, ReviewSectionView,
    WorkingTreeFileView, WorktreeReviewView,
};
use super::diff::{content, diff_text, header_text};
use super::select::{
    checkpoint_file_at, checkpoint_file_text, checkpoint_labelled, checkpoint_text, commit_file_at,
    commit_file_text, commit_text, diff_of, section_at, work_file_at, work_file_text, work_text,
    DiffTargetView, WorkContentsView,
};
use crate::choice::{is_first, lemma_first_here, lemma_first_later};
use crate::error::TrailErrorView;
use crate::path;
use crate::text::{self, lossy_text};
use vstd::prelude::*;

verus! {

// ---------------------------------------------------------------------------
// Finding
/// A section has a number.
pub open spec fn is_number(s: ReviewSectionView, n: usize) -> bool {
    match s {
        ReviewSectionView::Commit(c) => c.number == n,
        ReviewSectionView::WorkingTree(w) => w.number == n,
    }
}

pub(crate) proof fn lemma_section_at(sections: Seq<ReviewSectionView>, n: usize)
    ensures
        is_first(
            sections,
            |s: ReviewSectionView| is_number(s, n),
            section_at(sections, n as int),
        ),
    decreases sections.len(),
{
    let pred = |s: ReviewSectionView| is_number(s, n);
    if sections.len() > 0 {
        if is_number(sections[0], n) {
            lemma_first_here(sections, pred);
        } else {
            lemma_section_at(sections.drop_first(), n);
            lemma_first_later(sections, pred, section_at(sections, n as int));
        }
    }
}

proof fn lemma_labelled(cps: Seq<ReviewCheckpointView>, label: Seq<char>)
    ensures
        is_first(
            cps,
            |c: ReviewCheckpointView| c.label == label,
            checkpoint_labelled(cps, label),
        ),
    decreases cps.len(),
{
    let pred = |c: ReviewCheckpointView| c.label == label;
    if cps.len() > 0 {
        if cps[0].label == label {
            lemma_first_here(cps, pred);
        } else {
            lemma_labelled(cps.drop_first(), label);
            lemma_first_later(cps, pred, checkpoint_labelled(cps, label));
        }
    }
}

pub(crate) proof fn lemma_commit_file_at(files: Seq<CommitFileView>, p: Seq<char>)
    ensures
        is_first(
            files,
            |f: CommitFileView| path::same_path(f.path, p),
            commit_file_at(files, p),
        ),
    decreases files.len(),
{
    let pred = |f: CommitFileView| path::same_path(f.path, p);
    if files.len() > 0 {
        if path::same_path(files[0].path, p) {
            lemma_first_here(files, pred);
        } else {
            lemma_commit_file_at(files.drop_first(), p);
            lemma_first_later(files, pred, commit_file_at(files, p));
        }
    }
}

pub(crate) proof fn lemma_checkpoint_file_at(files: Seq<ReviewFileView>, p: Seq<char>)
    ensures
        is_first(
            files,
            |f: ReviewFileView| path::same_path(f.path, p),
            checkpoint_file_at(files, p),
        ),
    decreases files.len(),
{
    let pred = |f: ReviewFileView| path::same_path(f.path, p);
    if files.len() > 0 {
        if path::same_path(files[0].path, p) {
            lemma_first_here(files, pred);
        } else {
            lemma_checkpoint_file_at(files.drop_first(), p);
            lemma_first_later(files, pred, checkpoint_file_at(files, p));
        }
    }
}

proof fn lemma_work_file_at(files: Seq<WorkingTreeFileView>, p: Seq<char>)
    ensures
        is_first(
            files,
            |f: WorkingTreeFileView| path::same_path(f.path, p),
            work_file_at(files, p),
        ),
    decreases files.len(),
{
    let pred = |f: WorkingTreeFileView| path::same_path(f.path, p);
    if files.len() > 0 {
        if path::same_path(files[0].path, p) {
            lemma_first_here(files, pred);
        } else {
            lemma_work_file_at(files.drop_first(), p);
            lemma_first_later(files, pred, work_file_at(files, p));
        }
    }
}

/// Two values are the same first one.
pub(crate) proof fn lemma_one_first<A>(s: Seq<A>, pred: spec_fn(A) -> bool, a: Option<A>, b: Option<A>)
    requires
        is_first(s, pred, a),
        is_first(s, pred, b),
    ensures
        a == b,
{
    match (a, b) {
        (Some(x), Some(y)) => {
            let i = choose|i: int| crate::choice::first_at(s, pred, i) && s[i] == x;
            let j = choose|j: int| crate::choice::first_at(s, pred, j) && s[j] == y;
            if i < j {
                assert(!pred(s[i]));
            } else if j < i {
                assert(!pred(s[j]));
            }
        },
        (Some(x), None) => {
            let i = choose|i: int| crate::choice::first_at(s, pred, i) && s[i] == x;
            assert(!pred(s[i]));
        },
        (None, Some(y)) => {
            let j = choose|j: int| crate::choice::first_at(s, pred, j) && s[j] == y;
            assert(!pred(s[j]));
        },
        (None, None) => {},
    }
}

// ---------------------------------------------------------------------------
// Two contents
/// The diff of two contents starts with two lines that name the old and the new
/// path, `/dev/null` for a side that is not there; the old path is the one a
/// file was renamed from. Of binary contents it then says that they differ, and
/// of other equal contents, a missing one being empty, it says no more.
pub proof fn lemma_diffs_name_both_sides(
    p: Seq<char>,
    from: Option<Seq<char>>,
    before: Option<Seq<u8>>,
    after: Option<Seq<u8>>,
)
    ensures
        ({
            let old_name = match (before, from) {
                (None, _) => "/dev/null"@,
                (Some(_), Some(from)) => "a/"@ + from,
                (Some(_), None) => "a/"@ + p,
            };
            let new_name = match after {
                None => "/dev/null"@,
                Some(_) => "b/"@ + p,
            };
            let head = "--- "@ + old_name + "\n+++ "@ + new_name + "\n"@;
            let text = diff_text(p, from, before, after);
            let binary = |data: Option<Seq<u8>>|
                data is Some && exists|i: int|
                    0 <= i < data->Some_0.len() && i < 8192 && #[trigger] data->Some_0[i] == 0;
            &&& head.is_prefix_of(text)
            &&& binary(before) || binary(after) ==> text == head + "Binary files differ\n"@
        }),
{
    reveal_strlit("\n+++ ");
    reveal_strlit("\n");
    reveal_strlit("+++ ");
    let old_name = match (before, from) {
        (None, _) => "/dev/null"@,
        (Some(_), Some(from)) => "a/"@ + from,
        (Some(_), None) => "a/"@ + p,
    };
    let new_name = match after {
        None => "/dev/null"@,
        Some(_) => "b/"@ + p,
    };
    let head = "--- "@ + old_name + "\n+++ "@ + new_name + "\n"@;
    let text = diff_text(p, from, before, after);
    assert("\n+++ "@ =~= "\n"@ + "+++ "@);
    assert(head =~= header_text(p, from, before is Some, after is Some));
    assert(head =~= text.subrange(0, head.len() as int));
}

/// The content behind a hash, if there is one and it could be read.
pub open spec fn held(blobs: Map<Seq<char>, Seq<u8>>, hash: Option<Seq<char>>) -> Option<Seq<u8>> {
    if hash is Some && blobs.dom().contains(hash->Some_0) {
        Some(blobs[hash->Some_0])
    } else {
        None
    }
}

// ---------------------------------------------------------------------------
// Commits
proof fn lemma_commit_text(blobs: Map<Seq<char>, Seq<u8>>, files: Seq<CommitFileView>)
    ensures
        commit_text(blobs, files) == files.map_values(
            |f: CommitFileView| commit_file_text(blobs, f),
        ).flatten(),
    decreases files.len(),
{
    let of = |f: CommitFileView| commit_file_text(blobs, f);
    if files.len() > 0 {
        let rest = files.drop_last();
        lemma_commit_text(blobs, rest);
        assert(files.map_values(of) =~= rest.map_values(of).push(of(files.last())));
        rest.map_values(of).lemma_flatten_push(of(files.last()));
    }
}

/// The diff of a commit is the diffs of all its files, one behind the other: of
/// each, the content before the commit compared with that after it. The diff of
/// one file is that of the first entry with its path; a file without one is not
/// part of the commit.
pub proof fn lemma_commit_diffs_show_every_file(
    review: WorktreeReviewView,
    n: usize,
    c: CommitReviewView,
    p: Seq<char>,
    blobs: Map<Seq<char>, Seq<u8>>,
    work: WorkContentsView,
)
    requires
        is_first(
            review.sections,
            |s: ReviewSectionView| is_number(s, n),
            Some(ReviewSectionView::Commit(c)),
        ),
    ensures
        ({
            let whole = diff_of(review, DiffTargetView::Commit { section: n }, blobs, work);
            let target = DiffTargetView::CommitFile { section: n, path: p };
            let one = diff_of(review, target, blobs, work);
            let theirs = |f: CommitFileView| path::same_path(f.path, p);
            &&& whole is Ok
            &&& exists|parts: Seq<Seq<char>>| {
                &&& parts.len() == c.files.len()
                &&& whole->Ok_0 == #[trigger] parts.flatten()
                &&& forall|i: int|
                    0 <= i < parts.len() ==> #[trigger] parts[i] == diff_text(
                        c.files[i].path,
                        c.files[i].old_path,
                        held(blobs, c.files[i].before_id),
                        held(blobs, c.files[i].after_id),
                    )
            }
            &&& forall|f: CommitFileView|
                #[trigger] is_first(c.files, theirs, Some(f)) ==> one == Ok::<
                    Seq<char>,
                    TrailErrorView,
                >(diff_text(f.path, f.old_path, held(blobs, f.before_id), held(blobs, f.after_id)))
            &&& is_first(c.files, theirs, None) ==> one is Err
        }),
{
    let of = |f: CommitFileView| commit_file_text(blobs, f);
    let theirs = |f: CommitFileView| path::same_path(f.path, p);
    lemma_section_at(review.sections, n);
    lemma_one_first(
        review.sections,
        |s: ReviewSectionView| is_number(s, n),
        section_at(review.sections, n as int),
        Some(ReviewSectionView::Commit(c)),
    );
    lemma_commit_text(blobs, c.files);
    lemma_commit_file_at(c.files, p);
    let parts = c.files.map_values(of);
    assert(diff_of(review, DiffTargetView::Commit { section: n }, blobs, work)->Ok_0
        == parts.flatten());
    assert forall|f: CommitFileView| #[trigger] is_first(c.files, theirs, Some(f)) implies diff_of(
        review,
        DiffTargetView::CommitFile { section: n, path: p },
        blobs,
        work,
    ) == Ok::<Seq<char>, TrailErrorView>(
        diff_text(f.path, f.old_path, held(blobs, f.before_id), held(blobs, f.after_id)),
    ) by {
        lemma_one_first(c.files, theirs, Some(f), commit_file_at(c.files, p));
    }
    if is_first(c.files, theirs, None) {
        lemma_one_first(c.files, theirs, None, commit_file_at(c.files, p));
    }
}

// ---------------------------------------------------------------------------
// Checkpoints
proof fn lemma_checkpoint_text(blobs: Map<Seq<char>, Seq<u8>>, files: Seq<ReviewFileView>)
    ensures
        checkpoint_text(blobs, files) == files.map_values(
            |f: ReviewFileView| checkpoint_file_text(blobs, f),
        ).flatten(),
    decreases files.len(),
{
    let of = |f: ReviewFileView| checkpoint_file_text(blobs, f);
    if files.len() > 0 {
        let rest = files.drop_last();
        lemma_checkpoint_text(blobs, rest);
        assert(files.map_values(of) =~= rest.map_values(of).push(of(files.last())));
        rest.map_values(of).lemma_flatten_push(of(files.last()));
    }
}

/// The diff of a file of a checkpoint: the content before compared with that
/// after; nothing where the content is gone.
pub open spec fn snapshot_diff(blobs: Map<Seq<char>, Seq<u8>>, f: ReviewFileView) -> Seq<char> {
    if f.snapshot {
        diff_text(f.path, f.from_path, held(blobs, f.before_hash), held(blobs, f.after_hash))
    } else {
        Seq::empty()
    }
}

/// The diff of a checkpoint is the diffs of all its files, one behind the
/// other. The diff of one file is that of the first entry with its path; a file
/// without one is not part of the checkpoint.
pub proof fn lemma_checkpoint_diffs_show_every_file(
    review: WorktreeReviewView,
    label: Seq<char>,
    c: ReviewCheckpointView,
    p: Seq<char>,
    blobs: Map<Seq<char>, Seq<u8>>,
    work: WorkContentsView,
)
    requires
        is_first(review.checkpoints, |c: ReviewCheckpointView| c.label == label, Some(c)),
    ensures
        ({
            let whole = diff_of(review, DiffTargetView::Checkpoint { label }, blobs, work);
            let target = DiffTargetView::CheckpointFile { label, path: p };
            let one = diff_of(review, target, blobs, work);
            let theirs = |f: ReviewFileView| path::same_path(f.path, p);
            &&& whole is Ok
            &&& exists|parts: Seq<Seq<char>>| {
                &&& parts.len() == c.files.len()
                &&& whole->Ok_0 == #[trigger] parts.flatten()
                &&& forall|i: int|
                    0 <= i < parts.len() ==> #[trigger] parts[i] == snapshot_diff(
                        blobs,
                        c.files[i],
                    )
            }
            &&& forall|f: ReviewFileView|
                #[trigger] is_first(c.files, theirs, Some(f)) ==> one == Ok::<
                    Seq<char>,
                    TrailErrorView,
                >(snapshot_diff(blobs, f))
            &&& is_first(c.files, theirs, None) ==> one is Err
        }),
{
    let of = |f: ReviewFileView| checkpoint_file_text(blobs, f);
    let theirs = |f: ReviewFileView| path::same_path(f.path, p);
    lemma_labelled(review.checkpoints, label);
    lemma_one_first(
        review.checkpoints,
        |c: ReviewCheckpointView| c.label == label,
        checkpoint_labelled(review.checkpoints, label),
        Some(c),
    );
    lemma_checkpoint_text(blobs, c.files);
    lemma_checkpoint_file_at(c.files, p);
    let parts = c.files.map_values(of);
    assert(diff_of(review, DiffTargetView::Checkpoint { label }, blobs, work)->Ok_0
        == parts.flatten());
    assert forall|f: ReviewFileView| #[trigger] is_first(c.files, theirs, Some(f)) implies diff_of(
        review,
        DiffTargetView::CheckpointFile { label, path: p },
        blobs,
        work,
    ) == Ok::<Seq<char>, TrailErrorView>(snapshot_diff(blobs, f)) by {
        lemma_one_first(c.files, theirs, Some(f), checkpoint_file_at(c.files, p));
    }
    if is_first(c.files, theirs, None) {
        lemma_one_first(c.files, theirs, None, checkpoint_file_at(c.files, p));
    }
}

// ---------------------------------------------------------------------------
// The working tree
proof fn lemma_work_text(work: WorkContentsView, files: Seq<WorkingTreeFileView>)
    ensures
        work_text(work, files) == files.map_values(
            |f: WorkingTreeFileView| work_file_text(work, f),
        ).flatten(),
    decreases files.len(),
{
    let of = |f: WorkingTreeFileView| work_file_text(work, f);
    if files.len() > 0 {
        let rest = files.drop_last();
        lemma_work_text(work, rest);
        assert(files.map_values(of) =~= rest.map_values(of).push(of(files.last())));
        rest.map_values(of).lemma_flatten_push(of(files.last()));
    }
}

/// The diff of a file of the working tree: what git says; of an untracked file
/// its content as an addition, an unreadable one being empty; and nothing where
/// the worktree was removed.
pub open spec fn disk_diff(work: WorkContentsView, f: WorkingTreeFileView) -> Seq<char> {
    if !work.live {
        Seq::empty()
    } else if f.untracked && work.contents.dom().contains(f.path) {
        diff_text(f.path, None, None, Some(work.contents[f.path]))
    } else if f.untracked {
        diff_text(f.path, None, None, Some(Seq::empty()))
    } else if work.unified.dom().contains(f.path) {
        lossy_text(work.unified[f.path])
    } else {
        Seq::empty()
    }
}

/// The diff of the working tree is the diffs of all its files, one behind the
/// other. The diff of one file is that of the first entry with its path; a file
/// without one has no uncommitted changes. A review that ends in a commit has
/// no working tree to show. To ask for the section of the working tree is to ask
/// for the working tree.
pub proof fn lemma_working_tree_diffs_show_every_file(
    review: WorktreeReviewView,
    p: Seq<char>,
    blobs: Map<Seq<char>, Seq<u8>>,
    work: WorkContentsView,
)
    requires
        review.sections.len() > 0,
    ensures
        ({
            let whole = diff_of(review, DiffTargetView::WorkingTree, blobs, work);
            let one = diff_of(review, DiffTargetView::WorkingTreeFile { path: p }, blobs, work);
            let theirs = |f: WorkingTreeFileView| path::same_path(f.path, p);
            match review.sections.last() {
                ReviewSectionView::Commit(_) => whole == Ok::<Seq<char>, TrailErrorView>(
                    Seq::empty(),
                ),
                ReviewSectionView::WorkingTree(w) => {
                    &&& whole is Ok
                    &&& exists|parts: Seq<Seq<char>>| {
                        &&& parts.len() == w.files.len()
                        &&& whole->Ok_0 == #[trigger] parts.flatten()
                        &&& forall|i: int|
                            0 <= i < parts.len() ==> #[trigger] parts[i] == disk_diff(
                                work,
                                w.files[i],
                            )
                    }
                    &&& forall|f: WorkingTreeFileView|
                        #[trigger] is_first(w.files, theirs, Some(f)) ==> one == Ok::<
                            Seq<char>,
                            TrailErrorView,
                        >(disk_diff(work, f))
                    &&& is_first(w.files, theirs, None) ==> one is Err
                },
            }
        }),
        forall|n: usize, i: int|
            0 <= i < review.sections.len() && is_number(#[trigger] review.sections[i], n)
                && review.sections[i] is WorkingTree && (forall|j: int|
                0 <= j < i ==> !is_number(#[trigger] review.sections[j], n)) ==> #[trigger] diff_of(
                review,
                DiffTargetView::Commit { section: n },
                blobs,
                work,
            ) == diff_of(review, DiffTargetView::WorkingTree, blobs, work),
{
    let of = |f: WorkingTreeFileView| work_file_text(work, f);
    let theirs = |f: WorkingTreeFileView| path::same_path(f.path, p);
    match review.sections.last() {
        ReviewSectionView::Commit(_) => {},
        ReviewSectionView::WorkingTree(w) => {
            lemma_work_text(work, w.files);
            lemma_work_file_at(w.files, p);
            let parts = w.files.map_values(of);
            assert(diff_of(review, DiffTargetView::WorkingTree, blobs, work)->Ok_0
                == parts.flatten());
            assert forall|f: WorkingTreeFileView|
                #[trigger] is_first(w.files, theirs, Some(f)) implies diff_of(
                review,
                DiffTargetView::WorkingTreeFile { path: p },
                blobs,
                work,
            ) == Ok::<Seq<char>, TrailErrorView>(disk_diff(work, f)) by {
                lemma_one_first(w.files, theirs, Some(f), work_file_at(w.files, p));
            }
            if is_first(w.files, theirs, None) {
                lemma_one_first(w.files, theirs, None, work_file_at(w.files, p));
            }
        },
    }
    assert forall|n: usize, i: int|
        0 <= i < review.sections.len() && is_number(#[trigger] review.sections[i], n)
            && review.sections[i] is WorkingTree && (forall|j: int|
            0 <= j < i ==> !is_number(
                #[trigger] review.sections[j],
                n,
            )) implies #[trigger] diff_of(
        review,
        DiffTargetView::Commit { section: n },
        blobs,
        work,
    ) == diff_of(review, DiffTargetView::WorkingTree, blobs, work) by {
        let pred = |s: ReviewSectionView| is_number(s, n);
        lemma_section_at(review.sections, n);
        assert(crate::choice::first_at(review.sections, pred, i));
        lemma_one_first(
            review.sections,
            pred,
            section_at(review.sections, n as int),
            Some(review.sections[i]),
        );
    }
}

} // verus!
