//! Finding things in a review, and their diffs.

use super::{
    CommitFile, CommitFileView, CommitReview, CommitReviewView, FileRow, FileRowView,
    ReviewCheckpoint, ReviewCheckpointView, ReviewFile, ReviewFileView, ReviewSection,
    ReviewSectionView, WorkingTreeFile, WorkingTreeFileView, WorktreeReview, WorktreeReviewView,
};
use super::assemble::{comparable, side, side_or_nothing};
use super::diff::{diff_text, unified_diff};
use crate::data::Dup;
use crate::error::{outcome, TrailError, TrailErrorView};
use crate::map::TextMap;
use crate::path;
use crate::text::{self, lossy_text};
use crate::trail::{RepositoryContext, RepositoryContextView};
use vstd::prelude::*;

verus! {

// ---------------------------------------------------------------------------
// Selection
/// What a selector on the command line named.
#[derive(Debug, Clone, Copy)]
pub enum Selected<'a> {
    Section(&'a ReviewSection),
    Checkpoint(&'a ReviewCheckpoint),
}

/// What a [`Selected`] denotes.
#[verifier::ext_equal]
pub enum SelectedView {
    Section(ReviewSectionView),
    Checkpoint(ReviewCheckpointView),
}

impl<'a> DeepView for Selected<'a> {
    type V = SelectedView;

    open spec fn deep_view(&self) -> SelectedView {
        match *self {
            Selected::Section(s) => SelectedView::Section(s.deep_view()),
            Selected::Checkpoint(c) => SelectedView::Checkpoint(c.deep_view()),
        }
    }
}

/// The first section with a number.
pub open spec fn section_at(sections: Seq<ReviewSectionView>, n: int) -> Option<ReviewSectionView>
    decreases sections.len(),
{
    if sections.len() == 0 {
        None
    } else if sections[0].at() == n {
        Some(sections[0])
    } else {
        section_at(sections.drop_first(), n)
    }
}

/// The first checkpoint with a label or id.
pub open spec fn checkpoint_named(cps: Seq<ReviewCheckpointView>, name: Seq<char>) -> Option<
    ReviewCheckpointView,
>
    decreases cps.len(),
{
    if cps.len() == 0 {
        None
    } else if cps[0].label == name || cps[0].id == name {
        Some(cps[0])
    } else {
        checkpoint_named(cps.drop_first(), name)
    }
}

/// A commit section whose id starts with some digits.
pub open spec fn has_prefix(s: ReviewSectionView, prefix: Seq<char>) -> bool {
    match s {
        ReviewSectionView::Commit(c) => prefix.is_prefix_of(c.id),
        ReviewSectionView::WorkingTree(_) => false,
    }
}

pub open spec fn with_prefix(sections: Seq<ReviewSectionView>, prefix: Seq<char>) -> Seq<
    ReviewSectionView,
>
    decreases sections.len(),
{
    if sections.len() == 0 {
        Seq::empty()
    } else if has_prefix(sections.last(), prefix) {
        with_prefix(sections.drop_last(), prefix).push(sections.last())
    } else {
        with_prefix(sections.drop_last(), prefix)
    }
}

pub open spec fn is_hex_prefix(s: Seq<char>) -> bool {
    s.len() >= 4 && forall|i: int| 0 <= i < s.len() ==> text::is_hex_digit(#[trigger] s[i])
}

pub open spec fn nothing_named(selector: Seq<char>) -> TrailErrorView {
    TrailErrorView::InvalidSelection(
        "no checkpoint or commit "@ + selector
            + " in this review\n  hint: sections are numbers, checkpoints are <section>.<n>"@,
    )
}

/// The number that a selector is, if it can be that of a section.
pub open spec fn number_of(selector: Seq<char>) -> Option<nat> {
    match text::number_value(selector) {
        Some(n) if n <= usize::MAX => Some(n),
        _ => None,
    }
}

/// The section that has the number a selector is.
pub open spec fn numbered_section(sections: Seq<ReviewSectionView>, selector: Seq<char>) -> Option<
    ReviewSectionView,
> {
    match number_of(selector) {
        Some(n) => section_at(sections, n as int),
        None => None,
    }
}

/// What a selector that names nothing is answered.
pub open spec fn unselected(review: WorktreeReviewView, selector: Seq<char>) -> TrailErrorView {
    match number_of(selector) {
        Some(n) => TrailErrorView::InvalidSelection(
            "section "@ + text::decimal(n) + " does not exist; `trail review` lists 1.."@
                + text::decimal(review.sections.len()),
        ),
        None => nothing_named(selector),
    }
}

/// What a selector names: a section by its number, or else a checkpoint by its
/// label or id, or else a commit by the start of its id.
pub open spec fn selected(review: WorktreeReviewView, given: Seq<char>) -> Result<
    SelectedView,
    TrailErrorView,
> {
    let selector = text::trim(given);
    let hits = with_prefix(review.sections, selector);
    match (
        numbered_section(review.sections, selector),
        checkpoint_named(review.checkpoints, selector),
    ) {
        (Some(s), _) => Ok(SelectedView::Section(s)),
        (None, Some(c)) => Ok(SelectedView::Checkpoint(c)),
        (None, None) => if is_hex_prefix(selector) && hits.len() == 1 {
            Ok(SelectedView::Section(hits[0]))
        } else if is_hex_prefix(selector) && hits.len() > 1 {
            Err(
                TrailErrorView::InvalidSelection(
                    "'"@ + selector + "' matches "@ + text::decimal(hits.len())
                        + " commits in this review; use more digits"@,
                ),
            )
        } else {
            Err(unselected(review, selector))
        },
    }
}

pub(crate) fn find_section<'a>(sections: &'a Vec<ReviewSection>, n: usize) -> (r: Option<&'a ReviewSection>)
    ensures
        r.deep_view() == section_at(sections.deep_view(), n as int),
{
    let ghost all = sections.deep_view();
    let mut k: usize = 0;
    assert(all.skip(0) =~= all);
    while k < sections.len()
        invariant
            k <= sections.len(),
            all == sections.deep_view(),
            section_at(all, n as int) == section_at(all.skip(k as int), n as int),
        decreases sections.len() - k,
    {
        assert(all.skip(k as int)[0] == sections[k as int].deep_view());
        if sections[k].number() == n {
            return Some(&sections[k]);
        }
        assert(all.skip(k as int).drop_first() =~= all.skip(k + 1));
        k += 1;
    }
    None
}

fn find_checkpoint<'a>(cps: &'a Vec<ReviewCheckpoint>, name: &str) -> (r: Option<
    &'a ReviewCheckpoint,
>)
    ensures
        r.deep_view() == checkpoint_named(cps.deep_view(), name@),
{
    let ghost all = cps.deep_view();
    let mut k: usize = 0;
    assert(all.skip(0) =~= all);
    while k < cps.len()
        invariant
            k <= cps.len(),
            all == cps.deep_view(),
            checkpoint_named(all, name@) == checkpoint_named(all.skip(k as int), name@),
        decreases cps.len() - k,
    {
        assert(all.skip(k as int)[0] == cps[k as int].deep_view());
        if text::same(&cps[k].label, name) || text::same(&cps[k].id, name) {
            return Some(&cps[k]);
        }
        assert(all.skip(k as int).drop_first() =~= all.skip(k + 1));
        k += 1;
    }
    None
}

fn hex_prefix(s: &str) -> (r: bool)
    ensures
        r == is_hex_prefix(s@),
{
    let v: Vec<char> = text::chars_of(s);
    if v.len() < 4 {
        return false;
    }
    let mut k: usize = 0;
    while k < v.len()
        invariant
            k <= v.len(),
            v@ == s@,
            forall|i: int| 0 <= i < k ==> text::is_hex_digit(#[trigger] s@[i]),
        decreases v.len() - k,
    {
        let c: char = v[k];
        let hex: bool = ('0' <= c && c <= '9') || ('a' <= c && c <= 'f') || ('A' <= c && c <= 'F');
        if !hex {
            assert(!text::is_hex_digit(s@[k as int]));
            return false;
        }
        k += 1;
    }
    true
}

fn collect_prefix<'a>(sections: &'a Vec<ReviewSection>, prefix: &str) -> (r: Vec<
    &'a ReviewSection,
>)
    ensures
        r.deep_view() == with_prefix(sections.deep_view(), prefix@),
{
    let ghost all = sections.deep_view();
    let mut out: Vec<&ReviewSection> = Vec::new();
    let mut k: usize = 0;
    assert(out.deep_view() =~= with_prefix(all.take(0), prefix@));
    while k < sections.len()
        invariant
            k <= sections.len(),
            all == sections.deep_view(),
            out.deep_view() == with_prefix(all.take(k as int), prefix@),
        decreases sections.len() - k,
    {
        let ghost was = out.deep_view();
        proof {
            assert(all.take(k + 1).drop_last() =~= all.take(k as int));
            assert(all.take(k + 1).last() == sections[k as int].deep_view());
        }
        let hit: bool = match &sections[k] {
            ReviewSection::Commit(c) => text::starts_with(&c.id, prefix),
            ReviewSection::WorkingTree(_) => false,
        };
        if hit {
            out.push(&sections[k]);
            assert(out.deep_view() =~= was.push(all[k as int]));
        }
        k += 1;
    }
    assert(all.take(k as int) =~= all);
    out
}

/// Find a section by number or commit id (prefix), or a checkpoint by
/// `section.number` label or id.
pub fn select<'a>(review: &'a WorktreeReview, selector: &str) -> (r: Result<
    Selected<'a>,
    TrailError,
>)
    ensures
        outcome(r) == selected(review.deep_view(), selector@),
{
    let selector: &str = text::trim_of(selector);
    let number: Option<usize> = match text::parse_number(selector) {
        Some(n) => if n <= usize::MAX as u64 {
            Some(n as usize)
        } else {
            None
        },
        None => None,
    };
    match number {
        Some(n) => match find_section(&review.sections, n) {
            Some(s) => {
                return Ok(Selected::Section(s));
            },
            None => {},
        },
        None => {},
    }
    match find_checkpoint(&review.checkpoints, selector) {
        Some(cp) => {
            return Ok(Selected::Checkpoint(cp));
        },
        None => {},
    }
    if hex_prefix(selector) {
        let hits: Vec<&ReviewSection> = collect_prefix(&review.sections, selector);
        assert(hits.deep_view().len() == hits.len());
        if hits.len() == 1 {
            assert(hits.deep_view()[0] == hits[0].deep_view());
            return Ok(Selected::Section(hits[0]));
        }
        if hits.len() > 1 {
            return Err(
                TrailError::InvalidSelection(
                    text::cat5(
                        "'",
                        selector,
                        "' matches ",
                        &text::decimal_of(hits.len() as u64),
                        " commits in this review; use more digits",
                    ),
                ),
            );
        }
    }
    match number {
        Some(n) => Err(
            TrailError::InvalidSelection(
                text::cat4(
                    "section ",
                    &text::decimal_of(n as u64),
                    " does not exist; `trail review` lists 1..",
                    &text::decimal_of(review.sections.len() as u64),
                ),
            ),
        ),
        None => Err(
            TrailError::InvalidSelection(
                text::cat3(
                    "no checkpoint or commit ",
                    selector,
                    " in this review\n  hint: sections are numbers, checkpoints are <section>.<n>",
                ),
            ),
        ),
    }
}

/// The first section of a commit.
pub open spec fn commit_with_id(sections: Seq<ReviewSectionView>, id: Seq<char>) -> Option<
    CommitReviewView,
>
    decreases sections.len(),
{
    if sections.len() == 0 {
        None
    } else {
        match sections[0] {
            ReviewSectionView::Commit(c) if c.id == id => Some(c),
            _ => commit_with_id(sections.drop_first(), id),
        }
    }
}

/// The section of the commit with an id, or else of the only one whose id starts
/// so.
pub open spec fn commit_named(sections: Seq<ReviewSectionView>, id: Seq<char>) -> Option<
    CommitReviewView,
> {
    let hits = with_prefix(sections, id);
    match commit_with_id(sections, id) {
        Some(c) => Some(c),
        None => if hits.len() == 1 {
            match hits[0] {
                ReviewSectionView::Commit(c) => Some(c),
                ReviewSectionView::WorkingTree(_) => None,
            }
        } else {
            None
        },
    }
}

/// Find the section of a commit (any unique prefix), if it is in the window.
pub fn section_of_commit<'a>(review: &'a WorktreeReview, id: &str) -> (r: Option<&'a CommitReview>)
    ensures
        r.deep_view() == commit_named(review.deep_view().sections, id@),
{
    let ghost all = review.sections.deep_view();
    let mut k: usize = 0;
    assert(all.skip(0) =~= all);
    while k < review.sections.len()
        invariant
            k <= review.sections.len(),
            all == review.sections.deep_view(),
            commit_with_id(all, id@) == commit_with_id(all.skip(k as int), id@),
        decreases review.sections.len() - k,
    {
        assert(all.skip(k as int)[0] == review.sections[k as int].deep_view());
        match &review.sections[k] {
            ReviewSection::Commit(c) => {
                if text::same(&c.id, id) {
                    return Some(c);
                }
            },
            ReviewSection::WorkingTree(_) => {},
        }
        assert(all.skip(k as int).drop_first() =~= all.skip(k + 1));
        k += 1;
    }
    let hits: Vec<&ReviewSection> = collect_prefix(&review.sections, id);
    assert(hits.deep_view().len() == hits.len());
    if hits.len() == 1 {
        assert(hits.deep_view()[0] == hits[0].deep_view());
        hits[0].as_commit()
    } else {
        None
    }
}

// ---------------------------------------------------------------------------
// Diffs
/// Something that can be shown as a unified diff.
#[derive(Debug, Clone, PartialEq, Eq)]
pub enum DiffTarget {
    /// parent tree → commit tree, every file.
    Commit {
        section: usize,
    },
    CommitFile {
        section: usize,
        path: String,
    },
    /// before checkpoint → after checkpoint, every file.
    Checkpoint {
        label: String,
    },
    CheckpointFile {
        label: String,
        path: String,
    },
    /// HEAD → working tree, every file.
    WorkingTree,
    WorkingTreeFile {
        path: String,
    },
}

/// What could be read of the working tree: the contents of untracked files, and
/// what git says of the others, by path.
#[derive(Debug, Clone, PartialEq, Eq)]
pub struct WorkContents {
    /// False for a removed worktree.
    pub live: bool,
    pub contents: TextMap<Vec<u8>>,
    pub unified: TextMap<Vec<u8>>,
}

/// What a [`DiffTarget`] denotes.
#[verifier::ext_equal]
pub enum DiffTargetView {
    Commit {
        section: usize,
    },
    CommitFile {
        section: usize,
        path: Seq<char>,
    },
    Checkpoint {
        label: Seq<char>,
    },
    CheckpointFile {
        label: Seq<char>,
        path: Seq<char>,
    },
    WorkingTree,
    WorkingTreeFile {
        path: Seq<char>,
    },
}

impl DeepView for DiffTarget {
    type V = DiffTargetView;

    open spec fn deep_view(&self) -> DiffTargetView {
        match *self {
            DiffTarget::Commit { section } => DiffTargetView::Commit {
                section: section.deep_view(),
            },
            DiffTarget::CommitFile { section, path } => DiffTargetView::CommitFile {
                section: section.deep_view(),
                path: path.deep_view(),
            },
            DiffTarget::Checkpoint { label } => DiffTargetView::Checkpoint {
                label: label.deep_view(),
            },
            DiffTarget::CheckpointFile { label, path } => DiffTargetView::CheckpointFile {
                label: label.deep_view(),
                path: path.deep_view(),
            },
            DiffTarget::WorkingTree => DiffTargetView::WorkingTree,
            DiffTarget::WorkingTreeFile { path } => DiffTargetView::WorkingTreeFile {
                path: path.deep_view(),
            },
        }
    }
}

impl Dup for DiffTarget {
    fn dup(&self) -> (r: DiffTarget) {
        match self {
            DiffTarget::Commit { section } => DiffTarget::Commit {
                section: section.dup(),
            },
            DiffTarget::CommitFile { section, path } => DiffTarget::CommitFile {
                section: section.dup(),
                path: path.dup(),
            },
            DiffTarget::Checkpoint { label } => DiffTarget::Checkpoint {
                label: label.dup(),
            },
            DiffTarget::CheckpointFile { label, path } => DiffTarget::CheckpointFile {
                label: label.dup(),
                path: path.dup(),
            },
            DiffTarget::WorkingTree => DiffTarget::WorkingTree,
            DiffTarget::WorkingTreeFile { path } => DiffTarget::WorkingTreeFile {
                path: path.dup(),
            },
        }
    }
}

/// What a [`WorkContents`] denotes.
#[verifier::ext_equal]
pub struct WorkContentsView {
    pub live: bool,
    pub contents: Map<Seq<char>, Seq<u8>>,
    pub unified: Map<Seq<char>, Seq<u8>>,
}

impl DeepView for WorkContents {
    type V = WorkContentsView;

    open spec fn deep_view(&self) -> WorkContentsView {
        WorkContentsView {
            live: self.live,
            contents: self.contents.deep_view(),
            unified: self.unified.deep_view(),
        }
    }
}

/// Unified diff of one checkpoint file, rebuilt from its snapshots. Empty
/// when a side is missing.
pub open spec fn checkpoint_file_text(
    blobs: Map<Seq<char>, Seq<u8>>,
    f: ReviewFileView,
) -> Seq<char> {
    if !f.snapshot {
        Seq::empty()
    } else {
        diff_text(
            f.path,
            f.from_path,
            side_or_nothing(blobs, f.before_hash),
            side_or_nothing(blobs, f.after_hash),
        )
    }
}

fn opt_str<'a>(s: &'a Option<String>) -> (r: Option<&'a str>)
    ensures
        r.deep_view() == s.deep_view(),
{
    match s {
        Some(s) => Some(s.as_str()),
        None => None,
    }
}

/// Unified diff of one checkpoint file, rebuilt from its snapshots. Empty
/// when a side is missing from the object database.
pub fn checkpoint_file_diff(blobs: &TextMap<Vec<u8>>, file: &ReviewFile) -> (r: String)
    requires
        comparable(blobs.deep_view()),
    ensures
        r@ == checkpoint_file_text(blobs.deep_view(), file.deep_view()),
{
    if !file.snapshot {
        let r: String = String::new();
        assert(r@ =~= Seq::empty());
        return r;
    }
    unified_diff(
        &file.path,
        opt_str(&file.from_path),
        side(blobs, &file.before_hash),
        side(blobs, &file.after_hash),
    )
}

/// Unified diff of one file of a commit: parent blob → commit blob.
pub open spec fn commit_file_text(
    blobs: Map<Seq<char>, Seq<u8>>,
    f: CommitFileView,
) -> Seq<char> {
    diff_text(
        f.path,
        f.old_path,
        side_or_nothing(blobs, f.before_id),
        side_or_nothing(blobs, f.after_id),
    )
}

/// Unified diff of one file of a commit: parent blob → commit blob.
pub fn commit_file_diff(blobs: &TextMap<Vec<u8>>, file: &CommitFile) -> (r: String)
    requires
        comparable(blobs.deep_view()),
    ensures
        r@ == commit_file_text(blobs.deep_view(), file.deep_view()),
{
    unified_diff(
        &file.path,
        opt_str(&file.old_path),
        side(blobs, &file.before_id),
        side(blobs, &file.after_id),
    )
}

/// The blob of a file in the tree of its commit; `None` when the commit
/// deleted it.
pub fn blob_at_commit(file: &CommitFile) -> (r: Option<String>)
    ensures
        r.deep_view() == file.deep_view().after_id,
{
    file.after_id.dup()
}

/// Unified diff of one working tree file: HEAD → disk. Untracked files are
/// shown as additions.
pub open spec fn work_file_text(work: WorkContentsView, f: WorkingTreeFileView) -> Seq<char> {
    if !work.live {
        Seq::empty()
    } else if f.untracked {
        diff_text(
            f.path,
            None,
            None,
            Some(
                if work.contents.dom().contains(f.path) {
                    work.contents[f.path]
                } else {
                    Seq::empty()
                },
            ),
        )
    } else if work.unified.dom().contains(f.path) {
        lossy_text(work.unified[f.path])
    } else {
        Seq::empty()
    }
}

/// Unified diff of one working tree file: HEAD → disk. Untracked files are
/// shown as additions.
pub fn working_tree_file_diff(work: &WorkContents, file: &WorkingTreeFile) -> (r: String)
    requires
        comparable(work.deep_view().contents),
    ensures
        r@ == work_file_text(work.deep_view(), file.deep_view()),
{
    let empty: String = String::new();
    assert(empty@ =~= Seq::empty());
    if !work.live {
        return empty;
    }
    if file.untracked {
        let nothing: Vec<u8> = Vec::new();
        let data: &[u8] = match work.contents.get(&file.path) {
            Some(d) => {
                assert(d.deep_view() =~= d@);
                d.as_slice()
            },
            None => nothing.as_slice(),
        };
        let ghost want = if work.deep_view().contents.dom().contains(file.path@) {
            work.deep_view().contents[file.path@]
        } else {
            Seq::empty()
        };
        assert(data.deep_view() =~= want);
        return unified_diff(&file.path, None, None, Some(data));
    }
    match work.unified.get(&file.path) {
        Some(t) => {
            assert(t.deep_view() =~= t@);
            text::lossy(t.as_slice())
        },
        None => empty,
    }
}

pub open spec fn commit_text(blobs: Map<Seq<char>, Seq<u8>>, files: Seq<CommitFileView>) -> Seq<
    char,
>
    decreases files.len(),
{
    if files.len() == 0 {
        Seq::empty()
    } else {
        commit_text(blobs, files.drop_last()) + commit_file_text(blobs, files.last())
    }
}

pub open spec fn checkpoint_text(
    blobs: Map<Seq<char>, Seq<u8>>,
    files: Seq<ReviewFileView>,
) -> Seq<char>
    decreases files.len(),
{
    if files.len() == 0 {
        Seq::empty()
    } else {
        checkpoint_text(blobs, files.drop_last()) + checkpoint_file_text(blobs, files.last())
    }
}

pub open spec fn work_text(work: WorkContentsView, files: Seq<WorkingTreeFileView>) -> Seq<char>
    decreases files.len(),
{
    if files.len() == 0 {
        Seq::empty()
    } else {
        work_text(work, files.drop_last()) + work_file_text(work, files.last())
    }
}

pub open spec fn commit_file_at(files: Seq<CommitFileView>, p: Seq<char>) -> Option<CommitFileView>
    decreases files.len(),
{
    if files.len() == 0 {
        None
    } else if path::same_path(files[0].path, p) {
        Some(files[0])
    } else {
        commit_file_at(files.drop_first(), p)
    }
}

pub open spec fn checkpoint_file_at(files: Seq<ReviewFileView>, p: Seq<char>) -> Option<
    ReviewFileView,
>
    decreases files.len(),
{
    if files.len() == 0 {
        None
    } else if path::same_path(files[0].path, p) {
        Some(files[0])
    } else {
        checkpoint_file_at(files.drop_first(), p)
    }
}

pub open spec fn work_file_at(files: Seq<WorkingTreeFileView>, p: Seq<char>) -> Option<
    WorkingTreeFileView,
>
    decreases files.len(),
{
    if files.len() == 0 {
        None
    } else if path::same_path(files[0].path, p) {
        Some(files[0])
    } else {
        work_file_at(files.drop_first(), p)
    }
}

/// The first checkpoint with a label.
pub open spec fn checkpoint_labelled(cps: Seq<ReviewCheckpointView>, label: Seq<char>) -> Option<
    ReviewCheckpointView,
>
    decreases cps.len(),
{
    if cps.len() == 0 {
        None
    } else if cps[0].label == label {
        Some(cps[0])
    } else {
        checkpoint_labelled(cps.drop_first(), label)
    }
}

pub open spec fn not_in_commit(p: Seq<char>, c: CommitReviewView) -> TrailErrorView {
    TrailErrorView::InvalidSelection(
        p + " is not part of commit "@ + text::decimal(c.number as nat) + " ("@ + c.short_id
            + ")"@,
    )
}

pub open spec fn not_in_checkpoint(p: Seq<char>, c: ReviewCheckpointView) -> TrailErrorView {
    TrailErrorView::InvalidSelection(
        p + " is not part of checkpoint "@ + c.label + " ("@ + c.id + ")"@,
    )
}

pub open spec fn not_uncommitted(p: Seq<char>) -> TrailErrorView {
    TrailErrorView::InvalidSelection(p + " has no uncommitted changes"@)
}

pub open spec fn no_section(n: int) -> TrailErrorView {
    TrailErrorView::InvalidSelection(
        "section "@ + text::decimal(n as nat) + " does not exist"@,
    )
}

/// HEAD → working tree: of one file, or of every file.
pub open spec fn work_diff(
    review: WorktreeReviewView,
    work: WorkContentsView,
    file: Option<Seq<char>>,
) -> Result<Seq<char>, TrailErrorView> {
    if review.sections.len() == 0 {
        Err(TrailErrorView::InvalidSelection("no working tree section"@))
    } else {
        match review.sections.last() {
            ReviewSectionView::Commit(_) => Ok(Seq::empty()),
            ReviewSectionView::WorkingTree(w) => match file {
                None => Ok(work_text(work, w.files)),
                Some(p) => match work_file_at(w.files, p) {
                    Some(f) => Ok(work_file_text(work, f)),
                    None => Err(not_uncommitted(p)),
                },
            },
        }
    }
}

/// The unified diff for a target. Empty when nothing can be shown (missing
/// snapshot, removed worktree).
pub open spec fn diff_of(
    review: WorktreeReviewView,
    target: DiffTargetView,
    blobs: Map<Seq<char>, Seq<u8>>,
    work: WorkContentsView,
) -> Result<Seq<char>, TrailErrorView> {
    match target {
        DiffTargetView::Commit { section } => match section_at(review.sections, section as int) {
            None => Err(no_section(section as int)),
            Some(ReviewSectionView::Commit(c)) => Ok(commit_text(blobs, c.files)),
            Some(ReviewSectionView::WorkingTree(_)) => work_diff(review, work, None),
        },
        DiffTargetView::CommitFile { section, path } => match section_at(
            review.sections,
            section as int,
        ) {
            None => Err(no_section(section as int)),
            Some(ReviewSectionView::Commit(c)) => match commit_file_at(c.files, path) {
                Some(f) => Ok(commit_file_text(blobs, f)),
                None => Err(not_in_commit(path, c)),
            },
            Some(ReviewSectionView::WorkingTree(_)) => work_diff(review, work, Some(path)),
        },
        DiffTargetView::Checkpoint { label } => match checkpoint_labelled(
            review.checkpoints,
            label,
        ) {
            None => Err(TrailErrorView::InvalidSelection("no checkpoint "@ + label)),
            Some(c) => Ok(checkpoint_text(blobs, c.files)),
        },
        DiffTargetView::CheckpointFile { label, path } => match checkpoint_labelled(
            review.checkpoints,
            label,
        ) {
            None => Err(TrailErrorView::InvalidSelection("no checkpoint "@ + label)),
            Some(c) => match checkpoint_file_at(c.files, path) {
                Some(f) => Ok(checkpoint_file_text(blobs, f)),
                None => Err(not_in_checkpoint(path, c)),
            },
        },
        DiffTargetView::WorkingTree => work_diff(review, work, None),
        DiffTargetView::WorkingTreeFile { path } => work_diff(review, work, Some(path)),
    }
}

pub(crate) fn find_commit_file<'a>(files: &'a Vec<CommitFile>, p: &str) -> (r: Option<&'a CommitFile>)
    ensures
        r.deep_view() == commit_file_at(files.deep_view(), p@),
{
    let ghost all = files.deep_view();
    let mut k: usize = 0;
    assert(all.skip(0) =~= all);
    while k < files.len()
        invariant
            k <= files.len(),
            all == files.deep_view(),
            commit_file_at(all, p@) == commit_file_at(all.skip(k as int), p@),
        decreases files.len() - k,
    {
        assert(all.skip(k as int)[0] == files[k as int].deep_view());
        if path::same(&files[k].path, p) {
            return Some(&files[k]);
        }
        assert(all.skip(k as int).drop_first() =~= all.skip(k + 1));
        k += 1;
    }
    None
}

pub(crate) fn find_checkpoint_file<'a>(files: &'a Vec<ReviewFile>, p: &str) -> (r: Option<&'a ReviewFile>)
    ensures
        r.deep_view() == checkpoint_file_at(files.deep_view(), p@),
{
    let ghost all = files.deep_view();
    let mut k: usize = 0;
    assert(all.skip(0) =~= all);
    while k < files.len()
        invariant
            k <= files.len(),
            all == files.deep_view(),
            checkpoint_file_at(all, p@) == checkpoint_file_at(all.skip(k as int), p@),
        decreases files.len() - k,
    {
        assert(all.skip(k as int)[0] == files[k as int].deep_view());
        if path::same(&files[k].path, p) {
            return Some(&files[k]);
        }
        assert(all.skip(k as int).drop_first() =~= all.skip(k + 1));
        k += 1;
    }
    None
}

fn find_work_file<'a>(files: &'a Vec<WorkingTreeFile>, p: &str) -> (r: Option<
    &'a WorkingTreeFile,
>)
    ensures
        r.deep_view() == work_file_at(files.deep_view(), p@),
{
    let ghost all = files.deep_view();
    let mut k: usize = 0;
    assert(all.skip(0) =~= all);
    while k < files.len()
        invariant
            k <= files.len(),
            all == files.deep_view(),
            work_file_at(all, p@) == work_file_at(all.skip(k as int), p@),
        decreases files.len() - k,
    {
        assert(all.skip(k as int)[0] == files[k as int].deep_view());
        if path::same(&files[k].path, p) {
            return Some(&files[k]);
        }
        assert(all.skip(k as int).drop_first() =~= all.skip(k + 1));
        k += 1;
    }
    None
}

fn find_label<'a>(cps: &'a Vec<ReviewCheckpoint>, label: &str) -> (r: Option<&'a ReviewCheckpoint>)
    ensures
        r.deep_view() == checkpoint_labelled(cps.deep_view(), label@),
{
    let ghost all = cps.deep_view();
    let mut k: usize = 0;
    assert(all.skip(0) =~= all);
    while k < cps.len()
        invariant
            k <= cps.len(),
            all == cps.deep_view(),
            checkpoint_labelled(all, label@) == checkpoint_labelled(all.skip(k as int), label@),
        decreases cps.len() - k,
    {
        assert(all.skip(k as int)[0] == cps[k as int].deep_view());
        if text::same(&cps[k].label, label) {
            return Some(&cps[k]);
        }
        assert(all.skip(k as int).drop_first() =~= all.skip(k + 1));
        k += 1;
    }
    None
}

pub(crate) fn missing_in_commit(p: &str, c: &CommitReview) -> (r: TrailError)
    ensures
        r.deep_view() == not_in_commit(p@, c.deep_view()),
{
    TrailError::InvalidSelection(
        text::cat6(
            p,
            " is not part of commit ",
            &text::decimal_of(c.number as u64),
            " (",
            &c.short_id,
            ")",
        ),
    )
}

pub(crate) fn missing_in_checkpoint(p: &str, c: &ReviewCheckpoint) -> (r: TrailError)
    ensures
        r.deep_view() == not_in_checkpoint(p@, c.deep_view()),
{
    TrailError::InvalidSelection(
        text::cat6(p, " is not part of checkpoint ", &c.label, " (", &c.id, ")"),
    )
}

fn missing_section(n: usize) -> (r: TrailError)
    ensures
        r.deep_view() == no_section(n as int),
{
    TrailError::InvalidSelection(
        text::cat3("section ", &text::decimal_of(n as u64), " does not exist"),
    )
}

fn commit_diff(blobs: &TextMap<Vec<u8>>, files: &Vec<CommitFile>) -> (r: String)
    requires
        comparable(blobs.deep_view()),
    ensures
        r@ == commit_text(blobs.deep_view(), files.deep_view()),
{
    let ghost all = files.deep_view();
    let mut out: String = String::new();
    let mut k: usize = 0;
    assert(out@ =~= commit_text(blobs.deep_view(), all.take(0)));
    while k < files.len()
        invariant
            k <= files.len(),
            comparable(blobs.deep_view()),
            all == files.deep_view(),
            out@ == commit_text(blobs.deep_view(), all.take(k as int)),
        decreases files.len() - k,
    {
        proof {
            assert(all.take(k + 1).drop_last() =~= all.take(k as int));
            assert(all.take(k + 1).last() == files[k as int].deep_view());
        }
        out.append(&commit_file_diff(blobs, &files[k]));
        k += 1;
    }
    assert(all.take(k as int) =~= all);
    out
}

fn checkpoint_diff(blobs: &TextMap<Vec<u8>>, files: &Vec<ReviewFile>) -> (r: String)
    requires
        comparable(blobs.deep_view()),
    ensures
        r@ == checkpoint_text(blobs.deep_view(), files.deep_view()),
{
    let ghost all = files.deep_view();
    let mut out: String = String::new();
    let mut k: usize = 0;
    assert(out@ =~= checkpoint_text(blobs.deep_view(), all.take(0)));
    while k < files.len()
        invariant
            k <= files.len(),
            comparable(blobs.deep_view()),
            all == files.deep_view(),
            out@ == checkpoint_text(blobs.deep_view(), all.take(k as int)),
        decreases files.len() - k,
    {
        proof {
            assert(all.take(k + 1).drop_last() =~= all.take(k as int));
            assert(all.take(k + 1).last() == files[k as int].deep_view());
        }
        out.append(&checkpoint_file_diff(blobs, &files[k]));
        k += 1;
    }
    assert(all.take(k as int) =~= all);
    out
}

fn working_tree_diff(work: &WorkContents, files: &Vec<WorkingTreeFile>) -> (r: String)
    requires
        comparable(work.deep_view().contents),
    ensures
        r@ == work_text(work.deep_view(), files.deep_view()),
{
    let ghost all = files.deep_view();
    let mut out: String = String::new();
    let mut k: usize = 0;
    assert(out@ =~= work_text(work.deep_view(), all.take(0)));
    while k < files.len()
        invariant
            k <= files.len(),
            comparable(work.deep_view().contents),
            all == files.deep_view(),
            out@ == work_text(work.deep_view(), all.take(k as int)),
        decreases files.len() - k,
    {
        proof {
            assert(all.take(k + 1).drop_last() =~= all.take(k as int));
            assert(all.take(k + 1).last() == files[k as int].deep_view());
        }
        out.append(&working_tree_file_diff(work, &files[k]));
        k += 1;
    }
    assert(all.take(k as int) =~= all);
    out
}

fn diff_for_work(review: &WorktreeReview, work: &WorkContents, file: Option<&str>) -> (r: Result<
    String,
    TrailError,
>)
    requires
        comparable(work.deep_view().contents),
    ensures
        outcome(r) == work_diff(review.deep_view(), work.deep_view(), file.deep_view()),
{
    let n: usize = review.sections.len();
    if n == 0 {
        return Err(TrailError::InvalidSelection("no working tree section".to_owned()));
    }
    assert(review.sections.deep_view().last() == review.sections[n - 1].deep_view());
    match &review.sections[n - 1] {
        ReviewSection::Commit(_) => {
            let r: String = String::new();
            assert(r@ =~= Seq::empty());
            Ok(r)
        },
        ReviewSection::WorkingTree(w) => match file {
            None => Ok(working_tree_diff(work, &w.files)),
            Some(p) => match find_work_file(&w.files, p) {
                Some(f) => Ok(working_tree_file_diff(work, f)),
                None => Err(
                    TrailError::InvalidSelection(text::cat2(p, " has no uncommitted changes")),
                ),
            },
        },
    }
}

/// The unified diff for `target`. Empty when nothing can be shown (missing
/// snapshot, removed worktree).
pub fn diff_for(
    review: &WorktreeReview,
    target: &DiffTarget,
    blobs: &TextMap<Vec<u8>>,
    work: &WorkContents,
) -> (r: Result<String, TrailError>)
    requires
        comparable(blobs.deep_view()),
        comparable(work.deep_view().contents),
    ensures
        outcome(r) == diff_of(
            review.deep_view(),
            target.deep_view(),
            blobs.deep_view(),
            work.deep_view(),
        ),
{
    match target {
        DiffTarget::Commit { section } => match find_section(&review.sections, *section) {
            None => Err(missing_section(*section)),
            Some(ReviewSection::Commit(c)) => Ok(commit_diff(blobs, &c.files)),
            Some(ReviewSection::WorkingTree(_)) => diff_for_work(review, work, None),
        },
        DiffTarget::CommitFile { section, path } => match find_section(
            &review.sections,
            *section,
        ) {
            None => Err(missing_section(*section)),
            Some(ReviewSection::Commit(c)) => match find_commit_file(&c.files, path) {
                Some(f) => Ok(commit_file_diff(blobs, f)),
                None => Err(missing_in_commit(path, c)),
            },
            Some(ReviewSection::WorkingTree(_)) => diff_for_work(
                review,
                work,
                Some(path.as_str()),
            ),
        },
        DiffTarget::Checkpoint { label } => match find_label(&review.checkpoints, label) {
            None => Err(TrailError::InvalidSelection(text::cat2("no checkpoint ", label))),
            Some(c) => Ok(checkpoint_diff(blobs, &c.files)),
        },
        DiffTarget::CheckpointFile { label, path } => match find_label(
            &review.checkpoints,
            label,
        ) {
            None => Err(TrailError::InvalidSelection(text::cat2("no checkpoint ", label))),
            Some(c) => match find_checkpoint_file(&c.files, path) {
                Some(f) => Ok(checkpoint_file_diff(blobs, f)),
                None => Err(missing_in_checkpoint(path, c)),
            },
        },
        DiffTarget::WorkingTree => diff_for_work(review, work, None),
        DiffTarget::WorkingTreeFile { path } => diff_for_work(review, work, Some(path.as_str())),
    }
}

// ---------------------------------------------------------------------------
// One file
/// `trail review <selector> <file>`: one file's diff.
#[derive(Debug, Clone, PartialEq, Eq)]
pub struct FileDiffReport {
    pub repository: RepositoryContext,
    /// "commit 1 (a82fbc1) Add auth" or "checkpoint 1.2 (id) \"title\"".
    pub heading: String,
    pub file: FileRow,
    /// Unified diff text (empty when it cannot be shown).
    pub diff: String,
    /// False when the diff is empty because content is missing (no
    /// snapshot, removed worktree), not because nothing changed.
    pub available: bool,
}

/// What a [`FileDiffReport`] denotes.
#[verifier::ext_equal]
pub struct FileDiffReportView {
    pub repository: RepositoryContextView,
    pub heading: Seq<char>,
    pub file: FileRowView,
    pub diff: Seq<char>,
    pub available: bool,
}

impl DeepView for FileDiffReport {
    type V = FileDiffReportView;

    open spec fn deep_view(&self) -> FileDiffReportView {
        FileDiffReportView {
            repository: self.repository.deep_view(),
            heading: self.heading.deep_view(),
            file: self.file.deep_view(),
            diff: self.diff.deep_view(),
            available: self.available.deep_view(),
        }
    }
}

impl Dup for FileDiffReport {
    fn dup(&self) -> (r: FileDiffReport) {
        FileDiffReport {
            repository: self.repository.dup(),
            heading: self.heading.dup(),
            file: self.file.dup(),
            diff: self.diff.dup(),
            available: self.available.dup(),
        }
    }
}

pub open spec fn checkpoint_heading(c: ReviewCheckpointView) -> Seq<char> {
    "checkpoint "@ + c.label + " ("@ + c.id + ")"@ + (match c.title {
        Some(t) => " \""@ + t + "\""@,
        None => ""@,
    })
}

pub open spec fn commit_heading(c: CommitReviewView) -> Seq<char> {
    "commit "@ + text::decimal(c.number as nat) + " ("@ + c.short_id + ") "@ + c.summary
}

/// The diff of the file `p` within what was selected.
pub open spec fn file_diff_of(
    repository: RepositoryContextView,
    chosen: SelectedView,
    p: Seq<char>,
    blobs: Map<Seq<char>, Seq<u8>>,
    work: WorkContentsView,
) -> Result<FileDiffReportView, TrailErrorView> {
    match chosen {
        SelectedView::Checkpoint(c) => match checkpoint_file_at(c.files, p) {
            None => Err(not_in_checkpoint(p, c)),
            Some(f) => Ok(
                FileDiffReportView {
                    repository,
                    heading: checkpoint_heading(c),
                    file: f.as_row(),
                    diff: checkpoint_file_text(blobs, f),
                    available: f.snapshot,
                },
            ),
        },
        SelectedView::Section(ReviewSectionView::Commit(c)) => match commit_file_at(c.files, p) {
            None => Err(not_in_commit(p, c)),
            Some(f) => Ok(
                FileDiffReportView {
                    repository,
                    heading: commit_heading(c),
                    file: f.as_row(),
                    diff: commit_file_text(blobs, f),
                    available: true,
                },
            ),
        },
        SelectedView::Section(ReviewSectionView::WorkingTree(w)) => if !w.available {
            Err(
                TrailErrorView::WorktreeUnavailable(
                    "the worktree was removed, so "@ + p
                        + " has no working tree state\n  hint: its checkpoints and commits can still be reviewed"@,
                ),
            )
        } else {
            match work_file_at(w.files, p) {
                None => Err(not_uncommitted(p)),
                Some(f) => Ok(
                    FileDiffReportView {
                        repository,
                        heading: "working tree ("@ + text::decimal(w.number as nat) + ")"@,
                        file: f.as_row(),
                        diff: work_file_text(work, f),
                        available: true,
                    },
                ),
            }
        },
    }
}

/// The diff of the file `path` within what was selected, which may also be a
/// commit that `review` does not show.
pub fn file_diff(
    review: &WorktreeReview,
    chosen: Selected<'_>,
    path: &str,
    blobs: &TextMap<Vec<u8>>,
    work: &WorkContents,
) -> (r: Result<FileDiffReport, TrailError>)
    requires
        comparable(blobs.deep_view()),
        comparable(work.deep_view().contents),
    ensures
        outcome(r) == file_diff_of(
            review.deep_view().repository,
            chosen.deep_view(),
            path@,
            blobs.deep_view(),
            work.deep_view(),
        ),
{
    match chosen {
        Selected::Checkpoint(c) => match find_checkpoint_file(&c.files, path) {
            None => Err(missing_in_checkpoint(path, c)),
            Some(f) => {
                let title: String = match &c.title {
                    Some(t) => text::cat3(" \"", t, "\""),
                    None => "".to_owned(),
                };
                Ok(
                    FileDiffReport {
                        repository: review.repository.dup(),
                        heading: text::cat6("checkpoint ", &c.label, " (", &c.id, ")", &title),
                        file: f.row(),
                        diff: checkpoint_file_diff(blobs, f),
                        available: f.snapshot,
                    },
                )
            },
        },
        Selected::Section(ReviewSection::Commit(c)) => match find_commit_file(&c.files, path) {
            None => Err(missing_in_commit(path, c)),
            Some(f) => Ok(
                FileDiffReport {
                    repository: review.repository.dup(),
                    heading: text::cat6(
                        "commit ",
                        &text::decimal_of(c.number as u64),
                        " (",
                        &c.short_id,
                        ") ",
                        &c.summary,
                    ),
                    file: f.row(),
                    diff: commit_file_diff(blobs, f),
                    available: true,
                },
            ),
        },
        Selected::Section(ReviewSection::WorkingTree(w)) => {
            if !w.available {
                return Err(
                    TrailError::WorktreeUnavailable(
                        text::cat3(
                            "the worktree was removed, so ",
                            path,
                            " has no working tree state\n  hint: its checkpoints and commits can still be reviewed",
                        ),
                    ),
                );
            }
            match find_work_file(&w.files, path) {
                None => Err(
                    TrailError::InvalidSelection(text::cat2(path, " has no uncommitted changes")),
                ),
                Some(f) => Ok(
                    FileDiffReport {
                        repository: review.repository.dup(),
                        heading: text::cat3(
                            "working tree (",
                            &text::decimal_of(w.number as u64),
                            ")",
                        ),
                        file: f.row(),
                        diff: working_tree_file_diff(work, f),
                        available: true,
                    },
                ),
            }
        },
    }
}

/// What the browser asks for to show the file `p` of a selection.
pub open spec fn file_target(chosen: SelectedView, p: Seq<char>) -> DiffTargetView {
    match chosen {
        SelectedView::Checkpoint(c) => DiffTargetView::CheckpointFile { label: c.label, path: p },
        SelectedView::Section(ReviewSectionView::Commit(c)) => DiffTargetView::CommitFile {
            section: c.number,
            path: p,
        },
        SelectedView::Section(ReviewSectionView::WorkingTree(_)) => DiffTargetView::WorkingTreeFile {
            path: p,
        },
    }
}

/// A selection that a review holds under its own number or label.
pub open spec fn is_shown(review: WorktreeReviewView, chosen: SelectedView) -> bool {
    match chosen {
        SelectedView::Checkpoint(c) => checkpoint_labelled(review.checkpoints, c.label) == Some(c),
        SelectedView::Section(ReviewSectionView::Commit(c)) => section_at(
            review.sections,
            c.number as int,
        ) == Some(ReviewSectionView::Commit(c)),
        SelectedView::Section(ReviewSectionView::WorkingTree(w)) => w.available
            && review.sections.len() > 0 && review.sections.last()
            == ReviewSectionView::WorkingTree(w),
    }
}

/// The browser and the text show the same diff of a file, and refuse the same
/// files.
pub proof fn lemma_one_diff_everywhere(
    review: WorktreeReviewView,
    chosen: SelectedView,
    p: Seq<char>,
    blobs: Map<Seq<char>, Seq<u8>>,
    work: WorkContentsView,
)
    requires
        is_shown(review, chosen),
    ensures
        diff_of(review, file_target(chosen, p), blobs, work) == (match file_diff_of(
            review.repository,
            chosen,
            p,
            blobs,
            work,
        ) {
            Ok(report) => Ok::<Seq<char>, TrailErrorView>(report.diff),
            Err(e) => Err(e),
        }),
{
}

// ---------------------------------------------------------------------------
// What a diff reads
/// The working tree files that the diff of one of them, or of all, reads.
pub open spec fn uncommitted(review: WorktreeReviewView, file: Option<Seq<char>>) -> Seq<
    WorkingTreeFileView,
> {
    if review.sections.len() == 0 {
        Seq::empty()
    } else {
        match review.sections.last() {
            ReviewSectionView::Commit(_) => Seq::empty(),
            ReviewSectionView::WorkingTree(w) => match file {
                None => w.files,
                Some(p) => match work_file_at(w.files, p) {
                    Some(f) => seq![f],
                    None => Seq::empty(),
                },
            },
        }
    }
}

/// The working tree files that the diff for a target reads: none for a commit
/// or a checkpoint.
pub open spec fn read_for(review: WorktreeReviewView, target: DiffTargetView) -> Seq<
    WorkingTreeFileView,
> {
    match target {
        DiffTargetView::Commit { section } => match section_at(review.sections, section as int) {
            Some(ReviewSectionView::WorkingTree(_)) => uncommitted(review, None),
            _ => Seq::empty(),
        },
        DiffTargetView::CommitFile { section, path } => match section_at(
            review.sections,
            section as int,
        ) {
            Some(ReviewSectionView::WorkingTree(_)) => uncommitted(review, Some(path)),
            _ => Seq::empty(),
        },
        DiffTargetView::Checkpoint { label: _ } => Seq::empty(),
        DiffTargetView::CheckpointFile { label: _, path: _ } => Seq::empty(),
        DiffTargetView::WorkingTree => uncommitted(review, None),
        DiffTargetView::WorkingTreeFile { path } => uncommitted(review, Some(path)),
    }
}

/// The working tree files that the diff of one file of a selection reads.
pub open spec fn read_for_file(chosen: SelectedView, p: Seq<char>) -> Seq<WorkingTreeFileView> {
    match chosen {
        SelectedView::Section(ReviewSectionView::WorkingTree(w)) if w.available => {
            match work_file_at(w.files, p) {
                Some(f) => seq![f],
                None => Seq::empty(),
            }
        },
        _ => Seq::empty(),
    }
}

fn uncommitted_files(review: &WorktreeReview, file: Option<&str>) -> (r: Vec<WorkingTreeFile>)
    ensures
        r.deep_view() == uncommitted(review.deep_view(), file.deep_view()),
{
    let mut r: Vec<WorkingTreeFile> = Vec::new();
    assert(r.deep_view() =~= Seq::empty());
    let n: usize = review.sections.len();
    if n == 0 {
        return r;
    }
    assert(review.sections.deep_view().last() == review.sections[n - 1].deep_view());
    match &review.sections[n - 1] {
        ReviewSection::Commit(_) => r,
        ReviewSection::WorkingTree(w) => match file {
            None => w.files.dup(),
            Some(p) => {
                if let Some(f) = find_work_file(&w.files, p) {
                    r.push(f.dup());
                    assert(r.deep_view() =~= seq![f.deep_view()]);
                }
                r
            },
        },
    }
}

/// The working tree files to be read for the diff for `target`.
pub fn files_to_read(review: &WorktreeReview, target: &DiffTarget) -> (r: Vec<WorkingTreeFile>)
    ensures
        r.deep_view() == read_for(review.deep_view(), target.deep_view()),
{
    let none: Vec<WorkingTreeFile> = Vec::new();
    assert(none.deep_view() =~= Seq::empty());
    match target {
        DiffTarget::Commit { section } => match find_section(&review.sections, *section) {
            Some(ReviewSection::WorkingTree(_)) => uncommitted_files(review, None),
            _ => none,
        },
        DiffTarget::CommitFile { section, path } => match find_section(
            &review.sections,
            *section,
        ) {
            Some(ReviewSection::WorkingTree(_)) => uncommitted_files(review, Some(path.as_str())),
            _ => none,
        },
        DiffTarget::Checkpoint { label: _ } => none,
        DiffTarget::CheckpointFile { label: _, path: _ } => none,
        DiffTarget::WorkingTree => uncommitted_files(review, None),
        DiffTarget::WorkingTreeFile { path } => uncommitted_files(review, Some(path.as_str())),
    }
}

/// The working tree files to be read for the diff of the file `path` within
/// what was selected.
pub fn file_to_read(chosen: Selected<'_>, path: &str) -> (r: Vec<WorkingTreeFile>)
    ensures
        r.deep_view() == read_for_file(chosen.deep_view(), path@),
{
    let mut r: Vec<WorkingTreeFile> = Vec::new();
    assert(r.deep_view() =~= Seq::empty());
    if let Selected::Section(ReviewSection::WorkingTree(w)) = chosen {
        if w.available {
            if let Some(f) = find_work_file(&w.files, path) {
                r.push(f.dup());
                assert(r.deep_view() =~= seq![f.deep_view()]);
            }
        }
    }
    r
}

/// Two readings of the working tree found the same of some files.
pub open spec fn same_reading(
    a: WorkContentsView,
    b: WorkContentsView,
    files: Seq<WorkingTreeFileView>,
) -> bool {
    &&& a.live == b.live
    &&& forall|i: int|
        0 <= i < files.len() ==> {
            let p = (#[trigger] files[i]).path;
            &&& a.contents.dom().contains(p) == b.contents.dom().contains(p)
            &&& a.contents.dom().contains(p) ==> a.contents[p] == b.contents[p]
            &&& a.unified.dom().contains(p) == b.unified.dom().contains(p)
            &&& a.unified.dom().contains(p) ==> a.unified[p] == b.unified[p]
        }
}

proof fn lemma_work_text_reads(
    a: WorkContentsView,
    b: WorkContentsView,
    files: Seq<WorkingTreeFileView>,
)
    requires
        same_reading(a, b, files),
    ensures
        work_text(a, files) == work_text(b, files),
    decreases files.len(),
{
    if files.len() > 0 {
        let rest = files.drop_last();
        assert forall|i: int| 0 <= i < rest.len() implies rest[i] == #[trigger] files[i] by {}
        assert(same_reading(a, b, rest)) by {
            assert forall|i: int| 0 <= i < rest.len() implies {
                let p = (#[trigger] rest[i]).path;
                &&& a.contents.dom().contains(p) == b.contents.dom().contains(p)
                &&& a.contents.dom().contains(p) ==> a.contents[p] == b.contents[p]
                &&& a.unified.dom().contains(p) == b.unified.dom().contains(p)
                &&& a.unified.dom().contains(p) ==> a.unified[p] == b.unified[p]
            } by {
                assert(rest[i] == files[i]);
            }
        }
        lemma_work_text_reads(a, b, rest);
        assert(files[files.len() - 1] == files.last());
    }
}

/// A diff depends on no other working tree files than those it reads. The diff
/// of a commit or a checkpoint depends on none.
pub proof fn lemma_diffs_read_no_other_files(
    review: WorktreeReviewView,
    target: DiffTargetView,
    blobs: Map<Seq<char>, Seq<u8>>,
    a: WorkContentsView,
    b: WorkContentsView,
)
    requires
        same_reading(a, b, read_for(review, target)),
    ensures
        diff_of(review, target, blobs, a) == diff_of(review, target, blobs, b),
{
    let files = read_for(review, target);
    lemma_work_text_reads(a, b, files);
    if files.len() == 1 {
        assert(files[0] == files.last());
    }
}

/// The diff of one file of a selection depends on no other working tree files
/// than those it reads.
pub proof fn lemma_file_diffs_read_no_other_files(
    repository: RepositoryContextView,
    chosen: SelectedView,
    p: Seq<char>,
    blobs: Map<Seq<char>, Seq<u8>>,
    a: WorkContentsView,
    b: WorkContentsView,
)
    requires
        same_reading(a, b, read_for_file(chosen, p)),
    ensures
        file_diff_of(repository, chosen, p, blobs, a) == file_diff_of(
            repository,
            chosen,
            p,
            blobs,
            b,
        ),
{
    let files = read_for_file(chosen, p);
    if files.len() == 1 {
        assert(files[0] == files.last());
    }
}

} // verus!
