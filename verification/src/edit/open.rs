//! `trail open`: a file as it is, or as it was when a checkpoint ended. And the
//! steps of `trail edit`.

use super::{complete_edit, edit_refusal, parse, Document};
use super::merge::{diff, EditSummary};
use crate::data::Dup;
use crate::error::{outcome, TrailError, TrailErrorView};
use crate::path;
use crate::recorder::checkpoint::{FileChange, FileChangeView};
use crate::recorder::metadata::Metadata;
use crate::recorder::snapshot::SNAPSHOT_MAX_BYTES;
use crate::review::{ReviewSection, ReviewSectionView, WorktreeReview, WorktreeReviewView};
use crate::review::select::{
    blob_at_commit, checkpoint_file_at, commit_file_at, find_checkpoint_file, find_commit_file,
    find_section, missing_in_checkpoint, missing_in_commit, no_section, not_in_checkpoint,
    not_in_commit, section_at, Selected, SelectedView,
};
use crate::text;
use crate::time::{earlier, later_of, Timestamp};
use crate::trail::Trail;
use crate::trail::event::{TrailEvent, TrailEventType, TrailEventView};
use crate::tui::{OpenTarget, OpenTargetView};
use vstd::prelude::*;

verus! {

// ---------------------------------------------------------------------------
// A file at a checkpoint
/// A checkpoint with a time.
pub open spec fn dated_checkpoint(e: TrailEventView) -> bool {
    e.event_type is Checkpoint && e.timestamp is Some
}

/// When the first checkpoint with an id started.
pub open spec fn start_of(events: Seq<TrailEventView>, id: Seq<char>) -> Option<Timestamp>
    decreases events.len(),
{
    if events.len() == 0 {
        None
    } else if dated_checkpoint(events[0]) && events[0].event_type->Checkpoint_id == id {
        events[0].timestamp
    } else {
        start_of(events.drop_first(), id)
    }
}

/// The latest time at which one of some changes that originate in a checkpoint
/// was seen, if that is later than `end`.
pub open spec fn later_end(
    end: Timestamp,
    changes: Seq<FileChangeView>,
    id: Seq<char>,
) -> Timestamp
    decreases changes.len(),
{
    if changes.len() == 0 {
        end
    } else {
        let before = later_end(end, changes.drop_last(), id);
        if changes.last().origin == id {
            later_of(before, changes.last().last_seen)
        } else {
            before
        }
    }
}

/// When a checkpoint that started at `start` ended: when the last change that
/// originates in it was seen, wherever that is shown.
pub open spec fn end_of(events: Seq<TrailEventView>, id: Seq<char>, start: Timestamp) -> Timestamp
    decreases events.len(),
{
    if events.len() == 0 {
        start
    } else {
        let before = end_of(events.drop_last(), id, start);
        let e = events.last();
        if dated_checkpoint(e) {
            later_end(before, e.event_type->changes, id)
        } else {
            before
        }
    }
}

/// Which recorded versions of a file are looked at.
#[derive(Debug, Clone, Copy)]
pub enum Versions {
    /// Those seen no later than a point in time.
    Until(Timestamp),
    /// Those moved into a checkpoint that started no later than a point in
    /// time, whenever they were seen.
    MovedInto(Timestamp),
}

/// A change shown in a checkpoint is one of the versions of a file looked at.
pub open spec fn is_version(
    e: TrailEventView,
    c: FileChangeView,
    p: Seq<char>,
    which: Versions,
) -> bool {
    path::same_path(c.path, p) && match which {
        Versions::Until(upto) => !earlier(upto, c.last_seen),
        Versions::MovedInto(start) => c.origin != e.event_type->Checkpoint_id && !earlier(
            start,
            e.timestamp->Some_0,
        ),
    }
}

/// The version of a file seen last among some changes shown in a checkpoint,
/// given the one seen last before them.
pub open spec fn latest_in(
    best: Option<FileChangeView>,
    e: TrailEventView,
    changes: Seq<FileChangeView>,
    p: Seq<char>,
    which: Versions,
) -> Option<FileChangeView>
    decreases changes.len(),
{
    if changes.len() == 0 {
        best
    } else {
        let before = latest_in(best, e, changes.drop_last(), p, which);
        let c = changes.last();
        if is_version(e, c, p, which) && (before is None || !earlier(
            c.last_seen,
            before->Some_0.last_seen,
        )) {
            Some(c)
        } else {
            before
        }
    }
}

/// The version of a file seen last, of those looked at.
pub open spec fn latest_change(
    events: Seq<TrailEventView>,
    p: Seq<char>,
    which: Versions,
) -> Option<FileChangeView>
    decreases events.len(),
{
    if events.len() == 0 {
        None
    } else {
        let before = latest_change(events.drop_last(), p, which);
        let e = events.last();
        if dated_checkpoint(e) {
            latest_in(before, e, e.event_type->changes, p, which)
        } else {
            before
        }
    }
}

/// The version of a file at a checkpoint that started at `start`: the latest one
/// seen up to its end. A file with none has the latest one that was moved into
/// the checkpoint, or into one that had started by then.
pub open spec fn version_at(
    events: Seq<TrailEventView>,
    p: Seq<char>,
    checkpoint: Seq<char>,
    start: Timestamp,
) -> Option<FileChangeView> {
    match latest_change(events, p, Versions::Until(end_of(events, checkpoint, start))) {
        Some(c) => Some(c),
        None => latest_change(events, p, Versions::MovedInto(start)),
    }
}

/// The content of a file when a checkpoint ended, by its hash.
pub open spec fn content_at(
    events: Seq<TrailEventView>,
    p: Seq<char>,
    checkpoint: Seq<char>,
) -> Result<Seq<char>, TrailErrorView> {
    match start_of(events, checkpoint) {
        None => Err(
            TrailErrorView::SnapshotUnavailable(
                "unknown checkpoint "@ + checkpoint + " on this branch (see `trail history`)"@,
            ),
        ),
        Some(start) => match version_at(events, p, checkpoint, start) {
            None => Err(
                TrailErrorView::SnapshotUnavailable(
                    p + " was not recorded in or before checkpoint "@ + checkpoint,
                ),
            ),
            Some(c) => match c.after_hash {
                None => Err(
                    TrailErrorView::SnapshotUnavailable(
                        p + " had been deleted by checkpoint "@ + checkpoint,
                    ),
                ),
                Some(h) => Ok(h),
            },
        },
    }
}

fn find_start(events: &Vec<TrailEvent>, id: &str) -> (r: Option<Timestamp>)
    ensures
        r == start_of(events.deep_view(), id@),
{
    let ghost all = events.deep_view();
    let mut k: usize = 0;
    assert(all.skip(0) =~= all);
    while k < events.len()
        invariant
            k <= events.len(),
            all == events.deep_view(),
            start_of(all, id@) == start_of(all.skip(k as int), id@),
        decreases events.len() - k,
    {
        assert(all.skip(k as int)[0] == events[k as int].deep_view());
        let same: bool = match &events[k].event_type {
            TrailEventType::Checkpoint {
                id: own,
                session_id: _,
                title: _,
                annotation: _,
                bulk: _,
                hidden: _,
                boundary: _,
                commit: _,
                attachment: _,
                changes: _,
            } => text::same(own, id),
            _ => false,
        };
        if same && events[k].timestamp.is_some() {
            return events[k].timestamp;
        }
        assert(all.skip(k as int).drop_first() =~= all.skip(k + 1));
        k += 1;
    }
    None
}

fn find_end(events: &Vec<TrailEvent>, id: &str, start: Timestamp) -> (r: Timestamp)
    ensures
        r == end_of(events.deep_view(), id@, start),
{
    let ghost all = events.deep_view();
    let mut end: Timestamp = start;
    let mut k: usize = 0;
    assert(all.take(0) =~= Seq::empty());
    while k < events.len()
        invariant
            k <= events.len(),
            all == events.deep_view(),
            end == end_of(all.take(k as int), id@, start),
        decreases events.len() - k,
    {
        proof {
            assert(all.take(k + 1).drop_last() =~= all.take(k as int));
            assert(all.take(k + 1).last() == events[k as int].deep_view());
        }
        match &events[k].event_type {
            TrailEventType::Checkpoint {
                id: _,
                session_id: _,
                title: _,
                annotation: _,
                bulk: _,
                hidden: _,
                boundary: _,
                commit: _,
                attachment: _,
                changes,
            } => {
                if events[k].timestamp.is_some() {
                    let ghost before = end;
                    let ghost cs = changes.deep_view();
                    let mut j: usize = 0;
                    assert(cs.take(0) =~= Seq::empty());
                    while j < changes.len()
                        invariant
                            j <= changes.len(),
                            cs == changes.deep_view(),
                            end == later_end(before, cs.take(j as int), id@),
                        decreases changes.len() - j,
                    {
                        proof {
                            assert(cs.take(j + 1).drop_last() =~= cs.take(j as int));
                            assert(cs.take(j + 1).last() == changes[j as int].deep_view());
                        }
                        if text::same(&changes[j].origin, id) {
                            end = end.later(&changes[j].last_seen);
                        }
                        j += 1;
                    }
                    assert(cs.take(j as int) =~= cs);
                }
            },
            _ => {},
        }
        k += 1;
    }
    assert(all.take(k as int) =~= all);
    end
}

fn find_latest(events: &Vec<TrailEvent>, p: &str, which: Versions) -> (r: Option<FileChange>)
    ensures
        r.deep_view() == latest_change(events.deep_view(), p@, which),
{
    let ghost all = events.deep_view();
    let mut best: Option<FileChange> = None;
    let mut k: usize = 0;
    assert(best.deep_view() == latest_change(all.take(0), p@, which));
    while k < events.len()
        invariant
            k <= events.len(),
            all == events.deep_view(),
            best.deep_view() == latest_change(all.take(k as int), p@, which),
        decreases events.len() - k,
    {
        proof {
            assert(all.take(k + 1).drop_last() =~= all.take(k as int));
            assert(all.take(k + 1).last() == events[k as int].deep_view());
        }
        match &events[k].event_type {
            TrailEventType::Checkpoint {
                id,
                session_id,
                title: _,
                annotation: _,
                bulk: _,
                hidden: _,
                boundary: _,
                commit: _,
                attachment: _,
                changes,
            } => {
                if let Some(started) = &events[k].timestamp {
                    let ghost before = best.deep_view();
                    let ghost cs = changes.deep_view();
                    let mut j: usize = 0;
                    assert(cs.take(0) =~= Seq::empty());
                    while j < changes.len()
                        invariant
                            j <= changes.len(),
                            cs == changes.deep_view(),
                            id@ == all[k as int].event_type->Checkpoint_id,
                            all[k as int].timestamp == Some(*started),
                            best.deep_view() == latest_in(
                                before,
                                all[k as int],
                                cs.take(j as int),
                                p@,
                                which,
                            ),
                        decreases changes.len() - j,
                    {
                        proof {
                            assert(cs.take(j + 1).drop_last() =~= cs.take(j as int));
                            assert(cs.take(j + 1).last() == changes[j as int].deep_view());
                        }
                        let wanted: bool = path::same(&changes[j].path, p) && match which {
                            Versions::Until(upto) => !upto.before(&changes[j].last_seen),
                            Versions::MovedInto(start) => {
                                !text::same(&changes[j].origin, id) && !start.before(started)
                            },
                        };
                        if wanted {
                            let newer: bool = match &best {
                                Some(b) => !changes[j].last_seen.before(&b.last_seen),
                                None => true,
                            };
                            if newer {
                                best = Some(changes[j].dup());
                            }
                        }
                        j += 1;
                    }
                    assert(cs.take(j as int) =~= cs);
                }
            },
            _ => {},
        }
        k += 1;
    }
    assert(all.take(k as int) =~= all);
    best
}

/// `trail open <file> --at <checkpoint>`: the hash of the file, given relative
/// to the repository root, as it was when that checkpoint ended: its latest
/// recorded version up to that point. A file recorded only later is restored
/// where it was moved into the checkpoint or one before it.
pub fn open_at(trail: &Trail, rel: &str, checkpoint: &str) -> (r: Result<String, TrailError>)
    ensures
        outcome(r) == content_at(trail.deep_view().events, rel@, checkpoint@),
{
    let start: Timestamp = match find_start(&trail.events, checkpoint) {
        Some(t) => t,
        None => {
            return Err(
                TrailError::SnapshotUnavailable(
                    text::cat3(
                        "unknown checkpoint ",
                        checkpoint,
                        " on this branch (see `trail history`)",
                    ),
                ),
            );
        },
    };
    let end: Timestamp = find_end(&trail.events, checkpoint, start);
    let version: Option<FileChange> = match find_latest(
        &trail.events,
        rel,
        Versions::Until(end),
    ) {
        Some(c) => Some(c),
        None => find_latest(&trail.events, rel, Versions::MovedInto(start)),
    };
    match version {
        None => Err(
            TrailError::SnapshotUnavailable(
                text::cat3(rel, " was not recorded in or before checkpoint ", checkpoint),
            ),
        ),
        Some(c) => match c.after_hash {
            None => Err(
                TrailError::SnapshotUnavailable(
                    text::cat3(rel, " had been deleted by checkpoint ", checkpoint),
                ),
            ),
            Some(h) => Ok(h),
        },
    }
}

/// What a snapshot that is not there is reported as.
pub fn no_snapshot(rel: &str, checkpoint: &str) -> (r: TrailError)
    ensures
        r.deep_view() == TrailErrorView::SnapshotUnavailable(
            "no snapshot for "@ + rel@ + " at "@ + checkpoint@
                + " (recorded before snapshot support, larger than "@ + text::decimal(
                (SNAPSHOT_MAX_BYTES / 1_048_576) as nat,
            ) + " MiB, or pruned)"@,
        ),
{
    TrailError::SnapshotUnavailable(
        text::cat7(
            "no snapshot for ",
            rel,
            " at ",
            checkpoint,
            " (recorded before snapshot support, larger than ",
            &text::decimal_of((SNAPSHOT_MAX_BYTES / 1_048_576) as u64),
            " MiB, or pruned)",
        ),
    )
}

/// A text with `_` for every character that `keep` does not hold of.
pub open spec fn masked(s: Seq<char>, keep: spec_fn(char) -> bool) -> Seq<char> {
    s.map_values(
        |c: char|
            if keep(c) {
                c
            } else {
                '_'
            },
    )
}

/// The name of the file an old version is restored to.
pub open spec fn restored_name(
    checkpoint: Seq<char>,
    pid: u32,
    rel: Seq<char>,
) -> Seq<char> {
    "trail-"@ + masked(checkpoint, |c: char| c != '/') + "-"@ + text::decimal(pid as nat) + "-"@
        + (match path::file_name(rel) {
        Some(n) => n,
        None => Seq::empty(),
    })
}

/// The name of the file an old version is restored to.
pub fn restored_file(checkpoint: &str, pid: u32, rel: &str) -> (r: String)
    ensures
        r@ == restored_name(checkpoint@, pid, rel@),
{
    let ghost keep = |c: char| c != '/';
    let v: Vec<char> = text::chars_of(checkpoint);
    let ghost want = masked(checkpoint@, keep);
    let mut safe: String = String::new();
    let mut k: usize = 0;
    while k < v.len()
        invariant
            k <= v.len(),
            v@ == checkpoint@,
            keep == (|c: char| c != '/'),
            want == masked(checkpoint@, keep),
            safe@ =~= want.take(k as int),
        decreases v.len() - k,
    {
        let ghost was = safe@;
        let c: char = if v[k] != '/' {
            v[k]
        } else {
            '_'
        };
        safe.push(c);
        assert(safe@ =~= was.push(want[k as int]));
        k += 1;
    }
    assert(want.take(k as int) =~= want);
    let name: String = match path::file_name_of(rel) {
        Some(n) => n,
        None => {
            let r: String = String::new();
            assert(r@ =~= Seq::empty());
            r
        },
    };
    text::cat6("trail-", &safe, "-", &text::decimal_of(pid as u64), "-", &name)
}

pub open spec fn is_safe(c: char) -> bool {
    text::is_alphanumeric(c) || c == '-' || c == '_'
}

/// The name of the buffer of a branch.
pub open spec fn scratch_name(branch: Seq<char>, pid: u32) -> Seq<char> {
    "trail-edit-"@ + masked(branch, |c: char| is_safe(c)) + "-"@ + text::decimal(pid as nat)
        + ".trail"@
}

/// The name of the buffer of a branch: only letters, digits, `-` and `_` of the
/// branch are kept.
pub fn scratch_path(branch: &str, pid: u32) -> (r: String)
    ensures
        r@ == scratch_name(branch@, pid),
{
    let ghost keep = |c: char| is_safe(c);
    let v: Vec<char> = text::chars_of(branch);
    let ghost want = masked(branch@, keep);
    let mut safe: String = String::new();
    let mut k: usize = 0;
    while k < v.len()
        invariant
            k <= v.len(),
            v@ == branch@,
            keep == (|c: char| is_safe(c)),
            want == masked(branch@, keep),
            safe@ =~= want.take(k as int),
        decreases v.len() - k,
    {
        let ghost was = safe@;
        let c: char = v[k];
        let fine: bool = ('0' <= c && c <= '9') || ('a' <= c && c <= 'z') || ('A' <= c && c <= 'Z')
            || c == '-' || c == '_';
        let c: char = if fine {
            c
        } else {
            '_'
        };
        safe.push(c);
        assert(safe@ =~= was.push(want[k as int]));
        k += 1;
    }
    assert(want.take(k as int) =~= want);
    text::cat5("trail-edit-", &safe, "-", &text::decimal_of(pid as u64), ".trail")
}

/// What `trail open <file>` does with a file given relative to the root.
#[derive(Debug, Clone, Copy, PartialEq, Eq, Structural)]
pub enum OpenStep {
    /// Write it to standard output.
    Print,
    /// Open it in the editor.
    Edit,
}

/// `trail open <file>`: the file as it is in the worktree, if it is there.
pub fn open_file(rel: &str, exists: bool, print: bool) -> (r: Result<OpenStep, TrailError>)
    ensures
        match r {
            Ok(step) => exists && step == (if print {
                OpenStep::Print
            } else {
                OpenStep::Edit
            }),
            Err(e) => !exists && e.deep_view() == TrailErrorView::FileNotFound(rel@),
        },
{
    if !exists {
        Err(TrailError::FileNotFound(rel.to_owned()))
    } else if print {
        Ok(OpenStep::Print)
    } else {
        Ok(OpenStep::Edit)
    }
}

// ---------------------------------------------------------------------------
// A file of a review
/// Where the content of a reviewed file comes from.
#[derive(Debug, Clone, PartialEq, Eq)]
pub enum OpenSource {
    /// The file as it was when a checkpoint ended.
    Snapshot {
        checkpoint_id: String,
        path: String,
    },
    /// The file as committed, by the id of its blob.
    Blob {
        id: String,
        path: String,
    },
    /// The file in the working tree.
    Worktree {
        path: String,
    },
}

/// What a [`OpenSource`] denotes.
#[verifier::ext_equal]
pub enum OpenSourceView {
    Snapshot {
        checkpoint_id: Seq<char>,
        path: Seq<char>,
    },
    Blob {
        id: Seq<char>,
        path: Seq<char>,
    },
    Worktree {
        path: Seq<char>,
    },
}

impl DeepView for OpenSource {
    type V = OpenSourceView;

    open spec fn deep_view(&self) -> OpenSourceView {
        match *self {
            OpenSource::Snapshot { checkpoint_id, path } => OpenSourceView::Snapshot {
                checkpoint_id: checkpoint_id.deep_view(),
                path: path.deep_view(),
            },
            OpenSource::Blob { id, path } => OpenSourceView::Blob {
                id: id.deep_view(),
                path: path.deep_view(),
            },
            OpenSource::Worktree { path } => OpenSourceView::Worktree {
                path: path.deep_view(),
            },
        }
    }
}

impl Dup for OpenSource {
    fn dup(&self) -> (r: OpenSource) {
        match self {
            OpenSource::Snapshot { checkpoint_id, path } => OpenSource::Snapshot {
                checkpoint_id: checkpoint_id.dup(),
                path: path.dup(),
            },
            OpenSource::Blob { id, path } => OpenSource::Blob {
                id: id.dup(),
                path: path.dup(),
            },
            OpenSource::Worktree { path } => OpenSource::Worktree {
                path: path.dup(),
            },
        }
    }
}

/// Where the content of `p`, at the end of what was selected, comes from.
pub open spec fn source_of(chosen: SelectedView, p: Seq<char>) -> Result<
    OpenSourceView,
    TrailErrorView,
> {
    match chosen {
        SelectedView::Checkpoint(c) => match checkpoint_file_at(c.files, p) {
            None => Err(not_in_checkpoint(p, c)),
            Some(_) => Ok(OpenSourceView::Snapshot { checkpoint_id: c.id, path: p }),
        },
        SelectedView::Section(ReviewSectionView::Commit(c)) => match commit_file_at(c.files, p) {
            None => Err(not_in_commit(p, c)),
            Some(f) => match f.after_id {
                Some(id) => Ok(OpenSourceView::Blob { id, path: p }),
                None => Err(
                    TrailErrorView::SnapshotUnavailable(
                        p + " had been deleted by commit "@ + c.short_id,
                    ),
                ),
            },
        },
        SelectedView::Section(ReviewSectionView::WorkingTree(_)) => Ok(
            OpenSourceView::Worktree { path: p },
        ),
    }
}

/// `trail review <selector> <file> --open`: where the content of the file, at
/// the end of what was selected, comes from.
pub fn open_selected(chosen: Selected<'_>, p: &str) -> (r: Result<OpenSource, TrailError>)
    ensures
        outcome(r) == source_of(chosen.deep_view(), p@),
{
    match chosen {
        Selected::Checkpoint(c) => match find_checkpoint_file(&c.files, p) {
            None => Err(missing_in_checkpoint(p, c)),
            Some(_) => Ok(
                OpenSource::Snapshot { checkpoint_id: c.id.dup(), path: p.to_owned() },
            ),
        },
        Selected::Section(ReviewSection::Commit(c)) => match find_commit_file(&c.files, p) {
            None => Err(missing_in_commit(p, c)),
            Some(f) => match blob_at_commit(f) {
                Some(id) => Ok(OpenSource::Blob { id, path: p.to_owned() }),
                None => Err(
                    TrailError::SnapshotUnavailable(
                        text::cat3(p, " had been deleted by commit ", &c.short_id),
                    ),
                ),
            },
        },
        Selected::Section(ReviewSection::WorkingTree(_)) => Ok(
            OpenSource::Worktree { path: p.to_owned() },
        ),
    }
}

/// Where the content of what the browser wants to open comes from.
pub open spec fn target_source(review: WorktreeReviewView, target: OpenTargetView) -> Result<
    OpenSourceView,
    TrailErrorView,
> {
    match target {
        OpenTargetView::Snapshot { checkpoint_id, path } => Ok(
            OpenSourceView::Snapshot { checkpoint_id, path },
        ),
        OpenTargetView::WorktreeFile { path } => Ok(OpenSourceView::Worktree { path }),
        OpenTargetView::CommitFile { section, path } => match section_at(
            review.sections,
            section as int,
        ) {
            None => Err(no_section(section as int)),
            Some(s) => source_of(SelectedView::Section(s), path),
        },
    }
}

/// Where the content of what the browser wants to open comes from.
pub fn open_target(review: &WorktreeReview, target: &OpenTarget) -> (r: Result<
    OpenSource,
    TrailError,
>)
    ensures
        outcome(r) == target_source(review.deep_view(), target.deep_view()),
{
    match target {
        OpenTarget::Snapshot { checkpoint_id, path } => Ok(
            OpenSource::Snapshot { checkpoint_id: checkpoint_id.dup(), path: path.dup() },
        ),
        OpenTarget::WorktreeFile { path } => Ok(OpenSource::Worktree { path: path.dup() }),
        OpenTarget::CommitFile { section, path } => match find_section(
            &review.sections,
            *section,
        ) {
            None => Err(
                TrailError::InvalidSelection(
                    text::cat3(
                        "section ",
                        &text::decimal_of(*section as u64),
                        " does not exist",
                    ),
                ),
            ),
            Some(s) => open_selected(Selected::Section(s), path),
        },
    }
}

// ---------------------------------------------------------------------------
// The steps of an edit
/// What `trail edit` does first.
#[derive(Debug, Clone, Copy, PartialEq, Eq, Structural)]
pub enum EditStep {
    /// Show the buffer.
    Show,
    /// Apply a buffer from a file.
    ReadFile,
    /// There is nothing to edit.
    Nothing,
    /// Hand the buffer to the editor.
    OpenEditor,
}

pub open spec fn first_step_of(print: bool, from: bool, empty: bool) -> EditStep {
    if print {
        EditStep::Show
    } else if from {
        EditStep::ReadFile
    } else if empty {
        EditStep::Nothing
    } else {
        EditStep::OpenEditor
    }
}

/// What `trail edit` does first: `print` and `from` are what was asked for.
pub fn first_step(document: &Document, from: bool, print: bool) -> (r: EditStep)
    ensures
        r == first_step_of(print, from, document.deep_view().blocks.len() == 0),
{
    if print {
        EditStep::Show
    } else if from {
        EditStep::ReadFile
    } else if document.blocks.len() == 0 {
        EditStep::Nothing
    } else {
        EditStep::OpenEditor
    }
}

/// Parse, validate and fold an edited buffer into the metadata, which is only
/// changed when every check passed.
pub fn apply(document: &Document, edited_text: &str, metadata: &mut Metadata) -> (r: Result<
    EditSummary,
    TrailError,
>)
    requires
        super::merge::complete(document.deep_view()),
    ensures
        match edit_refusal(document.deep_view(), edited_text@) {
            Some(e) => r is Err && r->Err_0.deep_view() == e && *final(metadata) == *old(metadata),
            None => r is Ok && complete_edit(
                r->Ok_0,
                document.deep_view(),
                edited_text@,
                old(metadata).deep_view(),
                final(metadata).deep_view(),
            ),
        },
{
    match parse(edited_text) {
        Err(e) => Err(e),
        Ok(blocks) => diff(document, &blocks, metadata),
    }
}

// ---------------------------------------------------------------------------
// What holds of every restored file
/// Change `j` of event `i` is a version of `p` of those looked at.
pub open spec fn recorded_by(
    events: Seq<TrailEventView>,
    p: Seq<char>,
    which: Versions,
    i: int,
    j: int,
) -> bool {
    &&& 0 <= i < events.len()
    &&& dated_checkpoint(events[i])
    &&& 0 <= j < events[i].event_type->changes.len()
    &&& is_version(events[i], events[i].event_type->changes[j], p, which)
}

proof fn lemma_latest_in(
    best: Option<FileChangeView>,
    e: TrailEventView,
    changes: Seq<FileChangeView>,
    p: Seq<char>,
    which: Versions,
)
    ensures
        best is Some ==> latest_in(best, e, changes, p, which) is Some && !earlier(
            latest_in(best, e, changes, p, which)->Some_0.last_seen,
            best->Some_0.last_seen,
        ),
        forall|j: int|
            0 <= j < changes.len() && is_version(e, #[trigger] changes[j], p, which) ==> {
                &&& latest_in(best, e, changes, p, which) is Some
                &&& !earlier(
                    latest_in(best, e, changes, p, which)->Some_0.last_seen,
                    changes[j].last_seen,
                )
            },
        latest_in(best, e, changes, p, which) == best || exists|j: int|
            0 <= j < changes.len() && is_version(e, #[trigger] changes[j], p, which) && latest_in(
                best,
                e,
                changes,
                p,
                which,
            ) == Some(changes[j]),
    decreases changes.len(),
{
    if changes.len() > 0 {
        let rest = changes.drop_last();
        let before = latest_in(best, e, rest, p, which);
        let after = latest_in(best, e, changes, p, which);
        lemma_latest_in(best, e, rest, p, which);
        assert forall|j: int|
            0 <= j < changes.len() && is_version(e, #[trigger] changes[j], p, which) implies {
            &&& after is Some
            &&& !earlier(after->Some_0.last_seen, changes[j].last_seen)
        } by {
            if j < rest.len() {
                assert(rest[j] == changes[j]);
            }
        }
        if after == before {
            if before != best {
                let j = choose|j: int|
                    0 <= j < rest.len() && is_version(e, #[trigger] rest[j], p, which) && before
                        == Some(rest[j]);
                assert(changes[j] == rest[j]);
            }
        } else {
            assert(after == Some(changes[changes.len() - 1]));
        }
    }
}

/// The version of a file that is restored is a recorded one of those looked at,
/// and no such version was seen later.
pub proof fn lemma_restored_version_is_latest(
    events: Seq<TrailEventView>,
    p: Seq<char>,
    which: Versions,
)
    ensures
        forall|i: int, j: int| #[trigger]
            recorded_by(events, p, which, i, j) ==> {
                &&& latest_change(events, p, which) is Some
                &&& !earlier(
                    latest_change(events, p, which)->Some_0.last_seen,
                    events[i].event_type->changes[j].last_seen,
                )
            },
        latest_change(events, p, which) is Some ==> exists|i: int, j: int| #[trigger]
            recorded_by(events, p, which, i, j) && latest_change(events, p, which) == Some(
                events[i].event_type->changes[j],
            ),
    decreases events.len(),
{
    if events.len() > 0 {
        let rest = events.drop_last();
        let n = rest.len() as int;
        let e = events.last();
        let before = latest_change(rest, p, which);
        let after = latest_change(events, p, which);
        lemma_restored_version_is_latest(rest, p, which);
        if dated_checkpoint(e) {
            lemma_latest_in(before, e, e.event_type->changes, p, which);
        }
        assert forall|i: int, j: int| #[trigger] recorded_by(events, p, which, i, j) implies {
            &&& after is Some
            &&& !earlier(after->Some_0.last_seen, events[i].event_type->changes[j].last_seen)
        } by {
            if i < n {
                assert(rest[i] == events[i]);
                assert(recorded_by(rest, p, which, i, j));
            } else {
                assert(events[i] == e);
                assert(is_version(e, e.event_type->changes[j], p, which));
            }
        }
        if after is Some {
            if after == before {
                let (i, j) = choose|i: int, j: int| #[trigger]
                    recorded_by(rest, p, which, i, j) && before == Some(
                        rest[i].event_type->changes[j],
                    );
                assert(rest[i] == events[i]);
                assert(recorded_by(events, p, which, i, j));
            } else {
                let j = choose|j: int|
                    0 <= j < e.event_type->changes.len() && is_version(
                        e,
                        #[trigger] e.event_type->changes[j],
                        p,
                        which,
                    ) && after == Some(e.event_type->changes[j]);
                assert(events[n] == e);
                assert(recorded_by(events, p, which, n, j));
            }
        }
    }
}

proof fn lemma_later_end(end: Timestamp, changes: Seq<FileChangeView>, id: Seq<char>)
    ensures
        !earlier(later_end(end, changes, id), end),
        forall|j: int|
            0 <= j < changes.len() && (#[trigger] changes[j]).origin == id ==> !earlier(
                later_end(end, changes, id),
                changes[j].last_seen,
            ),
    decreases changes.len(),
{
    if changes.len() > 0 {
        let rest = changes.drop_last();
        lemma_later_end(end, rest, id);
        assert forall|j: int| 0 <= j < changes.len() && (#[trigger] changes[j]).origin
            == id implies !earlier(later_end(end, changes, id), changes[j].last_seen) by {
            if j < rest.len() {
                assert(rest[j] == changes[j]);
            }
        }
    }
}

/// A checkpoint ends no earlier than it starts, and no earlier than any change
/// that originates in it was seen, wherever that change is shown.
pub proof fn lemma_checkpoints_end_after_their_changes(
    events: Seq<TrailEventView>,
    id: Seq<char>,
    start: Timestamp,
)
    ensures
        !earlier(end_of(events, id, start), start),
        forall|i: int, j: int|
            0 <= i < events.len() && dated_checkpoint(events[i]) && 0 <= j
                < events[i].event_type->changes.len() && (
            #[trigger] events[i].event_type->changes[j]).origin == id ==> !earlier(
                end_of(events, id, start),
                events[i].event_type->changes[j].last_seen,
            ),
    decreases events.len(),
{
    if events.len() > 0 {
        let rest = events.drop_last();
        let e = events.last();
        let before = end_of(rest, id, start);
        lemma_checkpoints_end_after_their_changes(rest, id, start);
        if dated_checkpoint(e) {
            lemma_later_end(before, e.event_type->changes, id);
        }
        assert forall|i: int, j: int|
            0 <= i < events.len() && dated_checkpoint(events[i]) && 0 <= j
                < events[i].event_type->changes.len() && (
            #[trigger] events[i].event_type->changes[j]).origin == id implies !earlier(
            end_of(events, id, start),
            events[i].event_type->changes[j].last_seen,
        ) by {
            if i < rest.len() {
                assert(rest[i] == events[i]);
                assert(rest[i].event_type->changes[j].origin == id);
            } else {
                assert(events[i] == e);
                assert(e.event_type->changes[j].origin == id);
            }
        }
    }
}

/// A file that a checkpoint shows has a version at that checkpoint, also where
/// its only change was seen later and moved there: it is restored, unless that
/// version is its deletion.
pub proof fn lemma_shown_files_are_restored(events: Seq<TrailEventView>, i: int, j: int)
    requires
        0 <= i < events.len(),
        dated_checkpoint(events[i]),
        start_of(events, events[i].event_type->Checkpoint_id) == events[i].timestamp,
        0 <= j < events[i].event_type->changes.len(),
    ensures
        ({
            let id = events[i].event_type->Checkpoint_id;
            let p = events[i].event_type->changes[j].path;
            let version = version_at(events, p, id, events[i].timestamp->Some_0);
            &&& version is Some
            &&& match version->Some_0.after_hash {
                Some(h) => content_at(events, p, id) == Ok::<Seq<char>, TrailErrorView>(h),
                None => content_at(events, p, id) == Err::<Seq<char>, TrailErrorView>(
                    TrailErrorView::SnapshotUnavailable(
                        p + " had been deleted by checkpoint "@ + id,
                    ),
                ),
            }
        }),
{
    let id = events[i].event_type->Checkpoint_id;
    let start = events[i].timestamp->Some_0;
    let c = events[i].event_type->changes[j];
    let until = Versions::Until(end_of(events, id, start));
    let moved = Versions::MovedInto(start);
    if c.origin == id {
        lemma_checkpoints_end_after_their_changes(events, id, start);
        lemma_restored_version_is_latest(events, c.path, until);
        assert(recorded_by(events, c.path, until, i, j));
    } else {
        lemma_restored_version_is_latest(events, c.path, moved);
        assert(recorded_by(events, c.path, moved, i, j));
    }
}

} // verus!
