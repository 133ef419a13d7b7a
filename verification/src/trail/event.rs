//! `TrailEvent`: the unit of a Development Trail.

use crate::data::{Dup, Same};
use crate::git::diff::LineStats;
use crate::recorder::checkpoint::{CommitBoundary, CommitBoundaryView, FileChange, FileChangeView};
use crate::time::Timestamp;
use vstd::prelude::*;

verus! {

#[derive(Debug, Clone, PartialEq, Eq)]
pub enum TrailEventType {
    FileAdded,
    FileModified,
    FileDeleted,
    FileRenamed {
        from: String,
    },
    Commit {
        id: String,
        short_id: String,
        summary: String,
        author: String,
        /// Merge commits are shown but their file list is relative to the first parent.
        is_merge: bool,
    },
    /// A HEAD movement recorded in the reflog that is not a plain commit
    /// (checkout, rebase, reset, amend, merge, cherry-pick, ...).
    RefUpdate {
        action: String,
        message: String,
    },
    /// A group of changes observed by `trail start`, with any human edits
    /// from the metadata overlay applied.
    Checkpoint {
        id: String,
        session_id: String,
        title: Option<String>,
        annotation: Option<String>,
        bulk: bool,
        hidden: bool,
        /// The HEAD movement the recorder saw after this checkpoint, if any.
        boundary: Option<CommitBoundary>,
        /// The reviewed commit this checkpoint was work towards; `None` means
        /// it is still uncommitted (working tree).
        commit: Option<String>,
        attachment: Option<Attachment>,
        changes: Vec<FileChange>,
    },
}

/// Where the event was reconstructed from.
#[derive(Debug, Clone, Copy, PartialEq, Eq, Structural)]
pub enum EventSource {
    GitCommit,
    GitReflog,
    WorkingTree,
    Filesystem,
    /// Observed live by `trail start`.
    TrailRecorder,
}

/// How much to trust the *timestamp and ordering* of an event.
///
/// The change itself is always real (it was read from git or the disk); what
/// may be inferred is *when* it happened. Commit and reflog times are exact.
/// A working tree change only has the file's mtime, which is a lower bound at
/// best: an editor, a checkout or a formatter can rewrite it at any time.
#[derive(Debug, Clone, Copy, PartialEq, Eq, Structural)]
pub enum Confidence {
    Exact,
    Inferred,
}

/// How a checkpoint was tied to its commit.
#[derive(Debug, Clone, Copy, PartialEq, Eq, Structural)]
pub enum Attachment {
    /// The recorder watched the commit being made.
    Recorded,
    /// Matched by author time or by order in time.
    Inferred,
}

impl DeepView for EventSource {
    type V = EventSource;

    open spec fn deep_view(&self) -> EventSource {
        *self
    }
}

impl Dup for EventSource {
    fn dup(&self) -> (r: EventSource) {
        *self
    }
}

impl Same for EventSource {
    fn same(&self, other: &EventSource) -> (r: bool) {
        *self == *other
    }
}

impl DeepView for Confidence {
    type V = Confidence;

    open spec fn deep_view(&self) -> Confidence {
        *self
    }
}

impl Dup for Confidence {
    fn dup(&self) -> (r: Confidence) {
        *self
    }
}

impl Same for Confidence {
    fn same(&self, other: &Confidence) -> (r: bool) {
        *self == *other
    }
}

impl DeepView for Attachment {
    type V = Attachment;

    open spec fn deep_view(&self) -> Attachment {
        *self
    }
}

impl Dup for Attachment {
    fn dup(&self) -> (r: Attachment) {
        *self
    }
}

impl Same for Attachment {
    fn same(&self, other: &Attachment) -> (r: bool) {
        *self == *other
    }
}
#[derive(Debug, Clone, PartialEq, Eq)]
pub struct TrailEvent {
    /// `None` when nothing on disk records a time (e.g. a deleted file).
    pub timestamp: Option<Timestamp>,
    pub event_type: TrailEventType,
    pub files: Vec<String>,
    pub source: EventSource,
    pub confidence: Confidence,
    pub stats: Option<LineStats>,
    /// Staging state for working tree events: true = staged, false = unstaged,
    /// None = not applicable (commits, untracked files, reflog).
    pub staged: Option<bool>,
}

/// What a [`TrailEventType`] denotes.
#[verifier::ext_equal]
pub enum TrailEventTypeView {
    FileAdded,
    FileModified,
    FileDeleted,
    FileRenamed {
        from: Seq<char>,
    },
    Commit {
        id: Seq<char>,
        short_id: Seq<char>,
        summary: Seq<char>,
        author: Seq<char>,
        is_merge: bool,
    },
    RefUpdate {
        action: Seq<char>,
        message: Seq<char>,
    },
    Checkpoint {
        id: Seq<char>,
        session_id: Seq<char>,
        title: Option<Seq<char>>,
        annotation: Option<Seq<char>>,
        bulk: bool,
        hidden: bool,
        boundary: Option<CommitBoundaryView>,
        commit: Option<Seq<char>>,
        attachment: Option<Attachment>,
        changes: Seq<FileChangeView>,
    },
}

impl DeepView for TrailEventType {
    type V = TrailEventTypeView;

    open spec fn deep_view(&self) -> TrailEventTypeView {
        match *self {
            TrailEventType::FileAdded => TrailEventTypeView::FileAdded,
            TrailEventType::FileModified => TrailEventTypeView::FileModified,
            TrailEventType::FileDeleted => TrailEventTypeView::FileDeleted,
            TrailEventType::FileRenamed { from } => TrailEventTypeView::FileRenamed {
                from: from.deep_view(),
            },
            TrailEventType::Commit { id, short_id, summary, author, is_merge } => TrailEventTypeView::Commit {
                id: id.deep_view(),
                short_id: short_id.deep_view(),
                summary: summary.deep_view(),
                author: author.deep_view(),
                is_merge: is_merge.deep_view(),
            },
            TrailEventType::RefUpdate { action, message } => TrailEventTypeView::RefUpdate {
                action: action.deep_view(),
                message: message.deep_view(),
            },
            TrailEventType::Checkpoint { id, session_id, title, annotation, bulk, hidden, boundary, commit, attachment, changes } => TrailEventTypeView::Checkpoint {
                id: id.deep_view(),
                session_id: session_id.deep_view(),
                title: title.deep_view(),
                annotation: annotation.deep_view(),
                bulk: bulk.deep_view(),
                hidden: hidden.deep_view(),
                boundary: boundary.deep_view(),
                commit: commit.deep_view(),
                attachment: attachment.deep_view(),
                changes: changes.deep_view(),
            },
        }
    }
}

impl Dup for TrailEventType {
    fn dup(&self) -> (r: TrailEventType) {
        match self {
            TrailEventType::FileAdded => TrailEventType::FileAdded,
            TrailEventType::FileModified => TrailEventType::FileModified,
            TrailEventType::FileDeleted => TrailEventType::FileDeleted,
            TrailEventType::FileRenamed { from } => TrailEventType::FileRenamed {
                from: from.dup(),
            },
            TrailEventType::Commit { id, short_id, summary, author, is_merge } => TrailEventType::Commit {
                id: id.dup(),
                short_id: short_id.dup(),
                summary: summary.dup(),
                author: author.dup(),
                is_merge: is_merge.dup(),
            },
            TrailEventType::RefUpdate { action, message } => TrailEventType::RefUpdate {
                action: action.dup(),
                message: message.dup(),
            },
            TrailEventType::Checkpoint { id, session_id, title, annotation, bulk, hidden, boundary, commit, attachment, changes } => TrailEventType::Checkpoint {
                id: id.dup(),
                session_id: session_id.dup(),
                title: title.dup(),
                annotation: annotation.dup(),
                bulk: bulk.dup(),
                hidden: hidden.dup(),
                boundary: boundary.dup(),
                commit: commit.dup(),
                attachment: attachment.dup(),
                changes: changes.dup(),
            },
        }
    }
}

/// What a [`TrailEvent`] denotes.
#[verifier::ext_equal]
pub struct TrailEventView {
    pub timestamp: Option<Timestamp>,
    pub event_type: TrailEventTypeView,
    pub files: Seq<Seq<char>>,
    pub source: EventSource,
    pub confidence: Confidence,
    pub stats: Option<LineStats>,
    pub staged: Option<bool>,
}

impl DeepView for TrailEvent {
    type V = TrailEventView;

    open spec fn deep_view(&self) -> TrailEventView {
        TrailEventView {
            timestamp: self.timestamp.deep_view(),
            event_type: self.event_type.deep_view(),
            files: self.files.deep_view(),
            source: self.source.deep_view(),
            confidence: self.confidence.deep_view(),
            stats: self.stats.deep_view(),
            staged: self.staged.deep_view(),
        }
    }
}

impl Dup for TrailEvent {
    fn dup(&self) -> (r: TrailEvent) {
        TrailEvent {
            timestamp: self.timestamp.dup(),
            event_type: self.event_type.dup(),
            files: self.files.dup(),
            source: self.source.dup(),
            confidence: self.confidence.dup(),
            stats: self.stats.dup(),
            staged: self.staged.dup(),
        }
    }
}

impl TrailEventView {
    /// Whether the event counts as a "change" in summaries.
    pub open spec fn changes_something(self) -> bool {
        !(self.event_type is RefUpdate)
    }
}

impl TrailEvent {
    /// Whether the event counts as a "change" in summaries.
    pub fn is_change(&self) -> (r: bool)
        ensures
            r == self.deep_view().changes_something(),
    {
        match &self.event_type {
            TrailEventType::RefUpdate { action: _, message: _ } => false,
            _ => true,
        }
    }
}

} // verus!
