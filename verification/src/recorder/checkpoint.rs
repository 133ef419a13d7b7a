//! Raw events → checkpoints.
//!
//! A checkpoint is what a human should see: "between 13:02 and 13:08 these
//! files changed". It is derived, never stored; the raw log stays the only
//! source of truth and this module can be re-run with different constants.

use super::store::{RawEvent, RawEventKind, RawEventView, Record, RecordView};
use crate::data::{Dup, Same};
use crate::order::Order;
use crate::path;
use crate::text;
use crate::time::{earlier, gap, later_of, Timestamp};
use crate::trail::event::{Confidence, EventSource};
use vstd::prelude::*;

verus! {

/// Consecutive events on the same path closer than this many nanoseconds are
/// one edit.
pub const DEBOUNCE: i128 = 500_000_000;

/// A gap of more nanoseconds than this between events starts a new checkpoint.
pub const WINDOW: i128 = 30_000_000_000;

/// Checkpoints touching more files than this are flagged `bulk` so the
/// display can collapse them (formatters, generated code, ...).
pub const BULK_THRESHOLD: usize = 20;

#[derive(Debug, Clone, Copy, PartialEq, Eq, Structural)]
pub enum ChangeKind {
    Created,
    Modified,
    Deleted,
    Renamed,
}

#[derive(Debug, Clone, PartialEq, Eq)]
pub struct FileChange {
    /// Id of the checkpoint the recorder put this change in. Stays the same
    /// when a human moves the change to another checkpoint, so overlay edits
    /// can always be traced back to the raw log.
    pub origin: String,
    pub path: String,
    pub kind: ChangeKind,
    pub from_path: Option<String>,
    pub before_hash: Option<String>,
    pub after_hash: Option<String>,
    pub first_seen: Timestamp,
    pub last_seen: Timestamp,
    /// Number of debounced edits folded into this change.
    pub edits: u32,
}

/// The HEAD movement the recorder observed right after a checkpoint. Only a
/// movement whose `to_head` has `from_head` as first parent is a commit; a
/// checkout, reset or rebase looks the same here and is told apart later,
/// with the repository at hand.
#[derive(Debug, Clone, PartialEq, Eq)]
pub struct CommitBoundary {
    pub from_head: String,
    pub to_head: String,
}

#[derive(Debug, Clone, PartialEq, Eq)]
pub struct Checkpoint {
    pub id: String,
    pub session_id: String,
    pub started_at: Timestamp,
    pub ended_at: Timestamp,
    pub changes: Vec<FileChange>,
    pub bulk: bool,
    /// The HEAD movement that closed this checkpoint's run of work, when the
    /// recorder saw one before the session ended.
    pub boundary: Option<CommitBoundary>,
    pub source: EventSource,
    pub confidence: Confidence,
    /// Human supplied, via the metadata overlay (`trail edit`).
    pub title: Option<String>,
    pub hidden: bool,
    pub annotation: Option<String>,
}

impl DeepView for ChangeKind {
    type V = ChangeKind;

    open spec fn deep_view(&self) -> ChangeKind {
        *self
    }
}

impl Dup for ChangeKind {
    fn dup(&self) -> (r: ChangeKind) {
        *self
    }
}

impl Same for ChangeKind {
    fn same(&self, other: &ChangeKind) -> (r: bool) {
        *self == *other
    }
}

/// What a [`FileChange`] denotes.
#[verifier::ext_equal]
pub struct FileChangeView {
    pub origin: Seq<char>,
    pub path: Seq<char>,
    pub kind: ChangeKind,
    pub from_path: Option<Seq<char>>,
    pub before_hash: Option<Seq<char>>,
    pub after_hash: Option<Seq<char>>,
    pub first_seen: Timestamp,
    pub last_seen: Timestamp,
    pub edits: u32,
}

impl DeepView for FileChange {
    type V = FileChangeView;

    open spec fn deep_view(&self) -> FileChangeView {
        FileChangeView {
            origin: self.origin.deep_view(),
            path: self.path.deep_view(),
            kind: self.kind.deep_view(),
            from_path: self.from_path.deep_view(),
            before_hash: self.before_hash.deep_view(),
            after_hash: self.after_hash.deep_view(),
            first_seen: self.first_seen.deep_view(),
            last_seen: self.last_seen.deep_view(),
            edits: self.edits.deep_view(),
        }
    }
}

impl Dup for FileChange {
    fn dup(&self) -> (r: FileChange) {
        FileChange {
            origin: self.origin.dup(),
            path: self.path.dup(),
            kind: self.kind.dup(),
            from_path: self.from_path.dup(),
            before_hash: self.before_hash.dup(),
            after_hash: self.after_hash.dup(),
            first_seen: self.first_seen.dup(),
            last_seen: self.last_seen.dup(),
            edits: self.edits.dup(),
        }
    }
}

/// What a [`CommitBoundary`] denotes.
#[verifier::ext_equal]
pub struct CommitBoundaryView {
    pub from_head: Seq<char>,
    pub to_head: Seq<char>,
}

impl DeepView for CommitBoundary {
    type V = CommitBoundaryView;

    open spec fn deep_view(&self) -> CommitBoundaryView {
        CommitBoundaryView {
            from_head: self.from_head.deep_view(),
            to_head: self.to_head.deep_view(),
        }
    }
}

impl Dup for CommitBoundary {
    fn dup(&self) -> (r: CommitBoundary) {
        CommitBoundary {
            from_head: self.from_head.dup(),
            to_head: self.to_head.dup(),
        }
    }
}

impl Same for CommitBoundary {
    fn same(&self, other: &CommitBoundary) -> (r: bool) {
        self.from_head.same(&other.from_head) && self.to_head.same(&other.to_head)
    }
}

/// What a [`Checkpoint`] denotes.
#[verifier::ext_equal]
pub struct CheckpointView {
    pub id: Seq<char>,
    pub session_id: Seq<char>,
    pub started_at: Timestamp,
    pub ended_at: Timestamp,
    pub changes: Seq<FileChangeView>,
    pub bulk: bool,
    pub boundary: Option<CommitBoundaryView>,
    pub source: EventSource,
    pub confidence: Confidence,
    pub title: Option<Seq<char>>,
    pub hidden: bool,
    pub annotation: Option<Seq<char>>,
}

impl DeepView for Checkpoint {
    type V = CheckpointView;

    open spec fn deep_view(&self) -> CheckpointView {
        CheckpointView {
            id: self.id.deep_view(),
            session_id: self.session_id.deep_view(),
            started_at: self.started_at.deep_view(),
            ended_at: self.ended_at.deep_view(),
            changes: self.changes.deep_view(),
            bulk: self.bulk.deep_view(),
            boundary: self.boundary.deep_view(),
            source: self.source.deep_view(),
            confidence: self.confidence.deep_view(),
            title: self.title.deep_view(),
            hidden: self.hidden.deep_view(),
            annotation: self.annotation.deep_view(),
        }
    }
}

impl Dup for Checkpoint {
    fn dup(&self) -> (r: Checkpoint) {
        Checkpoint {
            id: self.id.dup(),
            session_id: self.session_id.dup(),
            started_at: self.started_at.dup(),
            ended_at: self.ended_at.dup(),
            changes: self.changes.dup(),
            bulk: self.bulk.dup(),
            boundary: self.boundary.dup(),
            source: self.source.dup(),
            confidence: self.confidence.dup(),
            title: self.title.dup(),
            hidden: self.hidden.dup(),
            annotation: self.annotation.dup(),
        }
    }
}

impl ChangeKind {
    /// One-character marker used in file lists: `+ ~ - >`.
    pub open spec fn mark_text(self) -> Seq<char> {
        match self {
            ChangeKind::Created => "+"@,
            ChangeKind::Modified => "~"@,
            ChangeKind::Deleted => "-"@,
            ChangeKind::Renamed => ">"@,
        }
    }

    /// One-character marker used in file lists: `+ ~ - >`.
    pub fn mark(self) -> (r: &'static str)
        ensures
            r@ == self.mark_text(),
    {
        match self {
            ChangeKind::Created => "+",
            ChangeKind::Modified => "~",
            ChangeKind::Deleted => "-",
            ChangeKind::Renamed => ">",
        }
    }
}

/// The kind of change a raw event is.
pub open spec fn kind_of(kind: RawEventKind) -> ChangeKind {
    match kind {
        RawEventKind::Created => ChangeKind::Created,
        RawEventKind::Modified => ChangeKind::Modified,
        RawEventKind::Deleted => ChangeKind::Deleted,
        RawEventKind::Renamed => ChangeKind::Renamed,
    }
}

impl From<RawEventKind> for ChangeKind {
    fn from(kind: RawEventKind) -> (r: ChangeKind) {
        match kind {
            RawEventKind::Created => ChangeKind::Created,
            RawEventKind::Modified => ChangeKind::Modified,
            RawEventKind::Deleted => ChangeKind::Deleted,
            RawEventKind::Renamed => ChangeKind::Renamed,
        }
    }
}

impl vstd::std_specs::convert::FromSpecImpl<RawEventKind> for ChangeKind {
    open spec fn obeys_from_spec() -> bool {
        true
    }

    open spec fn from_spec(kind: RawEventKind) -> ChangeKind {
        kind_of(kind)
    }
}

// ---------------------------------------------------------------------------
// What checkpoints are
/// One raw event as a change of its own, not yet in a checkpoint.
pub open spec fn change_of(event: RawEventView) -> FileChangeView {
    FileChangeView {
        origin: Seq::empty(),
        path: event.path,
        kind: kind_of(event.kind),
        from_path: event.from_path,
        before_hash: event.before_hash,
        after_hash: event.after_hash,
        first_seen: event.timestamp,
        last_seen: event.timestamp,
        edits: 1,
    }
}

/// The kind of a change that a later change of the same path continues.
///
/// What was created or renamed stays so until it is deleted; a file deleted
/// and created again was modified.
pub open spec fn folded_kind(earlier: ChangeKind, later: ChangeKind) -> ChangeKind {
    if later == ChangeKind::Deleted {
        ChangeKind::Deleted
    } else if earlier == ChangeKind::Created || earlier == ChangeKind::Renamed {
        earlier
    } else if later == ChangeKind::Renamed {
        ChangeKind::Renamed
    } else if earlier == ChangeKind::Deleted && later == ChangeKind::Created {
        ChangeKind::Modified
    } else {
        earlier
    }
}

/// A change and a later one of the same path, as one change: from the content
/// before the first to the content after the second.
pub open spec fn folded(into: FileChangeView, later: FileChangeView) -> FileChangeView {
    FileChangeView {
        kind: folded_kind(into.kind, later.kind),
        from_path: if later.kind == ChangeKind::Renamed && (into.kind == ChangeKind::Modified
            || into.kind == ChangeKind::Deleted) {
            later.from_path
        } else {
            into.from_path
        },
        after_hash: later.after_hash,
        last_seen: later.last_seen,
        edits: (into.edits + later.edits) as u32,
        ..into
    }
}

/// The changes in a run of events, bursts on one path folded into one.
pub open spec fn debounced(events: Seq<RawEventView>) -> Seq<FileChangeView>
    decreases events.len(),
{
    if events.len() == 0 {
        Seq::empty()
    } else {
        let before = debounced(events.drop_last());
        let change = change_of(events.last());
        if before.len() > 0 && path::same_path(before.last().path, change.path) && gap(
            before.last().last_seen,
            change.first_seen,
        ) < DEBOUNCE {
            before.drop_last().push(folded(before.last(), change))
        } else {
            before.push(change)
        }
    }
}

/// The position of the first change of `p`; their number when there is none.
pub open spec fn find_path(changes: Seq<FileChangeView>, p: Seq<char>) -> int
    decreases changes.len(),
{
    if changes.len() == 0 || path::same_path(changes[0].path, p) {
        0
    } else {
        1 + find_path(changes.drop_first(), p)
    }
}

/// The id of the `index`-th checkpoint of a session.
pub open spec fn checkpoint_id(session_id: Seq<char>, index: nat) -> Seq<char> {
    session_id + "."@ + text::decimal(index)
}

/// Where the last dot of a text stands; before its start when there is none.
pub open spec fn last_dot(s: Seq<char>) -> int
    decreases s.len(),
{
    if s.len() == 0 {
        -1
    } else if s.last() == '.' {
        s.len() - 1
    } else {
        last_dot(s.drop_last())
    }
}

/// The session that a checkpoint id names.
pub open spec fn id_session(id: Seq<char>) -> Seq<char> {
    if last_dot(id) < 0 {
        id
    } else {
        id.take(last_dot(id))
    }
}

/// The index that a checkpoint id names.
pub open spec fn id_index(id: Seq<char>) -> Option<nat> {
    if last_dot(id) < 0 {
        None
    } else {
        match text::number_value(id.skip(last_dot(id) + 1)) {
            Some(n) if n <= u64::MAX => Some(n),
            _ => None,
        }
    }
}

/// Checkpoint ids in the order the recorder produced them: by session, then by
/// index. Session ids sort by time.
pub struct ByRecorded;

pub open spec fn index_less(a: Option<nat>, b: Option<nat>) -> bool {
    match (a, b) {
        (Some(x), Some(y)) => x < y,
        (None, Some(_)) => true,
        _ => false,
    }
}

impl Order<String> for ByRecorded {
    open spec fn lt(a: Seq<char>, b: Seq<char>) -> bool {
        text::less(id_session(a), id_session(b)) || (id_session(a) == id_session(b) && (index_less(
            id_index(a),
            id_index(b),
        ) || (id_index(a) == id_index(b) && text::less(a, b))))
    }

    proof fn lemma_order(a: Seq<char>, b: Seq<char>, c: Seq<char>) {
        lemma_text_order(a, b, c);
        lemma_text_order(id_session(a), id_session(b), id_session(c));
    }

    fn before(a: &String, b: &String) -> (r: bool) {
        let (s, m): (&str, Option<u64>) = parts_of(a);
        let (t, n): (&str, Option<u64>) = parts_of(b);
        if text::before(s, t) {
            return true;
        }
        if !text::same(s, t) {
            return false;
        }
        match (m, n) {
            (Some(x), Some(y)) => x < y || (x == y && text::before(a, b)),
            (None, Some(_)) => true,
            (Some(_), None) => false,
            (None, None) => text::before(a, b),
        }
    }
}

/// The order of texts is total.
proof fn lemma_text_order(a: Seq<char>, b: Seq<char>, c: Seq<char>)
    ensures
        !text::less(a, a),
        a != b ==> text::less(a, b) || text::less(b, a),
        b != c ==> text::less(b, c) || text::less(c, b),
        a != c ==> text::less(a, c) || text::less(c, a),
        !(text::less(a, b) && text::less(b, a)),
        !(text::less(b, c) && text::less(c, b)),
        !(text::less(a, c) && text::less(c, a)),
        text::less(a, b) && text::less(b, c) ==> text::less(a, c),
        text::less(c, b) && text::less(b, a) ==> text::less(c, a),
{
    text::lemma_less_irreflexive(a);
    text::lemma_less_irreflexive(b);
    text::lemma_less_irreflexive(c);
    text::lemma_less_total(a, b);
    text::lemma_less_total(b, c);
    text::lemma_less_total(a, c);
    if text::less(a, b) && text::less(b, a) {
        text::lemma_less_transitive(a, b, a);
    }
    if text::less(b, c) && text::less(c, b) {
        text::lemma_less_transitive(b, c, b);
    }
    if text::less(a, c) && text::less(c, a) {
        text::lemma_less_transitive(a, c, a);
    }
    if text::less(a, b) && text::less(b, c) {
        text::lemma_less_transitive(a, b, c);
    }
    if text::less(c, b) && text::less(b, a) {
        text::lemma_less_transitive(c, b, a);
    }
}

/// The session and the index that a checkpoint id names.
fn parts_of<'a>(id: &'a str) -> (r: (&'a str, Option<u64>))
    ensures
        r.0@ == id_session(id@),
        id_index(id@) == (match r.1 {
            Some(n) => Some(n as nat),
            None => None,
        }),
{
    let n: usize = id.unicode_len();
    let mut k: usize = n;
    assert(id@.take(n as int) =~= id@);
    while k > 0
        invariant
            k <= n,
            n == id@.len(),
            last_dot(id@) == last_dot(id@.take(k as int)),
        decreases k,
    {
        assert(id@.take(k as int).last() == id@[k - 1]);
        if id.get_char(k - 1) == '.' {
            assert(id@.subrange(0, k - 1) =~= id@.take(k - 1));
            assert(id@.subrange(k as int, n as int) =~= id@.skip(k as int));
            return (id.substring_char(0, k - 1), text::parse_number(id.substring_char(k, n)));
        }
        assert(id@.take(k as int).drop_last() =~= id@.take(k - 1));
        k -= 1;
    }
    (id, None)
}

proof fn lemma_last_dot(s: Seq<char>, t: Seq<char>)
    requires
        forall|i: int| 0 <= i < t.len() ==> #[trigger] t[i] != '.',
    ensures
        last_dot(s + "."@ + t) == s.len(),
    decreases t.len(),
{
    reveal_strlit(".");
    let all = s + "."@ + t;
    if t.len() == 0 {
        assert(all.last() == '.');
    } else {
        let rest = t.drop_last();
        assert forall|i: int| 0 <= i < rest.len() implies #[trigger] rest[i] != '.' by {
            assert(rest[i] == t[i]);
        }
        lemma_last_dot(s, rest);
        assert(all.last() == t[t.len() - 1]);
        assert(all.drop_last() =~= s + "."@ + rest);
    }
}

proof fn lemma_id_parts(session_id: Seq<char>, n: nat)
    requires
        n <= u64::MAX,
    ensures
        id_session(checkpoint_id(session_id, n)) == session_id,
        id_index(checkpoint_id(session_id, n)) == Some(n),
{
    reveal_strlit(".");
    let digits = text::decimal(n);
    let id = checkpoint_id(session_id, n);
    text::lemma_decimal_digits(n);
    text::lemma_decimal_value(n);
    lemma_last_dot(session_id, digits);
    assert(id.take(session_id.len() as int) =~= session_id);
    assert(id.skip(session_id.len() as int + 1) =~= digits);
}

/// The ids of a session are in the order of their indices, however many there
/// are.
pub proof fn lemma_ids_in_recorded_order(session_id: Seq<char>, m: nat, n: nat)
    requires
        m < n <= u64::MAX,
    ensures
        ByRecorded::lt(checkpoint_id(session_id, m), checkpoint_id(session_id, n)),
{
    lemma_id_parts(session_id, m);
    lemma_id_parts(session_id, n);
}

/// A checkpoint that opens with `first`, which it does not hold yet.
pub open spec fn opened(
    session_id: Seq<char>,
    index: nat,
    first: FileChangeView,
) -> CheckpointView {
    CheckpointView {
        id: checkpoint_id(session_id, index),
        session_id,
        started_at: first.first_seen,
        ended_at: first.last_seen,
        changes: Seq::empty(),
        bulk: false,
        boundary: None,
        source: EventSource::TrailRecorder,
        confidence: Confidence::Exact,
        title: None,
        hidden: false,
        annotation: None,
    }
}

/// A checkpoint with one more change: folded into the one it has for that
/// path, or else added behind the others.
pub open spec fn absorbed(cp: CheckpointView, change: FileChangeView) -> CheckpointView {
    let change = FileChangeView { origin: cp.id, ..change };
    let k = find_path(cp.changes, change.path);
    CheckpointView {
        ended_at: later_of(cp.ended_at, change.last_seen),
        changes: if 0 <= k < cp.changes.len() {
            cp.changes.update(k, folded(cp.changes[k], change))
        } else {
            cp.changes.push(change)
        },
        ..cp
    }
}

/// A file that is there neither before nor after leaves no trace.
pub open spec fn leaves_trace(change: FileChangeView) -> bool {
    change.before_hash is Some || change.after_hash is Some
}

/// A checkpoint that is done: without what left no trace, and gone when
/// nothing else is in it.
pub open spec fn finished(cp: CheckpointView) -> Option<CheckpointView> {
    let changes = cp.changes.filter(|c: FileChangeView| leaves_trace(c));
    if changes.len() == 0 {
        None
    } else {
        Some(CheckpointView { changes, bulk: changes.len() > BULK_THRESHOLD, ..cp })
    }
}

/// The checkpoints of a session so far: those done, the one still open, and
/// the index of the next.
#[verifier::ext_equal]
pub struct Grouped {
    pub open: Option<CheckpointView>,
    pub done: Seq<CheckpointView>,
    pub next: nat,
}

pub open spec fn nothing_grouped() -> Grouped {
    Grouped { open: None, done: Seq::empty(), next: 1 }
}

/// With the open checkpoint done.
pub open spec fn closed(g: Grouped) -> Grouped {
    match g.open {
        Some(cp) => Grouped {
            open: None,
            done: match finished(cp) {
                Some(cp) => g.done.push(cp),
                None => g.done,
            },
            next: g.next,
        },
        None => g,
    }
}

/// With one more change, which opens a checkpoint of its own after a gap.
pub open spec fn pushed(session_id: Seq<char>, g: Grouped, change: FileChangeView) -> Grouped {
    match g.open {
        Some(cp) if gap(cp.ended_at, change.first_seen) <= WINDOW => Grouped {
            open: Some(absorbed(cp, change)),
            ..g
        },
        _ => Grouped {
            open: Some(absorbed(opened(session_id, g.next, change), change)),
            done: closed(g).done,
            next: g.next + 1,
        },
    }
}

pub open spec fn pushed_all(
    session_id: Seq<char>,
    g: Grouped,
    changes: Seq<FileChangeView>,
) -> Grouped
    decreases changes.len(),
{
    if changes.len() == 0 {
        g
    } else {
        pushed(session_id, pushed_all(session_id, g, changes.drop_last()), changes.last())
    }
}

/// A done checkpoint once HEAD has moved: the movement is its boundary, unless
/// an earlier one is.
pub open spec fn bounded(
    cp: CheckpointView,
    from_head: Seq<char>,
    to_head: Seq<char>,
) -> CheckpointView {
    if cp.boundary is None {
        CheckpointView { boundary: Some(CommitBoundaryView { from_head, to_head }), ..cp }
    } else {
        cp
    }
}

/// After a movement of HEAD, which closes the open checkpoint.
pub open spec fn head_moved(g: Grouped, from_head: Seq<char>, to_head: Seq<char>) -> Grouped {
    Grouped {
        done: closed(g).done.map_values(|cp: CheckpointView| bounded(cp, from_head, to_head)),
        ..closed(g)
    }
}

/// What the records of a session amount to: the checkpoints, and the run of
/// events since the last movement of HEAD.
pub open spec fn grouped(session_id: Seq<char>, records: Seq<RecordView>) -> (
    Grouped,
    Seq<RawEventView>,
)
    decreases records.len(),
{
    if records.len() == 0 {
        (nothing_grouped(), Seq::empty())
    } else {
        let (g, run) = grouped(session_id, records.drop_last());
        match records.last() {
            RecordView::Event(event) => (g, run.push(event)),
            RecordView::Commit { timestamp, from_head, to_head } => (
                head_moved(pushed_all(session_id, g, debounced(run)), from_head, to_head),
                Seq::empty(),
            ),
            RecordView::End(_) => (
                closed(pushed_all(session_id, g, debounced(run))),
                Seq::empty(),
            ),
            RecordView::Session(_) => (g, run),
        }
    }
}

/// The checkpoints of one session, in order.
pub open spec fn checkpoints_of(
    session_id: Seq<char>,
    records: Seq<RecordView>,
) -> Seq<CheckpointView> {
    let (g, run) = grouped(session_id, records);
    closed(pushed_all(session_id, g, debounced(run))).done
}

// ---------------------------------------------------------------------------
// Counting edits
/// How many events went into some changes.
pub open spec fn total_edits(changes: Seq<FileChangeView>) -> int
    decreases changes.len(),
{
    if changes.len() == 0 {
        0
    } else {
        total_edits(changes.drop_last()) + changes.last().edits
    }
}

pub open spec fn edits_within(changes: Seq<FileChangeView>, bound: int) -> bool {
    forall|i: int| 0 <= i < changes.len() ==> (#[trigger] changes[i]).edits <= bound
}

pub open spec fn open_within(g: Grouped, bound: int) -> bool {
    g.open is Some ==> edits_within(g.open->Some_0.changes, bound)
}

proof fn lemma_total_member(changes: Seq<FileChangeView>, i: int)
    requires
        0 <= i < changes.len(),
    ensures
        changes[i].edits <= total_edits(changes),
        0 <= total_edits(changes),
    decreases changes.len(),
{
    reveal_with_fuel(total_edits, 2);
    if i < changes.len() - 1 {
        lemma_total_member(changes.drop_last(), i);
    } else if changes.len() > 1 {
        lemma_total_member(changes.drop_last(), 0);
    }
}

/// Every event is counted in exactly one debounced change.
pub proof fn lemma_debounced_total(events: Seq<RawEventView>)
    requires
        events.len() <= u32::MAX,
    ensures
        total_edits(debounced(events)) == events.len(),
    decreases events.len(),
{
    if events.len() > 0 {
        lemma_debounced_total(events.drop_last());
        let before = debounced(events.drop_last());
        let after = debounced(events);
        let change = change_of(events.last());
        if before.len() > 0 {
            lemma_total_member(before, before.len() - 1);
        }
        if after.len() == before.len() + 1 {
            assert(after.drop_last() =~= before);
        } else {
            assert(after.drop_last() =~= before.drop_last());
        }
    }
}

/// Debouncing makes no more changes than there are events.
pub proof fn lemma_debounced_len(events: Seq<RawEventView>)
    ensures
        debounced(events).len() <= events.len(),
    decreases events.len(),
{
    if events.len() > 0 {
        lemma_debounced_len(events.drop_last());
    }
}

proof fn lemma_total_take(changes: Seq<FileChangeView>, k: int)
    requires
        0 <= k <= changes.len(),
    ensures
        0 <= total_edits(changes.take(k)) <= total_edits(changes),
    decreases changes.len(),
{
    if k == changes.len() {
        assert(changes.take(k) =~= changes);
        if k > 0 {
            lemma_total_take(changes.drop_last(), k - 1);
        }
    } else {
        assert(changes.drop_last().take(k) =~= changes.take(k));
        lemma_total_take(changes.drop_last(), k);
    }
}

/// No change of the open checkpoint counts more edits than were pushed.
proof fn lemma_pushed_within(
    session_id: Seq<char>,
    g: Grouped,
    change: FileChangeView,
    bound: int,
)
    requires
        0 <= bound,
        bound + change.edits <= u32::MAX,
        open_within(g, bound),
    ensures
        open_within(pushed(session_id, g, change), bound + change.edits),
{
}

// ---------------------------------------------------------------------------
impl Checkpoint {
    fn new(session_id: &str, index: usize, first: &FileChange) -> (r: Checkpoint)
        ensures
            r.deep_view() == opened(session_id@, index as nat, first.deep_view()),
    {
        let mut id: String = session_id.to_owned();
        id.append(".");
        id.append(&text::decimal_of(index as u64));
        let r = Checkpoint {
            id,
            session_id: session_id.to_owned(),
            started_at: first.first_seen,
            ended_at: first.last_seen,
            changes: Vec::new(),
            bulk: false,
            boundary: None,
            source: EventSource::TrailRecorder,
            confidence: Confidence::Exact,
            title: None,
            hidden: false,
            annotation: None,
        };
        assert(r.deep_view() =~= opened(session_id@, index as nat, first.deep_view()));
        r
    }

    fn absorb(&mut self, change: FileChange)
        requires
            edits_within(old(self).deep_view().changes, u32::MAX - change.edits),
        ensures
            final(self).deep_view() == absorbed(old(self).deep_view(), change.deep_view()),
    {
        let ghost was = self.deep_view();
        let ghost given = change.deep_view();
        let mut change = change;
        change.origin = self.id.dup();
        self.ended_at = self.ended_at.later(&change.last_seen);
        let k: usize = position(&self.changes, &change.path);
        if k < self.changes.len() {
            assert(was.changes[k as int] == self.changes[k as int].deep_view());
            fold(&mut self.changes[k], &change);
            assert(self.changes.deep_view() =~= was.changes.update(
                k as int,
                folded(was.changes[k as int], change.deep_view()),
            ));
        } else {
            let ghost added = change.deep_view();
            self.changes.push(change);
            assert(self.changes.deep_view() =~= was.changes.push(added));
        }
        assert(self.deep_view() =~= absorbed(was, given));
    }

    fn finish(self) -> (r: Option<Checkpoint>)
        ensures
            r.deep_view() == finished(self.deep_view()),
    {
        let ghost all = self.changes.deep_view();
        let ghost keep = |c: FileChangeView| leaves_trace(c);
        let mut changes: Vec<FileChange> = Vec::new();
        let mut k: usize = 0;
        assert(all.take(0).filter(keep) =~= Seq::empty()) by {
            reveal(Seq::filter);
        }
        while k < self.changes.len()
            invariant
                k <= self.changes.len(),
                all == self.changes.deep_view(),
                keep == (|c: FileChangeView| leaves_trace(c)),
                changes.deep_view() == all.take(k as int).filter(keep),
            decreases self.changes.len() - k,
        {
            let ghost kept = changes.deep_view();
            let c: &FileChange = &self.changes[k];
            proof {
                reveal(Seq::filter);
                assert(all.take(k + 1).drop_last() =~= all.take(k as int));
                assert(all.take(k + 1).last() == c.deep_view());
            }
            if c.before_hash.is_some() || c.after_hash.is_some() {
                changes.push(c.dup());
                assert(changes.deep_view() =~= kept.push(c.deep_view()));
            }
            k += 1;
        }
        assert(all.take(k as int) =~= all);
        if changes.len() == 0 {
            return None;
        }
        let bulk: bool = changes.len() > BULK_THRESHOLD;
        let r = Checkpoint { changes, bulk, ..self };
        assert(r.deep_view() =~= finished(self.deep_view())->Some_0);
        Some(r)
    }
}

/// The position of the first change of `p`; their number when there is none.
fn position(changes: &Vec<FileChange>, p: &str) -> (r: usize)
    ensures
        r == find_path(changes.deep_view(), p@),
        r <= changes.len(),
{
    let ghost all = changes.deep_view();
    let mut k: usize = 0;
    assert(all.skip(0) =~= all);
    while k < changes.len()
        invariant
            k <= changes.len(),
            all == changes.deep_view(),
            find_path(all, p@) == k + find_path(all.skip(k as int), p@),
        decreases changes.len() - k,
    {
        if path::same(&changes[k].path, p) {
            return k;
        }
        assert(all.skip(k as int).drop_first() =~= all.skip(k + 1));
        k += 1;
    }
    k
}

fn change_from(event: &RawEvent) -> (r: FileChange)
    ensures
        r.deep_view() == change_of(event.deep_view()),
{
    let r = FileChange {
        origin: String::new(),
        path: event.path.dup(),
        kind: ChangeKind::from(event.kind),
        from_path: event.from_path.dup(),
        before_hash: event.before_hash.dup(),
        after_hash: event.after_hash.dup(),
        first_seen: event.timestamp,
        last_seen: event.timestamp,
        edits: 1,
    };
    assert(r.deep_view() =~= change_of(event.deep_view()));
    r
}

/// Merge a later change of the same path into an earlier one.
fn fold(into: &mut FileChange, later: &FileChange)
    requires
        old(into).edits + later.edits <= u32::MAX,
    ensures
        final(into).deep_view() == folded(old(into).deep_view(), later.deep_view()),
{
    let ghost was = into.deep_view();
    into.after_hash = later.after_hash.dup();
    into.last_seen = later.last_seen;
    into.edits = into.edits + later.edits;
    let kind: ChangeKind = match (into.kind, later.kind) {
        (ChangeKind::Created, ChangeKind::Deleted) => ChangeKind::Deleted,
        (ChangeKind::Created, _) => ChangeKind::Created,
        (ChangeKind::Renamed, ChangeKind::Deleted) => ChangeKind::Deleted,
        (ChangeKind::Renamed, _) => ChangeKind::Renamed,
        (_, ChangeKind::Deleted) => ChangeKind::Deleted,
        (ChangeKind::Deleted, ChangeKind::Created) => ChangeKind::Modified,
        (_, ChangeKind::Renamed) => {
            into.from_path = later.from_path.dup();
            ChangeKind::Renamed
        },
        (kind, _) => kind,
    };
    into.kind = kind;
    assert(into.deep_view() =~= folded(was, later.deep_view()));
}

/// Stage 1: fold bursts of events on the same path (closer than `DEBOUNCE`).
pub fn debounce(events: &Vec<&RawEvent>) -> (r: Vec<FileChange>)
    requires
        events.len() <= u32::MAX,
    ensures
        r.deep_view() == debounced(events.deep_view()),
{
    let ghost all = events.deep_view();
    let mut out: Vec<FileChange> = Vec::new();
    let mut k: usize = 0;
    assert(out.deep_view() =~= debounced(all.take(0)));
    while k < events.len()
        invariant
            k <= events.len() <= u32::MAX,
            all == events.deep_view(),
            out.deep_view() == debounced(all.take(k as int)),
        decreases events.len() - k,
    {
        let change: FileChange = change_from(events[k]);
        let ghost was = out.deep_view();
        proof {
            assert(all.take(k + 1).drop_last() =~= all.take(k as int));
            assert(all.take(k + 1).last() == events[k as int].deep_view());
            lemma_debounced_total(all.take(k as int));
            if out.len() > 0 {
                lemma_total_member(was, was.len() - 1);
            }
        }
        let n: usize = out.len();
        if n > 0 && path::same(&out[n - 1].path, &change.path) && out[n - 1].last_seen.until(
            &change.first_seen,
        ) < DEBOUNCE {
            assert(was.last() == out[n - 1].deep_view());
            fold(&mut out[n - 1], &change);
            assert(out.deep_view() =~= was.drop_last().push(
                folded(was.last(), change.deep_view()),
            ));
        } else {
            proof {
                if n > 0 {
                    assert(was.last() == out[n - 1].deep_view());
                }
            }
            let ghost added = change.deep_view();
            out.push(change);
            assert(out.deep_view() =~= was.push(added));
        }
        k += 1;
    }
    assert(all.take(k as int) =~= all);
    out
}

/// Stage 2: group debounced changes into checkpoints by time gap.
struct Grouper<'a> {
    session_id: &'a str,
    open: Option<Checkpoint>,
    done: Vec<Checkpoint>,
    next_index: usize,
}

impl<'a> Grouper<'a> {
    spec fn model(&self) -> Grouped {
        Grouped {
            open: self.open.deep_view(),
            done: self.done.deep_view(),
            next: self.next_index as nat,
        }
    }

    fn new(session_id: &'a str) -> (r: Grouper<'a>)
        ensures
            r.session_id@ == session_id@,
            r.model() == nothing_grouped(),
    {
        let r = Grouper { session_id, open: None, done: Vec::new(), next_index: 1 };
        assert(r.model() =~= nothing_grouped());
        r
    }

    /// Close the open checkpoint (a commit or end record is a hard boundary).
    fn close(&mut self)
        ensures
            final(self).session_id == old(self).session_id,
            final(self).model() == closed(old(self).model()),
    {
        let ghost was = self.model();
        match self.open.take() {
            Some(cp) => match cp.finish() {
                Some(cp) => {
                    let ghost added = cp.deep_view();
                    self.done.push(cp);
                    assert(self.done.deep_view() =~= was.done.push(added));
                },
                None => {},
            },
            None => {},
        }
        assert(self.model() =~= closed(was));
    }

    /// HEAD moved: every checkpoint since the previous movement was work
    /// towards `to_head`.
    fn head_moved(&mut self, from_head: &str, to_head: &str)
        ensures
            final(self).session_id == old(self).session_id,
            final(self).model() == head_moved(old(self).model(), from_head@, to_head@),
    {
        let ghost start = self.model();
        self.close();
        let ghost was = self.done.deep_view();
        let ghost mark = |cp: CheckpointView| bounded(cp, from_head@, to_head@);
        let n: usize = self.done.len();
        let mut k: usize = 0;
        while k < n
            invariant
                k <= n,
                n == self.done.len(),
                n == was.len(),
                self.session_id == old(self).session_id,
                self.open.deep_view() == closed(start).open,
                self.next_index == closed(start).next,
                forall|i: int|
                    0 <= i < k ==> #[trigger] self.done[i].deep_view() == bounded(
                        was[i],
                        from_head@,
                        to_head@,
                    ),
                forall|i: int| k <= i < n ==> #[trigger] self.done[i].deep_view() == was[i],
            decreases n - k,
        {
            assert(self.done[k as int].deep_view() == was[k as int]);
            if self.done[k].boundary.is_none() {
                let boundary = CommitBoundary {
                    from_head: from_head.to_owned(),
                    to_head: to_head.to_owned(),
                };
                self.done[k].boundary = Some(boundary);
                assert(self.done[k as int].deep_view() =~= bounded(
                    was[k as int],
                    from_head@,
                    to_head@,
                ));
            }
            k += 1;
        }
        assert(self.done.deep_view() =~= was.map_values(mark));
        assert(self.model() =~= head_moved(start, from_head@, to_head@));
    }

    fn push(&mut self, change: FileChange)
        requires
            open_within(old(self).model(), u32::MAX - change.edits),
            old(self).next_index < usize::MAX,
        ensures
            final(self).session_id == old(self).session_id,
            final(self).model() == pushed(
                old(self).session_id@,
                old(self).model(),
                change.deep_view(),
            ),
    {
        let ghost was = self.model();
        let starts_new: bool = match &self.open {
            Some(cp) => cp.ended_at.until(&change.first_seen) > WINDOW,
            None => true,
        };
        if starts_new {
            self.close();
            self.open = Some(Checkpoint::new(self.session_id, self.next_index, &change));
            self.next_index = self.next_index + 1;
        }
        let ghost mid = self.model();
        match self.open.take() {
            Some(cp) => {
                let mut cp = cp;
                cp.absorb(change);
                self.open = Some(cp);
            },
            None => {},
        }
        assert(self.model() =~= pushed(old(self).session_id@, was, change.deep_view()));
    }

    /// Debounce a run of consecutive events and push the result.
    fn push_run(&mut self, run: &Vec<&RawEvent>, Ghost(bound): Ghost<int>)
        requires
            0 <= bound,
            bound + run.len() < u32::MAX,
            open_within(old(self).model(), bound),
            old(self).next_index <= bound + 1,
        ensures
            final(self).session_id == old(self).session_id,
            final(self).model() == pushed_all(
                old(self).session_id@,
                old(self).model(),
                debounced(run.deep_view()),
            ),
            open_within(final(self).model(), bound + run.len()),
            final(self).next_index <= bound + run.len() + 1,
    {
        let ghost start = self.model();
        let changes: Vec<FileChange> = debounce(run);
        let ghost all = changes.deep_view();
        proof {
            lemma_debounced_total(run.deep_view());
            lemma_debounced_len(run.deep_view());
        }
        let mut k: usize = 0;
        assert(all.take(0) =~= Seq::empty());
        while k < changes.len()
            invariant
                k <= changes.len() <= run.len(),
                all == changes.deep_view(),
                total_edits(all) == run.len(),
                0 <= bound,
                bound + run.len() < u32::MAX,
                self.session_id == old(self).session_id,
                self.model() == pushed_all(old(self).session_id@, start, all.take(k as int)),
                open_within(self.model(), bound + total_edits(all.take(k as int))),
                self.next_index <= bound + k + 1,
            decreases changes.len() - k,
        {
            let ghost next = all.take(k + 1);
            let ghost was = self.model();
            proof {
                assert(next.drop_last() =~= all.take(k as int));
                assert(next.last() == changes[k as int].deep_view());
                lemma_total_take(all, k + 1);
                lemma_total_take(all, k as int);
            }
            self.push(changes[k].dup());
            proof {
                lemma_pushed_within(
                    self.session_id@,
                    was,
                    next.last(),
                    bound + total_edits(all.take(k as int)),
                );
            }
            k += 1;
        }
        assert(all.take(k as int) =~= all);
    }

    fn finish(self) -> (r: Vec<Checkpoint>)
        ensures
            r.deep_view() == closed(self.model()).done,
    {
        let mut last = self;
        last.close();
        last.done
    }
}

// ---------------------------------------------------------------------------
// What holds of every checkpoint
/// No two changes of the same path.
pub open spec fn distinct_paths(changes: Seq<FileChangeView>) -> bool {
    forall|i: int, j: int|
        0 <= i < j < changes.len() ==> !path::same_path(
            (#[trigger] changes[i]).path,
            (#[trigger] changes[j]).path,
        )
}

/// A checkpoint still being filled.
pub open spec fn well_begun(session_id: Seq<char>, cp: CheckpointView) -> bool {
    &&& cp.session_id == session_id
    &&& distinct_paths(cp.changes)
    &&& forall|i: int| 0 <= i < cp.changes.len() ==> (#[trigger] cp.changes[i]).origin == cp.id
    &&& cp.source == EventSource::TrailRecorder
    &&& cp.confidence == Confidence::Exact
    &&& cp.title is None
    &&& !cp.hidden
    &&& cp.annotation is None
}

/// A checkpoint as the recorder makes it: one change per path, each of them a
/// trace of something, each originating here, and flagged when there are many.
pub open spec fn well_made(session_id: Seq<char>, cp: CheckpointView) -> bool {
    &&& well_begun(session_id, cp)
    &&& cp.changes.len() > 0
    &&& forall|i: int| 0 <= i < cp.changes.len() ==> leaves_trace(#[trigger] cp.changes[i])
    &&& cp.bulk == (cp.changes.len() > BULK_THRESHOLD)
}

/// The checkpoints have the indices `ks`, which increase and stay below `bound`.
pub open spec fn indexed(
    session_id: Seq<char>,
    cps: Seq<CheckpointView>,
    ks: Seq<nat>,
    bound: nat,
) -> bool {
    &&& ks.len() == cps.len()
    &&& forall|i: int|
        0 <= i < cps.len() ==> (#[trigger] cps[i]).id == checkpoint_id(session_id, ks[i])
    &&& forall|i: int| 0 <= i < ks.len() ==> 0 < #[trigger] ks[i] < bound
    &&& forall|i: int, j: int| 0 <= i < j < ks.len() ==> #[trigger] ks[i] < #[trigger] ks[j]
}

/// The indices of some checkpoints increase and stay below `bound`.
pub open spec fn has_indices(session_id: Seq<char>, cps: Seq<CheckpointView>, bound: nat) -> bool {
    exists|ks: Seq<nat>| indexed(session_id, cps, ks, bound)
}

spec fn well_grouped(session_id: Seq<char>, g: Grouped) -> bool {
    &&& g.next > 0
    &&& forall|i: int| 0 <= i < g.done.len() ==> well_made(session_id, #[trigger] g.done[i])
    &&& match g.open {
        Some(cp) => {
            &&& well_begun(session_id, cp)
            &&& g.next > 1
            &&& cp.id == checkpoint_id(session_id, (g.next - 1) as nat)
            &&& has_indices(session_id, g.done, (g.next - 1) as nat)
        },
        None => has_indices(session_id, g.done, g.next),
    }
}

pub(crate) proof fn lemma_find_path(changes: Seq<FileChangeView>, p: Seq<char>)
    ensures
        0 <= find_path(changes, p) <= changes.len(),
        find_path(changes, p) < changes.len() ==> path::same_path(
            changes[find_path(changes, p)].path,
            p,
        ),
        forall|i: int|
            0 <= i < find_path(changes, p) ==> !path::same_path((#[trigger] changes[i]).path, p),
    decreases changes.len(),
{
    if changes.len() > 0 && !path::same_path(changes[0].path, p) {
        let rest = changes.drop_first();
        lemma_find_path(rest, p);
        assert forall|i: int| 0 <= i < find_path(changes, p) implies !path::same_path(
            (#[trigger] changes[i]).path,
            p,
        ) by {
            if i > 0 {
                assert(rest[i - 1] == changes[i]);
            }
        }
    }
}

proof fn lemma_traces(changes: Seq<FileChangeView>)
    ensures
        ({
            let kept = changes.filter(|c: FileChangeView| leaves_trace(c));
            &&& forall|i: int|
                0 <= i < kept.len() ==> leaves_trace(#[trigger] kept[i]) && changes.contains(kept[i])
            &&& distinct_paths(changes) ==> distinct_paths(kept)
        }),
    decreases changes.len(),
{
    reveal(Seq::filter);
    let pred = |c: FileChangeView| leaves_trace(c);
    let kept = changes.filter(pred);
    if changes.len() > 0 {
        let rest = changes.drop_last();
        lemma_traces(rest);
        let sub = rest.filter(pred);
        assert forall|i: int| 0 <= i < kept.len() implies leaves_trace(#[trigger] kept[i])
            && changes.contains(kept[i]) by {
            if i < sub.len() {
                assert(kept[i] == sub[i]);
                let m = choose|m: int| 0 <= m < rest.len() && rest[m] == sub[i];
                assert(changes[m] == sub[i]);
            } else {
                assert(kept[i] == changes.last());
            }
        }
        if distinct_paths(changes) {
            assert(distinct_paths(rest)) by {
                assert forall|i: int, j: int| 0 <= i < j < rest.len() implies !path::same_path(
                    (#[trigger] rest[i]).path,
                    (#[trigger] rest[j]).path,
                ) by {
                    assert(changes[i] == rest[i] && changes[j] == rest[j]);
                }
            }
            assert forall|i: int, j: int| 0 <= i < j < kept.len() implies !path::same_path(
                (#[trigger] kept[i]).path,
                (#[trigger] kept[j]).path,
            ) by {
                if j < sub.len() {
                    assert(kept[i] == sub[i] && kept[j] == sub[j]);
                } else {
                    assert(kept[i] == sub[i] && kept[j] == changes.last());
                    let m = choose|m: int| 0 <= m < rest.len() && rest[m] == sub[i];
                    assert(changes[m] == sub[i]);
                }
            }
        }
    }
}

proof fn lemma_absorbed(session_id: Seq<char>, cp: CheckpointView, change: FileChangeView)
    requires
        well_begun(session_id, cp),
    ensures
        well_begun(session_id, absorbed(cp, change)),
        absorbed(cp, change).id == cp.id,
{
    lemma_find_path(cp.changes, change.path);
}

proof fn lemma_closed(session_id: Seq<char>, g: Grouped)
    requires
        well_grouped(session_id, g),
    ensures
        well_grouped(session_id, closed(g)),
        closed(g).open is None,
        closed(g).next == g.next,
{
    match g.open {
        Some(cp) => {
            lemma_traces(cp.changes);
            let last = (g.next - 1) as nat;
            let ks = choose|ks: Seq<nat>| indexed(session_id, g.done, ks, last);
            match finished(cp) {
                Some(f) => {
                    assert forall|i: int| 0 <= i < f.changes.len() implies (
                    #[trigger] f.changes[i]).origin == f.id by {
                        let m = choose|m: int|
                            0 <= m < cp.changes.len() && cp.changes[m] == f.changes[i];
                        assert(cp.changes[m].origin == cp.id);
                    }
                    assert(well_made(session_id, f));
                    let more = ks.push((g.next - 1) as nat);
                    assert(indexed(session_id, closed(g).done, more, g.next));
                },
                None => {
                    assert(indexed(session_id, closed(g).done, ks, g.next));
                },
            }
        },
        None => {},
    }
}

proof fn lemma_pushed(session_id: Seq<char>, g: Grouped, change: FileChangeView)
    requires
        well_grouped(session_id, g),
    ensures
        well_grouped(session_id, pushed(session_id, g, change)),
{
    match g.open {
        Some(cp) if gap(cp.ended_at, change.first_seen) <= WINDOW => {
            lemma_absorbed(session_id, cp, change);
            let last = (g.next - 1) as nat;
            let ks = choose|ks: Seq<nat>| indexed(session_id, g.done, ks, last);
            assert(indexed(
                session_id,
                pushed(session_id, g, change).done,
                ks,
                (pushed(session_id, g, change).next - 1) as nat,
            ));
        },
        _ => {
            lemma_closed(session_id, g);
            let first = opened(session_id, g.next, change);
            assert(well_begun(session_id, first));
            lemma_absorbed(session_id, first, change);
            let ks = choose|ks: Seq<nat>| indexed(session_id, closed(g).done, ks, g.next);
            let p = pushed(session_id, g, change);
            assert((p.next - 1) as nat == g.next);
            assert(indexed(session_id, p.done, ks, (p.next - 1) as nat));
        },
    }
}

proof fn lemma_pushed_all(session_id: Seq<char>, g: Grouped, changes: Seq<FileChangeView>)
    requires
        well_grouped(session_id, g),
    ensures
        well_grouped(session_id, pushed_all(session_id, g, changes)),
    decreases changes.len(),
{
    if changes.len() > 0 {
        lemma_pushed_all(session_id, g, changes.drop_last());
        lemma_pushed(
            session_id,
            pushed_all(session_id, g, changes.drop_last()),
            changes.last(),
        );
    }
}

proof fn lemma_grouped(session_id: Seq<char>, records: Seq<RecordView>)
    ensures
        well_grouped(session_id, grouped(session_id, records).0),
    decreases records.len(),
{
    if records.len() == 0 {
        assert(indexed(session_id, nothing_grouped().done, Seq::empty(), 1));
    } else {
        lemma_grouped(session_id, records.drop_last());
        let (g, run) = grouped(session_id, records.drop_last());
        let p = pushed_all(session_id, g, debounced(run));
        lemma_pushed_all(session_id, g, debounced(run));
        lemma_closed(session_id, p);
        match records.last() {
            RecordView::Commit { timestamp, from_head, to_head } => {
                let m = head_moved(p, from_head, to_head);
                let ks = choose|ks: Seq<nat>| indexed(session_id, closed(p).done, ks, p.next);
                assert forall|i: int| 0 <= i < m.done.len() implies well_made(
                    session_id,
                    #[trigger] m.done[i],
                ) by {
                    assert(well_made(session_id, closed(p).done[i]));
                }
                assert(indexed(session_id, m.done, ks, m.next)) by {
                    assert forall|i: int| 0 <= i < m.done.len() implies (
                    #[trigger] m.done[i]).id == checkpoint_id(session_id, ks[i]) by {
                        assert(m.done[i].id == closed(p).done[i].id);
                    }
                }
            },
            _ => {},
        }
    }
}

/// Every checkpoint of a session holds at least one change and at most one per
/// path; each change left a trace and names the checkpoint as its origin; more
/// than [`BULK_THRESHOLD`] of them make it bulk; nothing is edited yet.
pub proof fn lemma_checkpoints_well_made(session_id: Seq<char>, records: Seq<RecordView>)
    ensures
        forall|i: int|
            0 <= i < checkpoints_of(session_id, records).len() ==> well_made(
                session_id,
                #[trigger] checkpoints_of(session_id, records)[i],
            ),
{
    lemma_grouped(session_id, records);
    let (g, run) = grouped(session_id, records);
    lemma_pushed_all(session_id, g, debounced(run));
    lemma_closed(session_id, pushed_all(session_id, g, debounced(run)));
}

/// Checkpoint ids are the session id and an index that grows in time, so no
/// two checkpoints of a session share an id.
pub proof fn lemma_checkpoint_ids(session_id: Seq<char>, records: Seq<RecordView>)
    ensures
        ({
            let cps = checkpoints_of(session_id, records);
            &&& exists|bound: nat| has_indices(session_id, cps, bound)
            &&& forall|i: int, j: int|
                0 <= i < j < cps.len() ==> (#[trigger] cps[i]).id != (#[trigger] cps[j]).id
        }),
{
    lemma_grouped(session_id, records);
    let (g, run) = grouped(session_id, records);
    let p = pushed_all(session_id, g, debounced(run));
    lemma_pushed_all(session_id, g, debounced(run));
    lemma_closed(session_id, p);
    let cps = checkpoints_of(session_id, records);
    let ks = choose|ks: Seq<nat>| indexed(session_id, cps, ks, p.next);
    assert(indexed(session_id, cps, ks, p.next));
    assert forall|i: int, j: int| 0 <= i < j < cps.len() implies (#[trigger] cps[i]).id != (
    #[trigger] cps[j]).id by {
        if cps[i].id == cps[j].id {
            let head = session_id + "."@;
            let a = text::decimal(ks[i]);
            let b = text::decimal(ks[j]);
            assert(a =~= (head + a).skip(head.len() as int));
            assert(b =~= (head + b).skip(head.len() as int));
            text::lemma_decimal_injective(ks[i], ks[j]);
        }
    }
}

// ---------------------------------------------------------------------------
// What a movement of HEAD settles
spec fn all_bounded(cps: Seq<CheckpointView>) -> bool {
    forall|i: int| 0 <= i < cps.len() ==> (#[trigger] cps[i]).boundary is Some
}

proof fn lemma_pushed_all_keeps(
    session_id: Seq<char>,
    g: Grouped,
    changes: Seq<FileChangeView>,
    kept: Seq<CheckpointView>,
)
    requires
        kept.is_prefix_of(g.done),
    ensures
        kept.is_prefix_of(pushed_all(session_id, g, changes).done),
        kept.is_prefix_of(closed(pushed_all(session_id, g, changes)).done),
    decreases changes.len(),
{
    if changes.len() > 0 {
        lemma_pushed_all_keeps(session_id, g, changes.drop_last(), kept);
    }
    let p = pushed_all(session_id, g, changes);
    assert(kept =~= p.done.subrange(0, kept.len() as int));
    assert(kept =~= closed(p).done.subrange(0, kept.len() as int));
}

proof fn lemma_grouped_keeps(
    session_id: Seq<char>,
    start: Seq<RecordView>,
    more: Seq<RecordView>,
    kept: Seq<CheckpointView>,
)
    requires
        kept == grouped(session_id, start).0.done,
        all_bounded(kept),
    ensures
        kept.is_prefix_of(grouped(session_id, start + more).0.done),
    decreases more.len(),
{
    if more.len() == 0 {
        assert(start + more =~= start);
    } else {
        lemma_grouped_keeps(session_id, start, more.drop_last(), kept);
        assert((start + more).drop_last() =~= start + more.drop_last());
        let (g, run) = grouped(session_id, start + more.drop_last());
        lemma_pushed_all_keeps(session_id, g, debounced(run), kept);
        let p = pushed_all(session_id, g, debounced(run));
        match more.last() {
            RecordView::Commit { timestamp, from_head, to_head } => {
                let m = head_moved(p, from_head, to_head);
                assert forall|i: int| 0 <= i < kept.len() implies m.done[i] == kept[i] by {
                    assert(closed(p).done.subrange(0, kept.len() as int)[i] == kept[i]);
                }
                assert(kept =~= m.done.subrange(0, kept.len() as int));
            },
            _ => {},
        }
    }
}

/// A movement of HEAD ends the checkpoints before it: each gets that movement
/// as its boundary unless it had one, and nothing recorded later changes them.
pub proof fn lemma_commit_is_final(
    session_id: Seq<char>,
    before: Seq<RecordView>,
    timestamp: Timestamp,
    from_head: Seq<char>,
    to_head: Seq<char>,
    after: Seq<RecordView>,
)
    ensures
        ({
            let commit = RecordView::Commit { timestamp, from_head, to_head };
            let settled = checkpoints_of(session_id, before.push(commit));
            &&& settled == checkpoints_of(session_id, before).map_values(
                |cp: CheckpointView| bounded(cp, from_head, to_head),
            )
            &&& forall|i: int| 0 <= i < settled.len() ==> (#[trigger] settled[i]).boundary is Some
            &&& settled.is_prefix_of(checkpoints_of(session_id, before.push(commit) + after))
        }),
{
    let commit = RecordView::Commit { timestamp, from_head, to_head };
    let start = before.push(commit);
    assert(start.drop_last() =~= before);
    let settled = checkpoints_of(session_id, start);
    assert(debounced(Seq::empty()) =~= Seq::empty());
    assert(settled == grouped(session_id, start).0.done);
    assert(all_bounded(settled));
    lemma_grouped_keeps(session_id, start, after, settled);
    let (g, run) = grouped(session_id, start + after);
    lemma_pushed_all_keeps(session_id, g, debounced(run), settled);
}

// ---------------------------------------------------------------------------
// How many checkpoints there are
spec fn begun(g: Grouped) -> int {
    g.done.len() + if g.open is Some {
        1int
    } else {
        0int
    }
}

proof fn lemma_begun(session_id: Seq<char>, g: Grouped, changes: Seq<FileChangeView>)
    ensures
        begun(pushed_all(session_id, g, changes)) <= begun(g) + changes.len(),
    decreases changes.len(),
{
    if changes.len() > 0 {
        lemma_begun(session_id, g, changes.drop_last());
    }
}

proof fn lemma_grouped_begun(session_id: Seq<char>, records: Seq<RecordView>)
    ensures
        begun(grouped(session_id, records).0) + grouped(session_id, records).1.len()
            <= records.len(),
    decreases records.len(),
{
    if records.len() > 0 {
        lemma_grouped_begun(session_id, records.drop_last());
        let (g, run) = grouped(session_id, records.drop_last());
        lemma_begun(session_id, g, debounced(run));
        lemma_debounced_len(run);
    }
}

/// A session has no more checkpoints than records.
pub proof fn lemma_checkpoint_count(session_id: Seq<char>, records: Seq<RecordView>)
    ensures
        checkpoints_of(session_id, records).len() <= records.len(),
{
    lemma_grouped_begun(session_id, records);
    let (g, run) = grouped(session_id, records);
    lemma_begun(session_id, g, debounced(run));
    lemma_debounced_len(run);
}

// ---------------------------------------------------------------------------
// Checkpoints in time
/// `a` is no later than `b`.
pub open spec fn up_to(a: Timestamp, b: Timestamp) -> bool {
    !earlier(b, a)
}

/// The events of a log stand in the order in which they happened.
pub open spec fn in_time_order(records: Seq<RecordView>) -> bool {
    forall|i: int, j: int|
        0 <= i < j < records.len() ==> match (#[trigger] records[i], #[trigger] records[j]) {
            (RecordView::Event(a), RecordView::Event(b)) => up_to(a.timestamp, b.timestamp),
            _ => true,
        }
}

/// Every change of a checkpoint falls between its start and its end.
pub open spec fn spans_changes(cp: CheckpointView) -> bool {
    &&& up_to(cp.started_at, cp.ended_at)
    &&& forall|i: int|
        0 <= i < cp.changes.len() ==> up_to(cp.started_at, (#[trigger] cp.changes[i]).first_seen)
            && up_to(cp.changes[i].first_seen, cp.changes[i].last_seen) && up_to(
            cp.changes[i].last_seen,
            cp.ended_at,
        )
}

/// Each checkpoint spans its changes and ends before the next one starts.
pub open spec fn consecutive(cps: Seq<CheckpointView>) -> bool {
    &&& forall|i: int| 0 <= i < cps.len() ==> spans_changes(#[trigger] cps[i])
    &&& forall|i: int, j: int|
        0 <= i < j < cps.len() ==> up_to(
            (#[trigger] cps[i]).ended_at,
            (#[trigger] cps[j]).started_at,
        )
}

spec fn done_by(g: Grouped, t: Timestamp) -> bool {
    &&& consecutive(g.done)
    &&& forall|i: int| 0 <= i < g.done.len() ==> up_to((#[trigger] g.done[i]).ended_at, t)
    &&& match g.open {
        Some(cp) => {
            &&& spans_changes(cp)
            &&& up_to(cp.ended_at, t)
            &&& forall|i: int|
                0 <= i < g.done.len() ==> up_to((#[trigger] g.done[i]).ended_at, cp.started_at)
        },
        None => true,
    }
}

spec fn run_between(run: Seq<RawEventView>, lo: Timestamp, hi: Timestamp) -> bool {
    &&& forall|i: int|
        0 <= i < run.len() ==> up_to(lo, (#[trigger] run[i]).timestamp) && up_to(
            run[i].timestamp,
            hi,
        )
    &&& forall|i: int, j: int|
        0 <= i < j < run.len() ==> up_to(
            (#[trigger] run[i]).timestamp,
            (#[trigger] run[j]).timestamp,
        )
}

spec fn changes_between(changes: Seq<FileChangeView>, lo: Timestamp, hi: Timestamp) -> bool {
    &&& forall|i: int|
        0 <= i < changes.len() ==> up_to(lo, (#[trigger] changes[i]).first_seen) && up_to(
            changes[i].first_seen,
            changes[i].last_seen,
        ) && up_to(changes[i].last_seen, hi)
    &&& forall|i: int, j: int|
        0 <= i < j < changes.len() ==> up_to(
            (#[trigger] changes[i]).last_seen,
            (#[trigger] changes[j]).first_seen,
        )
}

proof fn lemma_debounced_between(run: Seq<RawEventView>, lo: Timestamp, hi: Timestamp)
    requires
        run_between(run, lo, hi),
    ensures
        changes_between(debounced(run), lo, hi),
    decreases run.len(),
{
    if run.len() > 0 {
        let last = run.last().timestamp;
        assert forall|i: int| 0 <= i < run.len() implies up_to((#[trigger] run[i]).timestamp, last) by {
            if i < run.len() - 1 {
                assert(up_to(run[i].timestamp, run[run.len() - 1].timestamp));
            }
        }
        lemma_debounced_between(run.drop_last(), lo, last);
        assert(up_to(lo, run[run.len() - 1].timestamp) && up_to(run[run.len() - 1].timestamp, hi));
    }
}

proof fn lemma_pushed_by(
    session_id: Seq<char>,
    g: Grouped,
    change: FileChangeView,
    t: Timestamp,
)
    requires
        done_by(g, t),
        up_to(t, change.first_seen),
        up_to(change.first_seen, change.last_seen),
    ensures
        done_by(pushed(session_id, g, change), change.last_seen),
{
    lemma_closed_by(g, t);
    match g.open {
        Some(cp) => {
            lemma_find_path(cp.changes, change.path);
        },
        None => {},
    }
}

proof fn lemma_closed_by(g: Grouped, t: Timestamp)
    requires
        done_by(g, t),
    ensures
        done_by(closed(g), t),
{
    match g.open {
        Some(cp) => {
            lemma_traces(cp.changes);
            match finished(cp) {
                Some(f) => {
                    assert forall|i: int| 0 <= i < f.changes.len() implies up_to(
                        f.started_at,
                        (#[trigger] f.changes[i]).first_seen,
                    ) && up_to(f.changes[i].first_seen, f.changes[i].last_seen) && up_to(
                        f.changes[i].last_seen,
                        f.ended_at,
                    ) by {
                        let m = choose|m: int|
                            0 <= m < cp.changes.len() && cp.changes[m] == f.changes[i];
                        assert(up_to(cp.started_at, cp.changes[m].first_seen));
                    }
                    assert(spans_changes(f));
                },
                None => {},
            }
        },
        None => {},
    }
}

proof fn lemma_pushed_all_by(
    session_id: Seq<char>,
    g: Grouped,
    changes: Seq<FileChangeView>,
    lo: Timestamp,
    hi: Timestamp,
)
    requires
        done_by(g, lo),
        up_to(lo, hi),
        changes_between(changes, lo, hi),
    ensures
        done_by(pushed_all(session_id, g, changes), hi),
    decreases changes.len(),
{
    if changes.len() > 0 {
        let last = changes.last();
        assert(last == changes[changes.len() - 1]);
        assert forall|i: int| 0 <= i < changes.len() - 1 implies up_to(
            (#[trigger] changes[i]).last_seen,
            last.first_seen,
        ) by {}
        assert(changes_between(changes.drop_last(), lo, last.first_seen));
        lemma_pushed_all_by(session_id, g, changes.drop_last(), lo, last.first_seen);
        lemma_pushed_by(
            session_id,
            pushed_all(session_id, g, changes.drop_last()),
            last,
            last.first_seen,
        );
    }
}

proof fn lemma_grouped_by(
    session_id: Seq<char>,
    records: Seq<RecordView>,
    hi: Timestamp,
) -> (t: Timestamp)
    requires
        in_time_order(records),
        forall|i: int|
            0 <= i < records.len() ==> match #[trigger] records[i] {
                RecordView::Event(e) => up_to(e.timestamp, hi),
                _ => true,
            },
    ensures
        done_by(grouped(session_id, records).0, t),
        up_to(t, hi),
        run_between(grouped(session_id, records).1, t, hi),
    decreases records.len(),
{
    if records.len() == 0 {
        Timestamp { secs: i64::MIN, nanos: 0 }
    } else {
        let rest = records.drop_last();
        assert forall|i: int, j: int| 0 <= i < j < rest.len() implies match (
            #[trigger] rest[i],
            #[trigger] rest[j],
        ) {
            (RecordView::Event(a), RecordView::Event(b)) => up_to(a.timestamp, b.timestamp),
            _ => true,
        } by {
            assert(rest[i] == records[i] && rest[j] == records[j]);
        }
        let (g, run) = grouped(session_id, rest);
        let n = records.len() - 1;
        match records.last() {
            RecordView::Event(e) => {
                assert(records[n] == RecordView::Event(e));
                assert forall|i: int| 0 <= i < rest.len() implies match #[trigger] rest[i] {
                    RecordView::Event(a) => up_to(a.timestamp, e.timestamp),
                    _ => true,
                } by {
                    assert(rest[i] == records[i]);
                    assert(records[i] is Event ==> up_to(
                        records[i]->Event_0.timestamp,
                        records[n]->Event_0.timestamp,
                    ));
                }
                let t = lemma_grouped_by(session_id, rest, e.timestamp);
                t
            },
            _ => {
                assert forall|i: int| 0 <= i < rest.len() implies match #[trigger] rest[i] {
                    RecordView::Event(a) => up_to(a.timestamp, hi),
                    _ => true,
                } by {
                    assert(rest[i] == records[i]);
                }
                let t = lemma_grouped_by(session_id, rest, hi);
                lemma_debounced_between(run, t, hi);
                lemma_pushed_all_by(session_id, g, debounced(run), t, hi);
                let p = pushed_all(session_id, g, debounced(run));
                lemma_closed_by(p, hi);
                match records.last() {
                    RecordView::Commit { timestamp, from_head, to_head } => {
                        let m = head_moved(p, from_head, to_head);
                        assert forall|i: int| 0 <= i < m.done.len() implies spans_changes(
                            #[trigger] m.done[i],
                        ) && up_to(m.done[i].ended_at, hi) by {
                            assert(spans_changes(closed(p).done[i]));
                            assert(up_to(closed(p).done[i].ended_at, hi));
                        }
                        assert forall|i: int, j: int| 0 <= i < j < m.done.len() implies up_to(
                            (#[trigger] m.done[i]).ended_at,
                            (#[trigger] m.done[j]).started_at,
                        ) by {
                            assert(up_to(
                                closed(p).done[i].ended_at,
                                closed(p).done[j].started_at,
                            ));
                        }
                        hi
                    },
                    RecordView::End(_) => hi,
                    _ => t,
                }
            },
        }
    }
}

/// Of a log whose events stand in the order in which they happened, every
/// change falls between the start and the end of its checkpoint, and each
/// checkpoint ends before the next one starts.
pub proof fn lemma_checkpoints_in_time_order(session_id: Seq<char>, records: Seq<RecordView>)
    requires
        in_time_order(records),
    ensures
        consecutive(checkpoints_of(session_id, records)),
{
    let hi = Timestamp { secs: i64::MAX, nanos: u32::MAX };
    let t = lemma_grouped_by(session_id, records, hi);
    let (g, run) = grouped(session_id, records);
    lemma_debounced_between(run, t, hi);
    lemma_pushed_all_by(session_id, g, debounced(run), t, hi);
    lemma_closed_by(pushed_all(session_id, g, debounced(run)), hi);
}

/// Build the checkpoints of one session from its records, in order.
pub fn build_checkpoints(session_id: &str, records: &[Record]) -> (r: Vec<Checkpoint>)
    requires
        records@.len() < u32::MAX,
    ensures
        r.deep_view() == checkpoints_of(session_id@, records.deep_view()),
{
    let ghost all = records.deep_view();
    let mut grouper: Grouper = Grouper::new(session_id);
    let mut run: Vec<&RawEvent> = Vec::new();
    let mut k: usize = 0;
    let ghost mut seen: int = 0;
    assert(run.deep_view() =~= Seq::empty());
    assert(all.take(0) =~= Seq::empty());
    while k < records.len()
        invariant
            k <= records@.len() < u32::MAX,
            all == records.deep_view(),
            0 <= seen,
            seen + run.len() <= k,
            open_within(grouper.model(), seen),
            grouper.next_index <= seen + 1,
            grouper.session_id@ == session_id@,
            (grouper.model(), run.deep_view()) == grouped(session_id@, all.take(k as int)),
        decreases records@.len() - k,
    {
        let ghost next = all.take(k + 1);
        proof {
            assert(next.drop_last() =~= all.take(k as int));
            assert(next.last() == records[k as int].deep_view());
        }
        match &records[k] {
            Record::Event(event) => {
                let ghost was = run.deep_view();
                run.push(event);
                assert(run.deep_view() =~= was.push(event.deep_view()));
            },
            Record::Commit { timestamp: _, from_head, to_head } => {
                grouper.push_run(&run, Ghost(seen));
                proof {
                    seen = seen + run.len();
                }
                run.clear();
                assert(run.deep_view() =~= Seq::empty());
                grouper.head_moved(from_head, to_head);
            },
            Record::End(_) => {
                grouper.push_run(&run, Ghost(seen));
                proof {
                    seen = seen + run.len();
                }
                run.clear();
                assert(run.deep_view() =~= Seq::empty());
                grouper.close();
            },
            Record::Session(_) => {},
        }
        k += 1;
    }
    assert(all.take(k as int) =~= all);
    grouper.push_run(&run, Ghost(seen));
    grouper.finish()
}

/// An event on the file changed last, closer than [`DEBOUNCE`] to it, is part of
/// the same edit; any other event is a change of its own.
pub proof fn lemma_bursts_are_one_edit(events: Seq<RawEventView>, e: RawEventView)
    requires
        events.len() > 0,
    ensures
        ({
            let before = debounced(events);
            let after = debounced(events.push(e));
            if path::same_path(before.last().path, e.path) && gap(
                before.last().last_seen,
                e.timestamp,
            ) < DEBOUNCE {
                after.len() == before.len() && after.last().edits == (before.last().edits + 1)
                    as u32 && after.last().last_seen == e.timestamp && after.last().first_seen
                    == before.last().first_seen
            } else {
                after == before.push(change_of(e))
            }
        }),
{
    assert(events.push(e).drop_last() =~= events);
    lemma_some_change(events);
}

proof fn lemma_some_change(events: Seq<RawEventView>)
    requires
        events.len() > 0,
    ensures
        debounced(events).len() > 0,
    decreases events.len(),
{
}

/// A change more than [`WINDOW`] after the open checkpoint ended closes it and
/// opens the next; any other change joins it.
pub proof fn lemma_gap_starts_checkpoint(
    session_id: Seq<char>,
    g: Grouped,
    change: FileChangeView,
)
    requires
        g.open is Some,
    ensures
        ({
            let after = pushed(session_id, g, change);
            if gap(g.open->Some_0.ended_at, change.first_seen) > WINDOW {
                &&& after.open is Some
                &&& after.open->Some_0.id == checkpoint_id(session_id, g.next)
                &&& after.open->Some_0.started_at == change.first_seen
                &&& after.open->Some_0.changes.len() == 1
                &&& after.done == closed(g).done
            } else {
                &&& after.open is Some
                &&& after.open->Some_0.id == g.open->Some_0.id
                &&& after.open->Some_0.started_at == g.open->Some_0.started_at
                &&& after.done == g.done
            }
        }),
{
}

} // verus!
