//! One recording session, step by step.
//!
//! The watcher, the object database and the log belong to the caller. What it
//! saw comes in as plain values, and what there is to do goes out as a list of
//! actions, in the order in which they are to be done.

use super::{blob_hash, blob_id, with_renames, Tracker, TrackerView};
use super::snapshot::{
    self, ascending, lemma_stored_blobs, protected, ref_name_of, stored, PROTECT_EVERY,
    SNAPSHOT_MAX_BYTES, SnapshotStore, SnapshotStoreView,
};
use super::store::{
    FORMAT_VERSION, RawEvent, RawEventKind, RawEventView, Record, RecordView, SessionEnd,
    SessionEndView, SessionHeader, SessionHeaderView,
};
use crate::data::Dup;
use crate::display::{plural, plural_text};
use crate::git::repository::{worktree_id_of, Repo, RepoView};
use crate::map::{by_path, map_of, PathMap};
use crate::order::{self, sorted, ByPath};
use crate::path;
use crate::text;
use crate::time::{clock_seconds_text, wall, Timestamp, Zone};
use vstd::prelude::*;

verus! {

/// How many milliseconds to wait for more notifications before hashing a
/// batch. Editors and agents write several files in quick succession; one batch
/// means one hash per file instead of one per notification, and lets renames
/// pair up.
pub const BATCH_WINDOW: u64 = 250;

#[derive(Debug, Clone, PartialEq, Eq)]
pub struct Options {
    /// Seconds after which to stop by itself.
    pub stop_after: Option<u64>,
    pub quiet: bool,
    /// `--base` as given on the command line, used for the header only.
    pub base: Option<String>,
}

/// Whether a session is over: it was asked to stop, or its time is up after
/// `elapsed` seconds.
pub fn is_over(stopped: bool, elapsed: u64, opts: &Options) -> (r: bool)
    ensures
        r == (stopped || (opts.stop_after is Some && elapsed >= opts.stop_after->Some_0)),
{
    stopped || match opts.stop_after {
        Some(limit) => elapsed >= limit,
        None => false,
    }
}

// ---------------------------------------------------------------------------
// The header
/// The header of a session in a repository.
pub open spec fn header_of(
    repo: RepoView,
    session_id: Seq<char>,
    base_commit: Option<Seq<char>>,
    started_at: Timestamp,
) -> SessionHeaderView {
    SessionHeaderView {
        version: FORMAT_VERSION,
        session_id,
        repository_root: match path::parent(repo.worktree.common_dir) {
            Some(p) => p,
            None => repo.worktree.common_dir,
        },
        worktree_id: worktree_id_of(repo.worktree),
        worktree_path: repo.worktree.root,
        branch: repo.head.branch(),
        base_commit,
        start_head: Some(repo.head_id),
        started_at,
    }
}

/// The header of a session in a repository; `base_commit` is the merge base
/// with the base branch, if one could be found.
pub fn build_header(
    repo: &Repo,
    session_id: &str,
    base_commit: Option<String>,
    started_at: Timestamp,
) -> (r: SessionHeader)
    ensures
        r.deep_view() == header_of(
            repo.deep_view(),
            session_id@,
            base_commit.deep_view(),
            started_at,
        ),
{
    let r = SessionHeader {
        version: FORMAT_VERSION,
        session_id: session_id.to_owned(),
        repository_root: match path::parent_of(&repo.worktree.common_dir) {
            Some(p) => p,
            None => repo.worktree.common_dir.dup(),
        },
        worktree_id: repo.worktree_id(),
        worktree_path: repo.worktree.root.dup(),
        branch: match repo.head.branch_name() {
            Some(name) => Some(name.to_owned()),
            None => None,
        },
        base_commit,
        start_head: Some(repo.head_id.dup()),
        started_at,
    };
    assert(r.deep_view() =~= header_of(
        repo.deep_view(),
        session_id@,
        base_commit.deep_view(),
        started_at,
    ));
    r
}

/// What is shown when recording starts.
pub open spec fn banner_text(
    repo: RepoView,
    session_id: Seq<char>,
    log_path: Seq<char>,
) -> Seq<char> {
    "\nRecording development trail...\n\nRepository\n  "@ + repo.name + "\n\nWorktree\n  "@
        + repo.head.label_text() + "\n"@ + (if repo.worktree.id is Some {
        "  "@ + repo.worktree.root + "\n"@
    } else {
        ""@
    }) + "\nSession\n  "@ + session_id + "\n  "@ + log_path
        + "\n\nPress Ctrl+C to stop.\n\n"@
}

/// What is shown when recording starts.
pub fn banner(repo: &Repo, session_id: &str, log_path: &str) -> (r: String)
    ensures
        r@ == banner_text(repo.deep_view(), session_id@, log_path@),
{
    let mut out: String = text::cat5(
        "\nRecording development trail...\n\nRepository\n  ",
        &repo.name,
        "\n\nWorktree\n  ",
        &repo.head.label(),
        "\n",
    );
    if repo.worktree.id.is_some() {
        out.append(&text::cat3("  ", repo.workdir(), "\n"));
    } else {
        out.append("");
    }
    out.append("\nSession\n  ");
    out.append(session_id);
    out.append("\n  ");
    out.append(log_path);
    out.append("\n\nPress Ctrl+C to stop.\n\n");
    out
}

/// One event, as it is shown while recording.
pub open spec fn event_text(e: RawEventView, zone: Seq<(i64, i32)>) -> Seq<char> {
    clock_seconds_text(wall(zone, e.timestamp)) + (match e.kind {
        RawEventKind::Created => "  created "@,
        RawEventKind::Modified => "  modified "@,
        RawEventKind::Deleted => "  deleted "@,
        RawEventKind::Renamed => "  renamed "@ + (match e.from_path {
            Some(p) => p,
            None => "?"@,
        }) + " -> "@,
    }) + e.path
}

/// One event, as it is shown while recording.
pub fn describe(event: &RawEvent, zone: &Zone) -> (r: String)
    ensures
        r@ == event_text(event.deep_view(), zone.deep_view()),
{
    let time: String = zone.local(&event.timestamp).clock_seconds();
    match event.kind {
        RawEventKind::Created => text::cat3(&time, "  created ", &event.path),
        RawEventKind::Modified => text::cat3(&time, "  modified ", &event.path),
        RawEventKind::Deleted => text::cat3(&time, "  deleted ", &event.path),
        RawEventKind::Renamed => {
            let what: String = match &event.from_path {
                Some(p) => text::cat3("  renamed ", p, " -> "),
                None => text::cat3("  renamed ", "?", " -> "),
            };
            text::cat3(&time, &what, &event.path)
        },
    }
}

// ---------------------------------------------------------------------------
// Which paths count
/// Where a notified path lies in the worktree, when it may be recorded at all:
/// below the root, and neither git's own files nor the session log.
pub open spec fn recordable_at(repo: RepoView, abs: Seq<char>) -> Option<Seq<char>> {
    let w = repo.worktree;
    if path::is_below(abs, path::joined(w.root, ".git"@)) || path::is_below(abs, w.git_dir)
        || path::is_below(abs, w.common_dir) || !path::is_below(abs, w.root) || path::same_path(
        abs,
        w.root,
    ) {
        None
    } else {
        Some(path::below(w.root, abs))
    }
}

/// Where a notified path lies in the worktree, when it may be recorded at all.
/// Paths that git ignores are told apart by the caller.
pub fn recordable(repo: &Repo, abs: &str) -> (r: Option<String>)
    ensures
        r.deep_view() == recordable_at(repo.deep_view(), abs@),
{
    let w = &repo.worktree;
    if path::lies_below(abs, &path::join(&w.root, ".git")) || path::lies_below(abs, &w.git_dir)
        || path::lies_below(abs, &w.common_dir) || !path::lies_below(abs, &w.root) || path::same(
        abs,
        &w.root,
    ) {
        None
    } else {
        Some(path::strip(&w.root, abs))
    }
}

/// Every path once, as it was first named.
pub open spec fn each_once(pending: Seq<Seq<char>>) -> Seq<Seq<char>>
    decreases pending.len(),
{
    if pending.len() == 0 {
        Seq::empty()
    } else {
        let before = each_once(pending.drop_last());
        if path::among(before, pending.last()) {
            before
        } else {
            before.push(pending.last())
        }
    }
}

/// The paths of a batch, each once, in the order in which they are looked at.
pub fn batch_order(pending: &Vec<String>) -> (r: Vec<String>)
    ensures
        r.deep_view() == sorted::<String, ByPath>(each_once(pending.deep_view())),
{
    let ghost all = pending.deep_view();
    let mut out: Vec<String> = Vec::new();
    let mut k: usize = 0;
    assert(out.deep_view() =~= each_once(all.take(0)));
    while k < pending.len()
        invariant
            k <= pending.len(),
            all == pending.deep_view(),
            out.deep_view() == each_once(all.take(k as int)),
        decreases pending.len() - k,
    {
        let ghost was = out.deep_view();
        proof {
            assert(all.take(k + 1).drop_last() =~= all.take(k as int));
            assert(all.take(k + 1).last() == pending[k as int]@);
        }
        if !path::is_among(&out, &pending[k]) {
            out.push(pending[k].dup());
            assert(out.deep_view() =~= was.push(all[k as int]));
        }
        k += 1;
    }
    assert(all.take(k as int) =~= all);
    order::sort::<String, ByPath>(out)
}

// ---------------------------------------------------------------------------
// Steps
/// A path of a batch with its content, `None` when there is no such file.
#[derive(Debug, Clone, PartialEq, Eq)]
pub struct Observation {
    pub path: String,
    pub content: Option<Vec<u8>>,
    /// The ignore rules of the repository match it.
    pub ignored: bool,
    pub directory: bool,
}

/// What was seen after a batch of notifications.
#[derive(Debug, Clone, PartialEq, Eq)]
pub struct Seen {
    /// Where HEAD is, when that could be read.
    pub head: Option<String>,
    /// The blob ids in the index, when HEAD moved and they could be read.
    pub index: Option<Vec<(String, String)>>,
    pub files: Vec<Observation>,
}

/// Something the caller has to do.
#[derive(Debug, Clone, PartialEq, Eq)]
pub enum Action {
    /// Append a record to the session log.
    Write(Record),
    /// Write a blob into the object database.
    Store(Vec<u8>),
    /// Point the protecting reference at every blob stored so far: those of
    /// the ledger as it was then.
    Protect(SnapshotStore),
    /// Show a line.
    Say(String),
}

/// What a [`Observation`] denotes.
#[verifier::ext_equal]
pub struct ObservationView {
    pub path: Seq<char>,
    pub content: Option<Seq<u8>>,
    pub ignored: bool,
    pub directory: bool,
}

impl DeepView for Observation {
    type V = ObservationView;

    open spec fn deep_view(&self) -> ObservationView {
        ObservationView {
            path: self.path.deep_view(),
            content: self.content.deep_view(),
            ignored: self.ignored,
            directory: self.directory,
        }
    }
}

impl Dup for Observation {
    fn dup(&self) -> (r: Observation) {
        Observation {
            path: self.path.dup(),
            content: self.content.dup(),
            ignored: self.ignored,
            directory: self.directory,
        }
    }
}

/// What a [`Seen`] denotes.
#[verifier::ext_equal]
pub struct SeenView {
    pub head: Option<Seq<char>>,
    pub index: Option<Seq<(Seq<char>, Seq<char>)>>,
    pub files: Seq<ObservationView>,
}

impl DeepView for Seen {
    type V = SeenView;

    open spec fn deep_view(&self) -> SeenView {
        SeenView {
            head: self.head.deep_view(),
            index: self.index.deep_view(),
            files: self.files.deep_view(),
        }
    }
}

impl Dup for Seen {
    fn dup(&self) -> (r: Seen) {
        Seen {
            head: self.head.dup(),
            index: self.index.dup(),
            files: self.files.dup(),
        }
    }
}

/// What a [`Action`] denotes.
#[verifier::ext_equal]
pub enum ActionView {
    Write(RecordView),
    Store(Seq<u8>),
    Protect(SnapshotStoreView),
    Say(Seq<char>),
}

impl DeepView for Action {
    type V = ActionView;

    open spec fn deep_view(&self) -> ActionView {
        match *self {
            Action::Write(x) => ActionView::Write(x.deep_view()),
            Action::Store(x) => ActionView::Store(x.deep_view()),
            Action::Protect(x) => ActionView::Protect(x.deep_view()),
            Action::Say(x) => ActionView::Say(x.deep_view()),
        }
    }
}

impl Dup for Action {
    fn dup(&self) -> (r: Action) {
        match self {
            Action::Write(x) => Action::Write(x.dup()),
            Action::Store(x) => Action::Store(x.dup()),
            Action::Protect(x) => Action::Protect(x.dup()),
            Action::Say(x) => Action::Say(x.dup()),
        }
    }
}

/// The state of a recording session.
#[derive(Debug, Clone, PartialEq, Eq)]
pub struct Recorder {
    pub tracker: Tracker,
    pub last_head: String,
    pub events: usize,
    pub quiet: bool,
    pub snapshots: SnapshotStore,
}

/// What a [`Recorder`] denotes.
#[verifier::ext_equal]
pub struct RecorderView {
    pub tracker: TrackerView,
    pub last_head: Seq<char>,
    pub events: usize,
    pub quiet: bool,
    pub snapshots: SnapshotStoreView,
}

impl DeepView for Recorder {
    type V = RecorderView;

    open spec fn deep_view(&self) -> RecorderView {
        RecorderView {
            tracker: self.tracker.deep_view(),
            last_head: self.last_head@,
            events: self.events,
            quiet: self.quiet,
            snapshots: self.snapshots.deep_view(),
        }
    }
}

/// The first characters of an object id, enough to tell it by.
pub open spec fn abbreviated(id: Seq<char>) -> Seq<char> {
    if id.len() > 7 {
        id.take(7)
    } else {
        id
    }
}

fn abbreviate(id: &str) -> (r: String)
    ensures
        r@ == abbreviated(id@),
{
    if id.unicode_len() > 7 {
        assert(id@.subrange(0, 7) =~= id@.take(7));
        id.substring_char(0, 7).to_owned()
    } else {
        id.to_owned()
    }
}

pub open spec fn said(quiet: bool, line: Seq<char>) -> Seq<ActionView> {
    if quiet {
        Seq::empty()
    } else {
        seq![ActionView::Say(line)]
    }
}

/// What a notification that HEAD may have moved leads to: if it did, that is
/// recorded, everything committed is the baseline for later edits, and the
/// snapshots so far are protected.
pub open spec fn head_step(
    s: RecorderView,
    head: Option<Seq<char>>,
    index: Option<Seq<(Seq<char>, Seq<char>)>>,
    ts: Timestamp,
    zone: Seq<(i64, i32)>,
) -> (RecorderView, Seq<ActionView>) {
    match head {
        Some(head) if head != s.last_head => (
            RecorderView {
                tracker: match index {
                    Some(entries) => TrackerView {
                        baseline: map_of(by_path(entries)),
                        ..s.tracker
                    },
                    None => s.tracker,
                },
                last_head: head,
                snapshots: protected(s.snapshots),
                ..s
            },
            seq![
                ActionView::Write(
                    RecordView::Commit { timestamp: ts, from_head: s.last_head, to_head: head },
                ),
            ] + said(
                s.quiet,
                clock_seconds_text(wall(zone, ts)) + "  HEAD moved to "@ + abbreviated(head),
            ) + (if s.snapshots.blobs.len() > 0 {
                seq![ActionView::Protect(protected(s.snapshots))]
            } else {
                Seq::empty()
            }),
        ),
        _ => (s, Seq::empty()),
    }
}

/// Ignored files and directories are skipped.
pub open spec fn is_recorded(f: ObservationView) -> bool {
    !f.ignored && !f.directory
}

/// The hash of what was found.
pub open spec fn hash_of(f: ObservationView) -> Option<Seq<char>> {
    match f.content {
        Some(data) => blob_hash(data),
        None => None,
    }
}

/// The batch that some observations are: each path that is recorded, with the
/// hash of its content.
pub open spec fn batch_of(files: Seq<ObservationView>) -> Seq<(Seq<char>, Option<Seq<char>>)>
    decreases files.len(),
{
    if files.len() == 0 {
        Seq::empty()
    } else if is_recorded(files.last()) {
        batch_of(files.drop_last()).push((files.last().path, hash_of(files.last())))
    } else {
        batch_of(files.drop_last())
    }
}

/// The content observed for a path, if any; the last one counts.
pub open spec fn content_of(files: Seq<ObservationView>, p: Seq<char>) -> Option<Seq<u8>>
    decreases files.len(),
{
    if files.len() == 0 {
        None
    } else if is_recorded(files.last()) && path::same_path(files.last().path, p)
        && files.last().content is Some {
        files.last().content
    } else {
        content_of(files.drop_last(), p)
    }
}

/// What one event leads to: it is recorded, its new content is stored unless it
/// is over the size cap, and it is shown.
pub open spec fn event_step(
    s: RecorderView,
    files: Seq<ObservationView>,
    e: RawEventView,
    zone: Seq<(i64, i32)>,
) -> (RecorderView, Seq<ActionView>) {
    let counted = RecorderView { events: (s.events + 1) as usize, ..s };
    let written = seq![ActionView::Write(RecordView::Event(e))];
    match (e.after_hash, content_of(files, e.path)) {
        (Some(id), Some(data)) => (
            RecorderView {
                snapshots: stored(s.snapshots, id, data.len() as int),
                ..counted
            },
            written + (if data.len() <= SNAPSHOT_MAX_BYTES {
                seq![ActionView::Store(data)]
            } else {
                Seq::empty()
            }) + said(s.quiet, event_text(e, zone)),
        ),
        _ => (counted, written + said(s.quiet, event_text(e, zone))),
    }
}

pub open spec fn events_step(
    s: RecorderView,
    files: Seq<ObservationView>,
    events: Seq<RawEventView>,
    zone: Seq<(i64, i32)>,
) -> (RecorderView, Seq<ActionView>)
    decreases events.len(),
{
    if events.len() == 0 {
        (s, Seq::empty())
    } else {
        let (before, done) = events_step(s, files, events.drop_last(), zone);
        let (after, more) = event_step(before, files, events.last(), zone);
        (after, done + more)
    }
}

/// Snapshots are protected once enough new ones have come together.
pub open spec fn protect_step(s: RecorderView) -> (RecorderView, Seq<ActionView>) {
    if s.snapshots.unprotected >= PROTECT_EVERY {
        (
            RecorderView { snapshots: protected(s.snapshots), ..s },
            seq![ActionView::Protect(protected(s.snapshots))],
        )
    } else {
        (s, Seq::empty())
    }
}

/// What a batch leads to.
pub open spec fn step_of(
    s: RecorderView,
    seen: SeenView,
    ts: Timestamp,
    zone: Seq<(i64, i32)>,
) -> (RecorderView, Seq<ActionView>) {
    let (moved, a) = head_step(s, seen.head, seen.index, ts, zone);
    let batch = batch_of(seen.files);
    let events = moved.tracker.events(batch, ts);
    let observed = RecorderView { tracker: moved.tracker.observed_all(batch), ..moved };
    let (recorded, b) = events_step(observed, seen.files, with_renames(events, events), zone);
    let (done, c) = protect_step(recorded);
    (done, a + b + c)
}

/// What the end of a session leads to: the last snapshots are protected and the
/// log is closed.
pub open spec fn end_step(s: RecorderView, ended_at: Timestamp, log_path: Seq<char>) -> Seq<
    ActionView,
> {
    (if s.snapshots.blobs.len() > 0 {
        seq![ActionView::Protect(s.snapshots)]
    } else {
        Seq::empty()
    }) + seq![
        ActionView::Write(RecordView::End(SessionEndView { ended_at, events: s.events })),
    ] + said(s.quiet, ""@) + said(
        s.quiet,
        "Recorded "@ + text::decimal(s.events as nat) + " change"@ + plural_text(s.events as int)
            + " to "@ + log_path,
    ) + (if s.snapshots.blobs.len() > 0 {
        said(
            s.quiet,
            "Snapshots: "@ + text::decimal(s.snapshots.blobs.len()) + " blob"@ + plural_text(
                s.snapshots.blobs.len() as int,
            ) + " kept under "@ + ref_name_of(s.snapshots.session_id),
        )
    } else {
        Seq::empty()
    })
}

proof fn lemma_events_len(t: TrackerView, batch: Seq<(Seq<char>, Option<Seq<char>>)>, ts: Timestamp)
    ensures
        t.events(batch, ts).len() <= batch.len(),
    decreases batch.len(),
{
    if batch.len() > 0 {
        lemma_events_len(t, batch.drop_last(), ts);
    }
}

proof fn lemma_renames_len(all: Seq<RawEventView>, some: Seq<RawEventView>)
    ensures
        with_renames(all, some).len() <= some.len(),
    decreases some.len(),
{
    if some.len() > 0 {
        lemma_renames_len(all, some.drop_last());
    }
}

fn find_content<'a>(files: &'a Vec<Observation>, p: &str) -> (r: Option<&'a Vec<u8>>)
    ensures
        r.deep_view() == content_of(files.deep_view(), p@),
{
    let ghost all = files.deep_view();
    let mut k: usize = files.len();
    assert(all.take(k as int) =~= all);
    while k > 0
        invariant
            k <= files.len(),
            all == files.deep_view(),
            content_of(all, p@) == content_of(all.take(k as int), p@),
        decreases k,
    {
        assert(all.take(k as int).last() == files[k - 1].deep_view());
        if !files[k - 1].ignored && !files[k - 1].directory && path::same(
            &files[k - 1].path,
            p,
        ) {
            match &files[k - 1].content {
                Some(data) => {
                    return Some(data);
                },
                None => {},
            }
        }
        assert(all.take(k as int).drop_last() =~= all.take(k - 1));
        k -= 1;
    }
    None
}

fn hash_all(files: &Vec<Observation>) -> (r: Vec<(String, Option<String>)>)
    ensures
        r.deep_view() == batch_of(files.deep_view()),
        r.len() <= files.len(),
{
    let ghost all = files.deep_view();
    let mut out: Vec<(String, Option<String>)> = Vec::new();
    let mut k: usize = 0;
    assert(out.deep_view() =~= batch_of(all.take(0)));
    while k < files.len()
        invariant
            k <= files.len(),
            out.len() <= k,
            all == files.deep_view(),
            out.deep_view() == batch_of(all.take(k as int)),
        decreases files.len() - k,
    {
        let ghost was = out.deep_view();
        proof {
            assert(all.take(k + 1).drop_last() =~= all.take(k as int));
            assert(all.take(k + 1).last() == files[k as int].deep_view());
        }
        if !files[k].ignored && !files[k].directory {
            let hash: Option<String> = match &files[k].content {
                Some(data) => {
                    assert(data.deep_view() =~= data@);
                    blob_id(data.as_slice())
                },
                None => None,
            };
            let ghost h = hash.deep_view();
            out.push((files[k].path.dup(), hash));
            assert(out.deep_view() =~= was.push((files[k as int].path@, h)));
        }
        k += 1;
    }
    assert(all.take(k as int) =~= all);
    out
}

fn say(actions: &mut Vec<Action>, quiet: bool, line: String)
    ensures
        final(actions).deep_view() == old(actions).deep_view() + said(quiet, line@),
{
    let ghost was = actions.deep_view();
    let ghost l = line@;
    if !quiet {
        actions.push(Action::Say(line));
    }
    assert(actions.deep_view() =~= was + said(quiet, l));
}

impl RecorderView {
    /// The snapshots are consistent, and counting `n` more stays within limits.
    pub open spec fn room_for(self, n: int) -> bool {
        &&& self.snapshots.valid()
        &&& self.events + n <= usize::MAX
        &&& self.snapshots.blobs.len() + n <= usize::MAX
    }
}

impl Recorder {
    pub fn new(
        index: Vec<(String, String)>,
        head: String,
        quiet: bool,
        session_id: &str,
    ) -> (r: Recorder)
        ensures
            r.deep_view() == (RecorderView {
                tracker: TrackerView {
                    known: Map::empty(),
                    baseline: map_of(by_path(index.deep_view())),
                },
                last_head: head@,
                events: 0,
                quiet,
                snapshots: SnapshotStoreView {
                    session_id: session_id@,
                    blobs: Seq::empty(),
                    unprotected: 0,
                },
            }),
            r.deep_view().room_for(0),
    {
        Recorder {
            tracker: Tracker::new(PathMap::from_entries(index)),
            last_head: head,
            events: 0,
            quiet,
            snapshots: SnapshotStore::new(session_id),
        }
    }

    /// Whether HEAD is somewhere else than it was.
    pub fn head_moved(&self, head: &str) -> (r: bool)
        ensures
            r == (head@ != self.deep_view().last_head),
    {
        !text::same(head, &self.last_head)
    }

    fn step_head(
        &mut self,
        head: &Option<String>,
        index: &Option<Vec<(String, String)>>,
        ts: Timestamp,
        zone: &Zone,
    ) -> (r: Vec<Action>)
        requires
            old(self).deep_view().snapshots.valid(),
        ensures
            (final(self).deep_view(), r.deep_view()) == head_step(
                old(self).deep_view(),
                head.deep_view(),
                index.deep_view(),
                ts,
                zone.deep_view(),
            ),
            final(self).deep_view().snapshots.valid(),
    {
        let ghost was = self.deep_view();
        let mut actions: Vec<Action> = Vec::new();
        assert(actions.deep_view() =~= Seq::empty());
        match head {
            Some(head) => {
                if text::same(head, &self.last_head) {
                    return actions;
                }
                actions.push(
                    Action::Write(
                        Record::Commit {
                            timestamp: ts,
                            from_head: self.last_head.dup(),
                            to_head: head.dup(),
                        },
                    ),
                );
                let line: String = text::cat3(
                    &zone.local(&ts).clock_seconds(),
                    "  HEAD moved to ",
                    &abbreviate(head),
                );
                let ghost record = RecordView::Commit {
                    timestamp: ts,
                    from_head: was.last_head,
                    to_head: head@,
                };
                assert(actions.deep_view() =~= seq![ActionView::Write(record)]);
                say(&mut actions, self.quiet, line);
                self.last_head = head.dup();
                match index {
                    Some(entries) => {
                        self.tracker.reset_baseline(PathMap::from_entries(entries.dup()));
                    },
                    None => {},
                }
                let ghost before = actions.deep_view();
                if self.snapshots.protect() {
                    actions.push(Action::Protect(self.snapshots.dup()));
                    assert(actions.deep_view() =~= before + seq![
                        ActionView::Protect(protected(was.snapshots)),
                    ]);
                } else {
                    assert(actions.deep_view() =~= before + Seq::empty());
                }
                assert(self.deep_view() =~= head_step(
                    was,
                    Some(head@),
                    index.deep_view(),
                    ts,
                    zone.deep_view(),
                ).0);
            },
            None => {},
        }
        actions
    }

    fn step_event(&mut self, files: &Vec<Observation>, e: &RawEvent, zone: &Zone) -> (r: Vec<
        Action,
    >)
        requires
            old(self).deep_view().room_for(1),
        ensures
            (final(self).deep_view(), r.deep_view()) == event_step(
                old(self).deep_view(),
                files.deep_view(),
                e.deep_view(),
                zone.deep_view(),
            ),
            final(self).deep_view().snapshots.valid(),
            final(self).events == old(self).events + 1,
            final(self).deep_view().snapshots.blobs.len() <= old(
                self,
            ).deep_view().snapshots.blobs.len() + 1,
    {
        let ghost was = self.deep_view();
        let mut actions: Vec<Action> = Vec::new();
        self.events = self.events + 1;
        actions.push(Action::Write(Record::Event(e.dup())));
        let ghost written = seq![ActionView::Write(RecordView::Event(e.deep_view()))];
        assert(actions.deep_view() =~= written);
        match &e.after_hash {
            Some(id) => match find_content(files, &e.path) {
                Some(data) => {
                    proof {
                        snapshot::lemma_stored_len(
                            self.snapshots.deep_view(),
                            id@,
                            data.len() as int,
                        );
                    }
                    let ghost before = actions.deep_view();
                    if self.snapshots.store(id, data.len()) {
                        actions.push(Action::Store(data.dup()));
                        assert(actions.deep_view() =~= before + seq![
                            ActionView::Store(data.deep_view()),
                        ]);
                    } else {
                        assert(actions.deep_view() =~= before + Seq::empty());
                    }
                },
                None => {},
            },
            None => {},
        }
        say(&mut actions, self.quiet, describe(e, zone));
        assert(self.deep_view() =~= event_step(
            was,
            files.deep_view(),
            e.deep_view(),
            zone.deep_view(),
        ).0);
        actions
    }

    /// Takes in what was seen after a batch of notifications, and says what
    /// there is to do.
    pub fn step(&mut self, seen: &Seen, ts: Timestamp, zone: &Zone) -> (r: Vec<Action>)
        requires
            old(self).deep_view().room_for(seen.files.len() as int),
        ensures
            (final(self).deep_view(), r.deep_view()) == step_of(
                old(self).deep_view(),
                seen.deep_view(),
                ts,
                zone.deep_view(),
            ),
            final(self).deep_view().snapshots.valid(),
    {
        let ghost start = self.deep_view();
        let ghost files = seen.files.deep_view();
        let mut actions: Vec<Action> = self.step_head(&seen.head, &seen.index, ts, zone);
        let ghost moved = self.deep_view();
        let ghost a = actions.deep_view();
        let batch: Vec<(String, Option<String>)> = hash_all(&seen.files);
        let ghost bv = batch.deep_view();
        let events: Vec<RawEvent> = self.tracker.observe_batch(batch, ts);
        let ghost all = events.deep_view();
        proof {
            lemma_events_len(moved.tracker, bv, ts);
            lemma_renames_len(moved.tracker.events(bv, ts), moved.tracker.events(bv, ts));
        }
        let ghost observed = RecorderView { tracker: moved.tracker.observed_all(bv), ..moved };
        assert(self.deep_view() =~= observed);
        let mut k: usize = 0;
        assert(events_step(observed, files, all.take(0), zone.deep_view()).1 =~= Seq::empty());
        assert(a + Seq::<ActionView>::empty() =~= a);
        while k < events.len()
            invariant
                k <= events.len() <= seen.files.len(),
                all == events.deep_view(),
                files == seen.files.deep_view(),
                self.deep_view() == events_step(
                    observed,
                    files,
                    all.take(k as int),
                    zone.deep_view(),
                ).0,
                actions.deep_view() == a + events_step(
                    observed,
                    files,
                    all.take(k as int),
                    zone.deep_view(),
                ).1,
                self.deep_view().room_for(seen.files.len() - k),
            decreases events.len() - k,
        {
            let ghost before = actions.deep_view();
            proof {
                assert(all.take(k + 1).drop_last() =~= all.take(k as int));
                assert(all.take(k + 1).last() == events[k as int].deep_view());
            }
            let mut more: Vec<Action> = self.step_event(&seen.files, &events[k], zone);
            let ghost m = more.deep_view();
            actions.append(&mut more);
            assert(actions.deep_view() =~= before + m);
            assert(actions.deep_view() =~= a + events_step(
                observed,
                files,
                all.take(k + 1),
                zone.deep_view(),
            ).1);
            k += 1;
        }
        assert(all.take(k as int) =~= all);
        let ghost recorded = self.deep_view();
        let ghost before = actions.deep_view();
        if self.snapshots.needs_protection() {
            let _ = self.snapshots.protect();
            actions.push(Action::Protect(self.snapshots.dup()));
            assert(self.deep_view() =~= protect_step(recorded).0);
            assert(actions.deep_view() =~= before + seq![
                ActionView::Protect(protected(recorded.snapshots)),
            ]);
        } else {
            assert(actions.deep_view() =~= before + Seq::empty());
        }
        actions
    }

    /// Ends the session, and says what is left to do.
    pub fn finish(&self, ended_at: Timestamp, log_path: &str) -> (r: Vec<Action>)
        ensures
            r.deep_view() == end_step(self.deep_view(), ended_at, log_path@),
    {
        let mut actions: Vec<Action> = Vec::new();
        assert(actions.deep_view() =~= Seq::empty());
        let kept: bool = self.snapshots.blob_count() > 0;
        if kept {
            actions.push(Action::Protect(self.snapshots.dup()));
            assert(actions.deep_view() =~= seq![ActionView::Protect(self.snapshots.deep_view())]);
        }
        let ghost before = actions.deep_view();
        let end = SessionEnd { ended_at, events: self.events };
        let ghost written = ActionView::Write(RecordView::End(end.deep_view()));
        actions.push(Action::Write(Record::End(end)));
        assert(actions.deep_view() =~= before + seq![written]);
        say(&mut actions, self.quiet, "".to_owned());
        say(
            &mut actions,
            self.quiet,
            text::cat6(
                "Recorded ",
                &text::decimal_of(self.events as u64),
                " change",
                plural(self.events),
                " to ",
                log_path,
            ),
        );
        let ghost before = actions.deep_view();
        if kept {
            let n: usize = self.snapshots.blob_count();
            say(
                &mut actions,
                self.quiet,
                text::cat6(
                    "Snapshots: ",
                    &text::decimal_of(n as u64),
                    " blob",
                    plural(n),
                    " kept under ",
                    &snapshot::ref_name(&self.snapshots.session_id),
                ),
            );
        } else {
            assert(before + Seq::<ActionView>::empty() =~= before);
        }
        actions
    }
}

// ---------------------------------------------------------------------------
// What holds of every recording
pub open spec fn is_commit(a: ActionView) -> bool {
    a is Write && a->Write_0 is Commit
}

proof fn lemma_events_step(
    s: RecorderView,
    files: Seq<ObservationView>,
    events: Seq<RawEventView>,
    zone: Seq<(i64, i32)>,
)
    ensures
        events_step(s, files, events, zone).0.last_head == s.last_head,
        events_step(s, files, events, zone).0.quiet == s.quiet,
        forall|i: int|
            0 <= i < events_step(s, files, events, zone).1.len() ==> !is_commit(
                #[trigger] events_step(s, files, events, zone).1[i],
            ),
        s.quiet ==> forall|i: int|
            0 <= i < events_step(s, files, events, zone).1.len() ==> !(
            #[trigger] events_step(s, files, events, zone).1[i] is Say),
    decreases events.len(),
{
    if events.len() > 0 {
        lemma_events_step(s, files, events.drop_last(), zone);
    }
}

/// While recording quietly nothing is said.
pub proof fn lemma_quiet_says_nothing(
    s: RecorderView,
    seen: SeenView,
    ts: Timestamp,
    zone: Seq<(i64, i32)>,
    ended_at: Timestamp,
    log_path: Seq<char>,
)
    requires
        s.quiet,
    ensures
        step_of(s, seen, ts, zone).0.quiet,
        forall|i: int|
            0 <= i < step_of(s, seen, ts, zone).1.len() ==> !(#[trigger] step_of(
                s,
                seen,
                ts,
                zone,
            ).1[i] is Say),
        forall|i: int|
            0 <= i < end_step(s, ended_at, log_path).len() ==> !(#[trigger] end_step(
                s,
                ended_at,
                log_path,
            )[i] is Say),
{
    let (moved, a) = head_step(s, seen.head, seen.index, ts, zone);
    let batch = batch_of(seen.files);
    let events = moved.tracker.events(batch, ts);
    let observed = RecorderView { tracker: moved.tracker.observed_all(batch), ..moved };
    lemma_events_step(observed, seen.files, with_renames(events, events), zone);
}

/// A movement of HEAD is recorded when HEAD changed, from where it was to where
/// it is, ahead of everything else in the batch, and never otherwise.
pub proof fn lemma_movements_are_recorded(
    s: RecorderView,
    seen: SeenView,
    ts: Timestamp,
    zone: Seq<(i64, i32)>,
)
    ensures
        ({
            let (after, actions) = step_of(s, seen, ts, zone);
            match seen.head {
                Some(head) if head != s.last_head => {
                    &&& after.last_head == head
                    &&& actions.len() > 0
                    &&& actions[0] == ActionView::Write(
                        RecordView::Commit { timestamp: ts, from_head: s.last_head, to_head: head },
                    )
                    &&& forall|i: int| 0 < i < actions.len() ==> !is_commit(#[trigger] actions[i])
                },
                _ => {
                    &&& after.last_head == s.last_head
                    &&& forall|i: int| 0 <= i < actions.len() ==> !is_commit(#[trigger] actions[i])
                },
            }
        }),
{
    let (moved, a) = head_step(s, seen.head, seen.index, ts, zone);
    let batch = batch_of(seen.files);
    let events = moved.tracker.events(batch, ts);
    let observed = RecorderView { tracker: moved.tracker.observed_all(batch), ..moved };
    lemma_events_step(observed, seen.files, with_renames(events, events), zone);
}

/// After every batch fewer than [`PROTECT_EVERY`] snapshots are unprotected.
pub proof fn lemma_snapshots_are_protected(
    s: RecorderView,
    seen: SeenView,
    ts: Timestamp,
    zone: Seq<(i64, i32)>,
)
    ensures
        step_of(s, seen, ts, zone).0.snapshots.unprotected < PROTECT_EVERY,
{
}

/// Every file of a batch was observed once.
pub open spec fn observed_once(files: Seq<ObservationView>) -> bool {
    forall|i: int, j: int|
        0 <= i < j < files.len() ==> !path::same_path(
            (#[trigger] files[i]).path,
            (#[trigger] files[j]).path,
        )
}

/// An event comes from an observation that is recorded: it carries the hash of
/// what was found.
pub open spec fn comes_from(e: RawEventView, f: ObservationView) -> bool {
    is_recorded(f) && e.path == f.path && e.after_hash == hash_of(f)
}

/// Every event comes from one of the observations.
pub open spec fn all_observed(events: Seq<RawEventView>, files: Seq<ObservationView>) -> bool {
    forall|i: int|
        0 <= i < events.len() ==> exists|k: int|
            0 <= k < files.len() && comes_from(#[trigger] events[i], #[trigger] files[k])
}

proof fn lemma_events_observed(t: TrackerView, files: Seq<ObservationView>, ts: Timestamp)
    ensures
        all_observed(t.events(batch_of(files), ts), files),
    decreases files.len(),
{
    if files.len() > 0 {
        let rest = files.drop_last();
        let n = rest.len() as int;
        lemma_events_observed(t, rest, ts);
        if is_recorded(files.last()) {
            assert(batch_of(files).drop_last() =~= batch_of(rest));
        }
        let before = t.events(batch_of(rest), ts);
        let after = t.events(batch_of(files), ts);
        assert forall|i: int| 0 <= i < after.len() implies exists|k: int|
            0 <= k < files.len() && comes_from(#[trigger] after[i], #[trigger] files[k]) by {
            if i < before.len() {
                assert(after[i] == before[i]);
                let k = choose|k: int|
                    0 <= k < rest.len() && comes_from(before[i], #[trigger] rest[k]);
                assert(files[k] == rest[k]);
                assert(comes_from(after[i], files[k]));
            } else {
                assert(comes_from(after[i], files[n]));
            }
        }
    }
}

proof fn lemma_renames_observed(
    all: Seq<RawEventView>,
    some: Seq<RawEventView>,
    files: Seq<ObservationView>,
)
    requires
        all_observed(some, files),
    ensures
        all_observed(with_renames(all, some), files),
    decreases some.len(),
{
    if some.len() > 0 {
        let rest = some.drop_last();
        assert forall|i: int| 0 <= i < rest.len() implies exists|k: int|
            0 <= k < files.len() && comes_from(#[trigger] rest[i], #[trigger] files[k]) by {
            assert(rest[i] == some[i]);
            let k = choose|k: int|
                0 <= k < files.len() && comes_from(some[i], #[trigger] files[k]);
            assert(comes_from(rest[i], files[k]));
        }
        lemma_renames_observed(all, rest, files);
        let before = with_renames(all, rest);
        let after = with_renames(all, some);
        let last = some[some.len() - 1];
        let m = choose|k: int| 0 <= k < files.len() && comes_from(last, #[trigger] files[k]);
        assert forall|i: int| 0 <= i < after.len() implies exists|k: int|
            0 <= k < files.len() && comes_from(#[trigger] after[i], #[trigger] files[k]) by {
            if i < before.len() {
                assert(after[i] == before[i]);
                let k = choose|k: int|
                    0 <= k < files.len() && comes_from(before[i], #[trigger] files[k]);
                assert(comes_from(after[i], files[k]));
            } else {
                assert(comes_from(after[i], files[m]));
            }
        }
    }
}

proof fn lemma_content_found(files: Seq<ObservationView>, k: int)
    requires
        observed_once(files),
        0 <= k < files.len(),
        is_recorded(files[k]),
        files[k].content is Some,
    ensures
        content_of(files, files[k].path) == files[k].content,
    decreases files.len(),
{
    if k < files.len() - 1 {
        let rest = files.drop_last();
        assert(!path::same_path(files[k].path, files[files.len() - 1].path));
        assert(rest[k] == files[k]);
        assert forall|i: int, j: int| 0 <= i < j < rest.len() implies !path::same_path(
            (#[trigger] rest[i]).path,
            (#[trigger] rest[j]).path,
        ) by {
            assert(!path::same_path(files[i].path, files[j].path));
        }
        lemma_content_found(rest, k);
    }
}

proof fn lemma_event_stored(
    s: RecorderView,
    files: Seq<ObservationView>,
    events: Seq<RawEventView>,
    zone: Seq<(i64, i32)>,
    i: int,
) -> (j: int)
    requires
        0 <= i < events.len(),
        events[i].after_hash is Some,
        content_of(files, events[i].path) is Some,
        content_of(files, events[i].path)->Some_0.len() <= SNAPSHOT_MAX_BYTES,
    ensures
        0 <= j < events_step(s, files, events, zone).1.len(),
        events_step(s, files, events, zone).1[j] == ActionView::Store(
            content_of(files, events[i].path)->Some_0,
        ),
    decreases events.len(),
{
    let rest = events.drop_last();
    let (before, done) = events_step(s, files, rest, zone);
    if i < rest.len() {
        assert(rest[i] == events[i]);
        lemma_event_stored(s, files, rest, zone, i)
    } else {
        let more = event_step(before, files, events.last(), zone).1;
        assert(more[1] == ActionView::Store(content_of(files, events[i].path)->Some_0));
        assert(events_step(s, files, events, zone).1 == done + more);
        assert((done + more)[done.len() as int + 1] == more[1]);
        done.len() as int + 1
    }
}

/// The events that a batch leads to.
pub open spec fn events_of(
    s: RecorderView,
    seen: SeenView,
    ts: Timestamp,
    zone: Seq<(i64, i32)>,
) -> Seq<RawEventView> {
    let moved = head_step(s, seen.head, seen.index, ts, zone).0;
    let events = moved.tracker.events(batch_of(seen.files), ts);
    with_renames(events, events)
}

/// Ignored paths and directories are skipped: every recorded event comes from
/// an observation of a file that is neither.
pub proof fn lemma_ignored_paths_are_skipped(
    s: RecorderView,
    seen: SeenView,
    ts: Timestamp,
    zone: Seq<(i64, i32)>,
)
    ensures
        all_observed(events_of(s, seen, ts, zone), seen.files),
{
    let moved = head_step(s, seen.head, seen.index, ts, zone).0;
    let raw = moved.tracker.events(batch_of(seen.files), ts);
    lemma_events_observed(moved.tracker, seen.files, ts);
    lemma_renames_observed(raw, raw, seen.files);
}

/// What is recorded can be read back: the content of every recorded version,
/// unless it is over the size cap, is stored, and the record carries its hash.
pub proof fn lemma_recorded_versions_are_stored(
    s: RecorderView,
    seen: SeenView,
    ts: Timestamp,
    zone: Seq<(i64, i32)>,
    i: int,
) -> (data: Seq<u8>)
    requires
        observed_once(seen.files),
        0 <= i < events_of(s, seen, ts, zone).len(),
        events_of(s, seen, ts, zone)[i].after_hash is Some,
    ensures
        blob_hash(data) == events_of(s, seen, ts, zone)[i].after_hash,
        data.len() <= SNAPSHOT_MAX_BYTES ==> step_of(s, seen, ts, zone).1.contains(
            ActionView::Store(data),
        ),
{
    let files = seen.files;
    let (moved, a) = head_step(s, seen.head, seen.index, ts, zone);
    let batch = batch_of(files);
    let raw = moved.tracker.events(batch, ts);
    let events = events_of(s, seen, ts, zone);
    let observed = RecorderView { tracker: moved.tracker.observed_all(batch), ..moved };
    let (recorded, b) = events_step(observed, files, events, zone);
    let c = protect_step(recorded).1;
    lemma_events_observed(moved.tracker, files, ts);
    lemma_renames_observed(raw, raw, files);
    let k = choose|k: int| 0 <= k < files.len() && comes_from(events[i], #[trigger] files[k]);
    lemma_content_found(files, k);
    let data = files[k].content->Some_0;
    if data.len() <= SNAPSHOT_MAX_BYTES {
        let j = lemma_event_stored(observed, files, events, zone, i);
        assert((a + b + c)[a.len() + j] == b[j]);
        assert(step_of(s, seen, ts, zone).1 == a + b + c);
    }
    data
}

/// One of the first `n` actions writes the blob `id`.
pub open spec fn written_before(actions: Seq<ActionView>, n: int, id: Seq<char>) -> bool {
    exists|j: int|
        0 <= j < n && (#[trigger] actions[j]) is Store && blob_hash(actions[j]->Store_0) == Some(
            id,
        )
}

/// Every blob that the ledger has after some events it had before, or it is
/// written.
proof fn lemma_ledger_is_written(
    s: RecorderView,
    files: Seq<ObservationView>,
    events: Seq<RawEventView>,
    zone: Seq<(i64, i32)>,
)
    requires
        ascending(s.snapshots.blobs),
        observed_once(files),
        all_observed(events, files),
    ensures
        ({
            let (after, actions) = events_step(s, files, events, zone);
            &&& ascending(after.snapshots.blobs)
            &&& forall|i: int|
                0 <= i < actions.len() ==> !(#[trigger] actions[i] is Protect)
            &&& forall|id: Seq<char>| #[trigger]
                after.snapshots.blobs.contains(id) ==> s.snapshots.blobs.contains(id)
                    || written_before(actions, actions.len() as int, id)
        }),
    decreases events.len(),
{
    if events.len() > 0 {
        let rest = events.drop_last();
        let e = events[events.len() - 1];
        assert forall|i: int| 0 <= i < rest.len() implies exists|k: int|
            0 <= k < files.len() && comes_from(#[trigger] rest[i], #[trigger] files[k]) by {
            assert(rest[i] == events[i]);
            let k = choose|k: int|
                0 <= k < files.len() && comes_from(events[i], #[trigger] files[k]);
            assert(comes_from(rest[i], files[k]));
        }
        lemma_ledger_is_written(s, files, rest, zone);
        let (before, done) = events_step(s, files, rest, zone);
        let (after, more) = event_step(before, files, e, zone);
        let all = done + more;
        assert(events_step(s, files, events, zone) == (after, all));
        let k = choose|k: int| 0 <= k < files.len() && comes_from(e, #[trigger] files[k]);
        match (e.after_hash, content_of(files, e.path)) {
            (Some(id), Some(data)) => {
                lemma_content_found(files, k);
                assert(blob_hash(data) == Some(id));
                lemma_stored_blobs(before.snapshots, id, data.len() as int);
            },
            _ => {},
        }
        assert forall|i: int| 0 <= i < all.len() implies !(#[trigger] all[i] is Protect) by {
            if i < done.len() {
                assert(all[i] == done[i]);
            } else {
                assert(all[i] == more[i - done.len()]);
            }
        }
        assert forall|id: Seq<char>| #[trigger]
            after.snapshots.blobs.contains(id) implies s.snapshots.blobs.contains(id)
            || written_before(all, all.len() as int, id) by {
            if before.snapshots.blobs.contains(id) {
                if !s.snapshots.blobs.contains(id) {
                    let j = choose|j: int|
                        0 <= j < done.len() && (#[trigger] done[j]) is Store && blob_hash(
                            done[j]->Store_0,
                        ) == Some(id);
                    assert(all[j] == done[j]);
                }
            } else {
                assert(all[done.len() as int + 1] == more[1]);
            }
        }
    }
}

/// A blob is protected only once it is there: every blob that a protection
/// lists was stored before the batch, or is written ahead of the protection.
pub proof fn lemma_protected_blobs_are_written(
    s: RecorderView,
    seen: SeenView,
    ts: Timestamp,
    zone: Seq<(i64, i32)>,
    i: int,
    id: Seq<char>,
)
    requires
        s.snapshots.valid(),
        observed_once(seen.files),
        0 <= i < step_of(s, seen, ts, zone).1.len(),
        step_of(s, seen, ts, zone).1[i] is Protect,
        step_of(s, seen, ts, zone).1[i]->Protect_0.blobs.contains(id),
    ensures
        s.snapshots.blobs.contains(id) || written_before(step_of(s, seen, ts, zone).1, i, id),
{
    let files = seen.files;
    let (moved, a) = head_step(s, seen.head, seen.index, ts, zone);
    let batch = batch_of(files);
    let raw = moved.tracker.events(batch, ts);
    let events = events_of(s, seen, ts, zone);
    let observed = RecorderView { tracker: moved.tracker.observed_all(batch), ..moved };
    let (recorded, b) = events_step(observed, files, events, zone);
    let (done, c) = protect_step(recorded);
    let all = a + b + c;
    assert(step_of(s, seen, ts, zone) == (done, all));
    lemma_events_observed(moved.tracker, files, ts);
    lemma_renames_observed(raw, raw, files);
    lemma_ledger_is_written(observed, files, events, zone);
    if i < a.len() {
        assert(all[i] == a[i]);
    } else if i < a.len() + b.len() {
        assert(all[i] == b[i - a.len()]);
    } else {
        assert(all[i] == c[i - a.len() - b.len()]);
        assert(recorded.snapshots.blobs.contains(id));
        if !s.snapshots.blobs.contains(id) {
            let j = choose|j: int|
                0 <= j < b.len() && (#[trigger] b[j]) is Store && blob_hash(b[j]->Store_0) == Some(
                    id,
                );
            assert(all[a.len() + j] == b[j]);
        }
    }
}

/// The records of events among some actions.
pub open spec fn written_events(actions: Seq<ActionView>) -> Seq<ActionView> {
    actions.filter(|a: ActionView| a is Write && a->Write_0 is Event)
}

proof fn lemma_written_add(a: Seq<ActionView>, b: Seq<ActionView>)
    ensures
        written_events(a + b) == written_events(a) + written_events(b),
    decreases b.len(),
{
    reveal(Seq::filter);
    if b.len() == 0 {
        assert(a + b =~= a);
        assert(written_events(a) + written_events(b) =~= written_events(a));
    } else {
        lemma_written_add(a, b.drop_last());
        assert((a + b).drop_last() =~= a + b.drop_last());
        assert((a + b).last() == b.last());
        assert(written_events(a + b) =~= written_events(a) + written_events(b));
    }
}

proof fn lemma_none_written(actions: Seq<ActionView>)
    requires
        forall|i: int|
            0 <= i < actions.len() ==> !(#[trigger] actions[i] is Write
                && actions[i]->Write_0 is Event),
    ensures
        written_events(actions) == Seq::<ActionView>::empty(),
    decreases actions.len(),
{
    reveal(Seq::filter);
    if actions.len() > 0 {
        let rest = actions.drop_last();
        assert forall|i: int| 0 <= i < rest.len() implies !(#[trigger] rest[i] is Write
            && rest[i]->Write_0 is Event) by {
            assert(rest[i] == actions[i]);
        }
        lemma_none_written(rest);
        assert(actions[actions.len() - 1] == actions.last());
    }
    assert(written_events(actions) =~= Seq::empty());
}

proof fn lemma_said_written(quiet: bool, line: Seq<char>)
    ensures
        written_events(said(quiet, line)) == Seq::<ActionView>::empty(),
{
    lemma_none_written(said(quiet, line));
}

proof fn lemma_one_written(a: ActionView)
    ensures
        a is Write && a->Write_0 is Event ==> written_events(seq![a]) == seq![a],
        !(a is Write && a->Write_0 is Event) ==> written_events(seq![a]) == Seq::<
            ActionView,
        >::empty(),
{
    reveal(Seq::filter);
    lemma_none_written(Seq::empty());
    assert(seq![a].drop_last() =~= Seq::empty());
    assert(Seq::<ActionView>::empty().push(a) =~= seq![a]);
}

proof fn lemma_event_written(
    s: RecorderView,
    files: Seq<ObservationView>,
    e: RawEventView,
    zone: Seq<(i64, i32)>,
)
    ensures
        written_events(event_step(s, files, e, zone).1) == seq![
            ActionView::Write(RecordView::Event(e)),
        ],
{
    let first = seq![ActionView::Write(RecordView::Event(e))];
    let last = said(s.quiet, event_text(e, zone));
    let none = Seq::<ActionView>::empty();
    lemma_one_written(ActionView::Write(RecordView::Event(e)));
    lemma_said_written(s.quiet, event_text(e, zone));
    lemma_none_written(none);
    match (e.after_hash, content_of(files, e.path)) {
        (Some(id), Some(data)) => {
            let mid = if data.len() <= SNAPSHOT_MAX_BYTES {
                seq![ActionView::Store(data)]
            } else {
                none
            };
            lemma_one_written(ActionView::Store(data));
            lemma_written_add(first, mid);
            lemma_written_add(first + mid, last);
            assert(written_events(first + mid + last) =~= first);
        },
        _ => {
            lemma_written_add(first, last);
            assert(written_events(first + last) =~= first);
        },
    }
}

proof fn lemma_events_written(
    s: RecorderView,
    files: Seq<ObservationView>,
    events: Seq<RawEventView>,
    zone: Seq<(i64, i32)>,
)
    requires
        s.events + events.len() <= usize::MAX,
    ensures
        written_events(events_step(s, files, events, zone).1) == events.map_values(
            |e: RawEventView| ActionView::Write(RecordView::Event(e)),
        ),
        events_step(s, files, events, zone).0.events == s.events + events.len(),
        events_step(s, files, events, zone).0.tracker == s.tracker,
    decreases events.len(),
{
    let write = |e: RawEventView| ActionView::Write(RecordView::Event(e));
    if events.len() == 0 {
        lemma_none_written(Seq::empty());
        assert(events.map_values(write) =~= Seq::empty());
    } else {
        let rest = events.drop_last();
        let e = events.last();
        lemma_events_written(s, files, rest, zone);
        let (before, done) = events_step(s, files, rest, zone);
        let (after, more) = event_step(before, files, e, zone);
        lemma_written_add(done, more);
        lemma_event_written(before, files, e, zone);
        assert(events.map_values(write) =~= rest.map_values(write) + seq![write(e)]);
        assert(written_events(done + more) =~= events.map_values(write));
    }
}

/// A batch is recorded as the events that its observations are, renames paired,
/// in their order and nothing else; they are counted. If HEAD moved and the index
/// could be read, what it lists is what was committed; what was observed before
/// stays known.
pub proof fn lemma_what_a_batch_records(
    s: RecorderView,
    seen: SeenView,
    ts: Timestamp,
    zone: Seq<(i64, i32)>,
)
    requires
        s.events + events_of(s, seen, ts, zone).len() <= usize::MAX,
    ensures
        ({
            let (after, actions) = step_of(s, seen, ts, zone);
            let moved = seen.head is Some && seen.head->Some_0 != s.last_head;
            let t = if moved && seen.index is Some {
                TrackerView {
                    known: s.tracker.known,
                    baseline: map_of(by_path(seen.index->Some_0)),
                }
            } else {
                s.tracker
            };
            let raw = t.events(batch_of(seen.files), ts);
            let events = with_renames(raw, raw);
            &&& written_events(actions) == events.map_values(
                |e: RawEventView| ActionView::Write(RecordView::Event(e)),
            )
            &&& after.events == s.events + events.len()
            &&& after.tracker == t.observed_all(batch_of(seen.files))
        }),
{
    let (moved, a) = head_step(s, seen.head, seen.index, ts, zone);
    let batch = batch_of(seen.files);
    let raw = moved.tracker.events(batch, ts);
    let events = events_of(s, seen, ts, zone);
    let observed = RecorderView { tracker: moved.tracker.observed_all(batch), ..moved };
    let (recorded, b) = events_step(observed, seen.files, events, zone);
    let (done, c) = protect_step(recorded);
    lemma_events_written(observed, seen.files, events, zone);
    lemma_written_add(a + b, c);
    lemma_written_add(a, b);
    lemma_none_written(a);
    lemma_none_written(c);
    assert(written_events(a + b + c) =~= written_events(b));
}

} // verus!
