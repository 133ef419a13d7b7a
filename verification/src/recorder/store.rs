//! On-disk format of recorded sessions: append-only JSONL, one file per session.
//!
//! Sessions live in `<common_dir>/trail/worktrees/<worktree id>/sessions/` so
//! they survive `git worktree remove`. The first line is a `session` header, every
//! change is an `event` line, and a graceful stop appends an `end` line.
//! A crash simply leaves the file without an `end` line; every earlier line is
//! still valid.

use crate::data::{Dup, Same};
use crate::order::{self, sorted, Order};
use crate::path;
use crate::text;
use crate::time::{self, earlier, Timestamp};
use vstd::prelude::*;

verus! {

pub const FORMAT_VERSION: u32 = 1;

/// Everything needed to understand a session after its worktree is gone.
#[derive(Debug, Clone, PartialEq, Eq)]
pub struct SessionHeader {
    pub version: u32,
    pub session_id: String,
    /// Root of the main worktree (the one that owns `.git`).
    pub repository_root: String,
    pub worktree_id: String,
    pub worktree_path: String,
    /// `None` on a detached HEAD.
    pub branch: Option<String>,
    /// Merge base with the detected base branch, if one could be found.
    pub base_commit: Option<String>,
    /// HEAD when the session started.
    pub start_head: Option<String>,
    pub started_at: Timestamp,
}

#[derive(Debug, Clone, Copy, PartialEq, Eq, Structural)]
pub enum RawEventKind {
    Created,
    Modified,
    Deleted,
    Renamed,
}

/// One observed change, exactly as the recorder saw it.
///
/// Hashes are git blob ids of the content before and after.
#[derive(Debug, Clone, PartialEq, Eq)]
pub struct RawEvent {
    pub timestamp: Timestamp,
    pub path: String,
    pub kind: RawEventKind,
    /// Previous path for `Renamed`.
    pub from_path: Option<String>,
    pub before_hash: Option<String>,
    pub after_hash: Option<String>,
}

#[derive(Debug, Clone, PartialEq, Eq)]
pub struct SessionEnd {
    pub ended_at: Timestamp,
    pub events: usize,
}

#[derive(Debug, Clone, PartialEq, Eq)]
pub enum Record {
    Session(SessionHeader),
    Event(RawEvent),
    /// HEAD moved while recording (a commit, checkout, reset, ...).
    Commit {
        timestamp: Timestamp,
        from_head: String,
        to_head: String,
    },
    End(SessionEnd),
}

/// What a [`SessionHeader`] denotes.
#[verifier::ext_equal]
pub struct SessionHeaderView {
    pub version: u32,
    pub session_id: Seq<char>,
    pub repository_root: Seq<char>,
    pub worktree_id: Seq<char>,
    pub worktree_path: Seq<char>,
    pub branch: Option<Seq<char>>,
    pub base_commit: Option<Seq<char>>,
    pub start_head: Option<Seq<char>>,
    pub started_at: Timestamp,
}

impl DeepView for SessionHeader {
    type V = SessionHeaderView;

    open spec fn deep_view(&self) -> SessionHeaderView {
        SessionHeaderView {
            version: self.version.deep_view(),
            session_id: self.session_id.deep_view(),
            repository_root: self.repository_root.deep_view(),
            worktree_id: self.worktree_id.deep_view(),
            worktree_path: self.worktree_path.deep_view(),
            branch: self.branch.deep_view(),
            base_commit: self.base_commit.deep_view(),
            start_head: self.start_head.deep_view(),
            started_at: self.started_at.deep_view(),
        }
    }
}

impl Dup for SessionHeader {
    fn dup(&self) -> (r: SessionHeader) {
        SessionHeader {
            version: self.version.dup(),
            session_id: self.session_id.dup(),
            repository_root: self.repository_root.dup(),
            worktree_id: self.worktree_id.dup(),
            worktree_path: self.worktree_path.dup(),
            branch: self.branch.dup(),
            base_commit: self.base_commit.dup(),
            start_head: self.start_head.dup(),
            started_at: self.started_at.dup(),
        }
    }
}

impl DeepView for RawEventKind {
    type V = RawEventKind;

    open spec fn deep_view(&self) -> RawEventKind {
        *self
    }
}

impl Dup for RawEventKind {
    fn dup(&self) -> (r: RawEventKind) {
        *self
    }
}

impl Same for RawEventKind {
    fn same(&self, other: &RawEventKind) -> (r: bool) {
        *self == *other
    }
}

/// What a [`RawEvent`] denotes.
#[verifier::ext_equal]
pub struct RawEventView {
    pub timestamp: Timestamp,
    pub path: Seq<char>,
    pub kind: RawEventKind,
    pub from_path: Option<Seq<char>>,
    pub before_hash: Option<Seq<char>>,
    pub after_hash: Option<Seq<char>>,
}

impl DeepView for RawEvent {
    type V = RawEventView;

    open spec fn deep_view(&self) -> RawEventView {
        RawEventView {
            timestamp: self.timestamp.deep_view(),
            path: self.path.deep_view(),
            kind: self.kind.deep_view(),
            from_path: self.from_path.deep_view(),
            before_hash: self.before_hash.deep_view(),
            after_hash: self.after_hash.deep_view(),
        }
    }
}

impl Dup for RawEvent {
    fn dup(&self) -> (r: RawEvent) {
        RawEvent {
            timestamp: self.timestamp.dup(),
            path: self.path.dup(),
            kind: self.kind.dup(),
            from_path: self.from_path.dup(),
            before_hash: self.before_hash.dup(),
            after_hash: self.after_hash.dup(),
        }
    }
}

/// What a [`SessionEnd`] denotes.
#[verifier::ext_equal]
pub struct SessionEndView {
    pub ended_at: Timestamp,
    pub events: usize,
}

impl DeepView for SessionEnd {
    type V = SessionEndView;

    open spec fn deep_view(&self) -> SessionEndView {
        SessionEndView {
            ended_at: self.ended_at.deep_view(),
            events: self.events.deep_view(),
        }
    }
}

impl Dup for SessionEnd {
    fn dup(&self) -> (r: SessionEnd) {
        SessionEnd {
            ended_at: self.ended_at.dup(),
            events: self.events.dup(),
        }
    }
}

/// What a [`Record`] denotes.
#[verifier::ext_equal]
pub enum RecordView {
    Session(SessionHeaderView),
    Event(RawEventView),
    Commit {
        timestamp: Timestamp,
        from_head: Seq<char>,
        to_head: Seq<char>,
    },
    End(SessionEndView),
}

impl DeepView for Record {
    type V = RecordView;

    open spec fn deep_view(&self) -> RecordView {
        match *self {
            Record::Session(x) => RecordView::Session(x.deep_view()),
            Record::Event(x) => RecordView::Event(x.deep_view()),
            Record::Commit { timestamp, from_head, to_head } => RecordView::Commit {
                timestamp: timestamp.deep_view(),
                from_head: from_head.deep_view(),
                to_head: to_head.deep_view(),
            },
            Record::End(x) => RecordView::End(x.deep_view()),
        }
    }
}

impl Dup for Record {
    fn dup(&self) -> (r: Record) {
        match self {
            Record::Session(x) => Record::Session(x.dup()),
            Record::Event(x) => Record::Event(x.dup()),
            Record::Commit { timestamp, from_head, to_head } => Record::Commit {
                timestamp: timestamp.dup(),
                from_head: from_head.dup(),
                to_head: to_head.dup(),
            },
            Record::End(x) => Record::End(x.dup()),
        }
    }
}

/// Directory holding the sessions of one worktree.
pub open spec fn session_dir_of(common_dir: Seq<char>, worktree_id: Seq<char>) -> Seq<char> {
    path::joined(
        path::joined(path::joined(path::joined(common_dir, "trail"@), "worktrees"@), worktree_id),
        "sessions"@,
    )
}

/// Directory holding the sessions of one worktree.
pub fn session_dir(common_dir: &str, worktree_id: &str) -> (r: String)
    ensures
        r@ == session_dir_of(common_dir@, worktree_id@),
{
    path::join(
        &path::join(&path::join(&path::join(common_dir, "trail"), "worktrees"), worktree_id),
        "sessions",
    )
}

/// The log of a session, in its directory.
pub fn session_path(dir: &str, session_id: &str) -> (r: String)
    ensures
        r@ == path::joined(dir@, "session-"@ + session_id@ + ".jsonl"@),
{
    path::join(dir, &text::cat3("session-", session_id, ".jsonl"))
}

/// Whether a file in a session directory is a session log.
pub fn is_session_path(p: &str) -> (r: bool)
    ensures
        r == (path::extension(p@) == Some("jsonl"@)),
{
    match path::extension_of(p) {
        Some(e) => text::same(&e, "jsonl"),
        None => false,
    }
}

/// A hexadecimal digit in lower case.
pub open spec fn hex_digit(n: int) -> char {
    if n < 10 {
        (48 + n) as char
    } else {
        (87 + n) as char
    }
}

/// The lowest twelve bits of a number, as three hexadecimal digits.
pub open spec fn low_hex(n: int) -> Seq<char> {
    seq![hex_digit(n / 256 % 16), hex_digit(n / 16 % 16), hex_digit(n % 16)]
}

fn hex(n: u32) -> (r: char)
    requires
        n < 16,
    ensures
        r == hex_digit(n as int),
{
    if n < 10 {
        (48 + n as u8) as char
    } else {
        (87 + n as u8) as char
    }
}

/// Sortable, human readable id: UTC time plus a few bits of the pid so two
/// recorders started in the same second do not collide.
pub fn new_session_id(now: &Timestamp, pid: u32) -> (r: String)
    ensures
        r@ == time::stamp_text(*now) + "-"@ + low_hex(pid as int),
{
    let mut low: String = String::new();
    low.push(hex(pid / 256 % 16));
    low.push(hex(pid / 16 % 16));
    low.push(hex(pid % 16));
    assert(low@ =~= low_hex(pid as int));
    text::cat3(&time::stamp(now), "-", &low)
}

// ---------------------------------------------------------------------------
// Session files
/// A session file as found on disk.
#[derive(Debug, Clone, PartialEq, Eq)]
pub struct SessionFile {
    pub path: String,
    pub header: SessionHeader,
    pub records: Vec<Record>,
    pub ended_at: Option<Timestamp>,
    pub events: usize,
    pub commits: usize,
}

/// What a [`SessionFile`] denotes.
#[verifier::ext_equal]
pub struct SessionFileView {
    pub path: Seq<char>,
    pub header: SessionHeaderView,
    pub records: Seq<RecordView>,
    pub ended_at: Option<Timestamp>,
    pub events: usize,
    pub commits: usize,
}

impl DeepView for SessionFile {
    type V = SessionFileView;

    open spec fn deep_view(&self) -> SessionFileView {
        SessionFileView {
            path: self.path.deep_view(),
            header: self.header.deep_view(),
            records: self.records.deep_view(),
            ended_at: self.ended_at.deep_view(),
            events: self.events.deep_view(),
            commits: self.commits.deep_view(),
        }
    }
}

impl Dup for SessionFile {
    fn dup(&self) -> (r: SessionFile) {
        SessionFile {
            path: self.path.dup(),
            header: self.header.dup(),
            records: self.records.dup(),
            ended_at: self.ended_at.dup(),
            events: self.events.dup(),
            commits: self.commits.dup(),
        }
    }
}

/// When the first `end` record says that the session ended.
pub open spec fn end_of(records: Seq<RecordView>) -> Option<Timestamp>
    decreases records.len(),
{
    if records.len() == 0 {
        None
    } else {
        match records[0] {
            RecordView::End(end) => Some(end.ended_at),
            _ => end_of(records.drop_first()),
        }
    }
}

pub open spec fn count_events(records: Seq<RecordView>) -> nat
    decreases records.len(),
{
    if records.len() == 0 {
        0
    } else {
        count_events(records.drop_last()) + if records.last() is Event {
            1nat
        } else {
            0nat
        }
    }
}

pub open spec fn count_commits(records: Seq<RecordView>) -> nat
    decreases records.len(),
{
    if records.len() == 0 {
        0
    } else {
        count_commits(records.drop_last()) + if records.last() is Commit {
            1nat
        } else {
            0nat
        }
    }
}

/// A session, from the records of its file. The first record has to be its
/// header; anything else is not a session file.
pub open spec fn session_of(path: Seq<char>, records: Seq<RecordView>) -> Option<SessionFileView> {
    if records.len() == 0 {
        None
    } else {
        match records[0] {
            RecordView::Session(header) => Some(
                SessionFileView {
                    path,
                    header,
                    records,
                    ended_at: end_of(records),
                    events: count_events(records) as usize,
                    commits: count_commits(records) as usize,
                },
            ),
            _ => None,
        }
    }
}

/// When a record was written.
pub open spec fn time_of(r: RecordView) -> Timestamp {
    match r {
        RecordView::Event(e) => e.timestamp,
        RecordView::Commit { timestamp, from_head, to_head } => timestamp,
        RecordView::End(e) => e.ended_at,
        RecordView::Session(h) => h.started_at,
    }
}

fn record_time(r: &Record) -> (t: Timestamp)
    ensures
        t == time_of(r.deep_view()),
{
    match r {
        Record::Event(e) => e.timestamp,
        Record::Commit { timestamp, from_head: _, to_head: _ } => *timestamp,
        Record::End(e) => e.ended_at,
        Record::Session(h) => h.started_at,
    }
}

impl SessionFile {
    /// A session, from the records of its file; `None` when that is not a
    /// session file (or its first line is corrupt).
    pub fn load(path: &str, records: Vec<Record>) -> (r: Option<SessionFile>)
        ensures
            r.deep_view() == session_of(path@, records.deep_view()),
    {
        let ghost all = records.deep_view();
        if records.len() == 0 {
            return None;
        }
        assert(all[0] == records[0].deep_view());
        let header: SessionHeader = match &records[0] {
            Record::Session(header) => header.dup(),
            _ => {
                return None;
            },
        };
        let mut ended_at: Option<Timestamp> = None;
        let mut events: usize = 0;
        let mut commits: usize = 0;
        let mut k: usize = 0;
        assert(all.skip(0) =~= all);
        assert(all.take(0) =~= Seq::empty());
        while k < records.len()
            invariant
                k <= records.len(),
                all == records.deep_view(),
                ended_at is Some ==> end_of(all) == ended_at,
                ended_at is None ==> end_of(all) == end_of(all.skip(k as int)),
                events <= k,
                commits <= k,
                events == count_events(all.take(k as int)),
                commits == count_commits(all.take(k as int)),
            decreases records.len() - k,
        {
            proof {
                assert(all.skip(k as int)[0] == records[k as int].deep_view());
                assert(all.skip(k as int).drop_first() =~= all.skip(k + 1));
                assert(all.take(k + 1).drop_last() =~= all.take(k as int));
                assert(all.take(k + 1).last() == records[k as int].deep_view());
            }
            match &records[k] {
                Record::End(end) => {
                    if ended_at.is_none() {
                        ended_at = Some(end.ended_at);
                    }
                },
                Record::Event(_) => {
                    events = events + 1;
                },
                Record::Commit { timestamp: _, from_head: _, to_head: _ } => {
                    commits = commits + 1;
                },
                Record::Session(_) => {},
            }
            k += 1;
        }
        assert(all.take(k as int) =~= all);
        assert(all.skip(k as int) =~= Seq::empty());
        let r = SessionFile { path: path.to_owned(), header, records, ended_at, events, commits };
        assert(r.deep_view() =~= session_of(path@, all)->Some_0);
        Some(r)
    }

    /// Timestamp of the last record, used while a session is still open.
    pub fn last_activity(&self) -> (r: Timestamp)
        ensures
            r == last_activity_of(self.deep_view()),
    {
        let n: usize = self.records.len();
        if n > 0 {
            assert(self.records.deep_view().last() == self.records[n - 1].deep_view());
            record_time(&self.records[n - 1])
        } else {
            self.header.started_at
        }
    }
}

pub open spec fn last_activity_of(s: SessionFileView) -> Timestamp {
    if s.records.len() > 0 {
        time_of(s.records.last())
    } else {
        s.header.started_at
    }
}

/// Sessions by when they started.
pub struct ByStart;

impl Order<SessionFile> for ByStart {
    open spec fn lt(a: SessionFileView, b: SessionFileView) -> bool {
        earlier(a.header.started_at, b.header.started_at)
    }

    proof fn lemma_order(a: SessionFileView, b: SessionFileView, c: SessionFileView) {
    }

    fn before(a: &SessionFile, b: &SessionFile) -> (r: bool) {
        a.header.started_at.before(&b.header.started_at)
    }
}

/// The sessions among some files, each given by its path and records.
pub open spec fn sessions_in(files: Seq<(Seq<char>, Seq<RecordView>)>) -> Seq<SessionFileView>
    decreases files.len(),
{
    if files.len() == 0 {
        Seq::empty()
    } else {
        match session_of(files.last().0, files.last().1) {
            Some(s) => sessions_in(files.drop_last()).push(s),
            None => sessions_in(files.drop_last()),
        }
    }
}

/// Every session stored for the repository, oldest first. The files are given
/// as they were found, each by its path and records.
pub fn list_sessions(files: Vec<(String, Vec<Record>)>) -> (r: Vec<SessionFile>)
    ensures
        r.deep_view() == sorted::<SessionFile, ByStart>(sessions_in(files.deep_view())),
{
    let ghost all = files.deep_view();
    let mut out: Vec<SessionFile> = Vec::new();
    let mut k: usize = 0;
    assert(out.deep_view() =~= sessions_in(all.take(0)));
    while k < files.len()
        invariant
            k <= files.len(),
            all == files.deep_view(),
            out.deep_view() == sessions_in(all.take(k as int)),
        decreases files.len() - k,
    {
        let ghost was = out.deep_view();
        proof {
            assert(all.take(k + 1).drop_last() =~= all.take(k as int));
            assert(all.take(k + 1).last() == all[k as int]);
            assert(all[k as int] == (files[k as int].0@, files[k as int].1.deep_view()));
        }
        match SessionFile::load(&files[k].0, files[k].1.dup()) {
            Some(s) => {
                let ghost sv = s.deep_view();
                out.push(s);
                assert(out.deep_view() =~= was.push(sv));
            },
            None => {},
        }
        k += 1;
    }
    assert(all.take(k as int) =~= all);
    order::sort::<SessionFile, ByStart>(out)
}

// ---------------------------------------------------------------------------
// What holds of every session
proof fn lemma_counts(records: Seq<RecordView>)
    ensures
        count_events(records) == records.filter(|r: RecordView| r is Event).len(),
        count_commits(records) == records.filter(|r: RecordView| r is Commit).len(),
        count_events(records) <= records.len(),
        count_commits(records) <= records.len(),
    decreases records.len(),
{
    reveal(Seq::filter);
    if records.len() > 0 {
        lemma_counts(records.drop_last());
    }
}

proof fn lemma_end_of(records: Seq<RecordView>)
    ensures
        match end_of(records) {
            Some(t) => exists|i: int| {
                &&& 0 <= i < records.len()
                &&& #[trigger] records[i] is End
                &&& records[i]->End_0.ended_at == t
                &&& forall|j: int| 0 <= j < i ==> !(#[trigger] records[j] is End)
            },
            None => forall|i: int| 0 <= i < records.len() ==> !(#[trigger] records[i] is End),
        },
    decreases records.len(),
{
    if records.len() > 0 && !(records[0] is End) {
        let rest = records.drop_first();
        lemma_end_of(rest);
        match end_of(rest) {
            Some(t) => {
                let i = choose|i: int| {
                    &&& 0 <= i < rest.len()
                    &&& #[trigger] rest[i] is End
                    &&& rest[i]->End_0.ended_at == t
                    &&& forall|j: int| 0 <= j < i ==> !(#[trigger] rest[j] is End)
                };
                assert(records[i + 1] == rest[i]);
                assert forall|j: int| 0 <= j < i + 1 implies !(#[trigger] records[j] is End) by {
                    if j > 0 {
                        assert(rest[j - 1] == records[j]);
                    }
                }
            },
            None => {
                assert forall|i: int| 0 <= i < records.len() implies !(
                #[trigger] records[i] is End) by {
                    if i > 0 {
                        assert(rest[i - 1] == records[i]);
                    }
                }
            },
        }
    }
}

/// A file is a session exactly when it starts with a header. It has the records
/// of the file, as many events and movements of HEAD as there are among them, and
/// ended when the first end says; something was last recorded when the last
/// record was written.
pub proof fn lemma_what_a_session_is(path: Seq<char>, records: Seq<RecordView>)
    requires
        records.len() <= usize::MAX,
    ensures
        session_of(path, records) is Some <==> records.len() > 0 && records[0] is Session,
        session_of(path, records) is Some ==> ({
            let s = session_of(path, records)->Some_0;
            &&& s.path == path
            &&& s.header == records[0]->Session_0
            &&& s.records == records
            &&& s.events == records.filter(|r: RecordView| r is Event).len()
            &&& s.commits == records.filter(|r: RecordView| r is Commit).len()
            &&& match s.ended_at {
                Some(t) => exists|i: int| {
                    &&& 0 <= i < records.len()
                    &&& #[trigger] records[i] is End
                    &&& records[i]->End_0.ended_at == t
                    &&& forall|j: int| 0 <= j < i ==> !(#[trigger] records[j] is End)
                },
                None => forall|i: int| 0 <= i < records.len() ==> !(#[trigger] records[i] is End),
            }
            &&& match records.last() {
                RecordView::Event(e) => last_activity_of(s) == e.timestamp,
                RecordView::Commit { timestamp, from_head, to_head } => last_activity_of(s)
                    == timestamp,
                RecordView::End(e) => last_activity_of(s) == e.ended_at,
                RecordView::Session(h) => last_activity_of(s) == h.started_at,
            }
        }),
{
    lemma_counts(records);
    lemma_end_of(records);
}

/// A file of sessions starts with a header.
pub open spec fn is_session_file(f: (Seq<char>, Seq<RecordView>)) -> bool {
    f.1.len() > 0 && f.1[0] is Session
}

/// The sessions of a repository are those of all its session files, and of no
/// others, oldest first.
pub proof fn lemma_all_sessions_are_listed(files: Seq<(Seq<char>, Seq<RecordView>)>) -> (kept: Seq<
    (Seq<char>, Seq<RecordView>),
>)
    ensures
        crate::choice::selects(
            files,
            |f: (Seq<char>, Seq<RecordView>)| is_session_file(f),
            kept,
        ),
        ({
            let all = sorted::<SessionFile, ByStart>(sessions_in(files));
            &&& all.to_multiset() == kept.map_values(
                |f: (Seq<char>, Seq<RecordView>)| session_of(f.0, f.1)->Some_0,
            ).to_multiset()
            &&& forall|i: int, j: int|
                0 <= i < j < all.len() ==> !earlier(
                    (#[trigger] all[j]).header.started_at,
                    (#[trigger] all[i]).header.started_at,
                )
        }),
{
    let kept = lemma_sessions_in(files);
    let found = sessions_in(files);
    crate::order::lemma_sorted::<SessionFile, ByStart>(found);
    let all = sorted::<SessionFile, ByStart>(found);
    assert forall|i: int, j: int| 0 <= i < j < all.len() implies !earlier(
        (#[trigger] all[j]).header.started_at,
        (#[trigger] all[i]).header.started_at,
    ) by {
        assert(!<ByStart as Order<SessionFile>>::lt(all[j], all[i]));
    }
    kept
}

proof fn lemma_sessions_in(files: Seq<(Seq<char>, Seq<RecordView>)>) -> (kept: Seq<
    (Seq<char>, Seq<RecordView>),
>)
    ensures
        crate::choice::selects(
            files,
            |f: (Seq<char>, Seq<RecordView>)| is_session_file(f),
            kept,
        ),
        sessions_in(files) == kept.map_values(
            |f: (Seq<char>, Seq<RecordView>)| session_of(f.0, f.1)->Some_0,
        ),
    decreases files.len(),
{
    let pred = |f: (Seq<char>, Seq<RecordView>)| is_session_file(f);
    let of = |f: (Seq<char>, Seq<RecordView>)| session_of(f.0, f.1)->Some_0;
    if files.len() == 0 {
        assert(files =~= Seq::empty());
        crate::choice::lemma_selects_none(pred);
        let none = Seq::<(Seq<char>, Seq<RecordView>)>::empty();
        assert(sessions_in(files) =~= none.map_values(of));
        none
    } else {
        let last = files.last();
        let before = lemma_sessions_in(files.drop_last());
        crate::choice::lemma_selects_last(files, pred, before);
        if is_session_file(last) {
            let more = before.push(last);
            assert(more.map_values(of) =~= before.map_values(of).push(of(last)));
            more
        } else {
            before
        }
    }
}

} // verus!
