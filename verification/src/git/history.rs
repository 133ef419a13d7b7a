//! Commit history, reflog and per-file history.

use super::diff::ChangeKind;
use crate::data::Dup;
use crate::text::{self, lossy_text};
use crate::time::{calendar_time, earlier, epoch, Timestamp};
use vstd::prelude::*;

verus! {

#[derive(Debug, Clone, PartialEq, Eq)]
pub struct CommitFile {
    pub path: String,
    /// Previous path of a renamed file.
    pub old_path: Option<String>,
    pub kind: ChangeKind,
    /// Blob before the commit, `None` when the file did not exist.
    pub before_id: Option<String>,
    /// Blob after the commit, `None` when the file is gone.
    pub after_id: Option<String>,
}

#[derive(Debug, Clone, PartialEq, Eq)]
pub struct CommitInfo {
    pub id: String,
    pub short_id: String,
    pub summary: String,
    pub author: String,
    pub time: Timestamp,
    /// When the change was authored; a rewrite of the commit keeps it.
    pub author_time: Timestamp,
    pub parent_count: usize,
    pub first_parent: Option<String>,
    /// Files touched relative to the first parent (empty tree for root commits).
    pub files: Vec<CommitFile>,
}

/// What a rewrite of a commit preserves of it.
#[derive(Debug, Clone, PartialEq, Eq)]
pub struct CommitIdentity {
    pub author_time: Timestamp,
    pub summary: String,
    pub first_parent: Option<String>,
}

#[derive(Debug, Clone, PartialEq, Eq)]
pub struct ReflogEntry {
    pub time: Timestamp,
    pub previous_id: String,
    pub new_id: String,
    /// e.g. "commit", "checkout", "rebase (finish)", "reset"
    pub action: String,
    pub message: String,
}

/// One line of a reflog, as it is stored.
#[derive(Debug, Clone, PartialEq, Eq)]
pub struct ReflogLine {
    pub secs: i64,
    pub previous_id: String,
    pub new_id: String,
    /// `action: message`, or the action alone.
    pub message: String,
}

/// What a [`ReflogLine`] denotes.
#[verifier::ext_equal]
pub struct ReflogLineView {
    pub secs: i64,
    pub previous_id: Seq<char>,
    pub new_id: Seq<char>,
    pub message: Seq<char>,
}

impl DeepView for ReflogLine {
    type V = ReflogLineView;

    open spec fn deep_view(&self) -> ReflogLineView {
        ReflogLineView {
            secs: self.secs.deep_view(),
            previous_id: self.previous_id.deep_view(),
            new_id: self.new_id.deep_view(),
            message: self.message.deep_view(),
        }
    }
}

impl Dup for ReflogLine {
    fn dup(&self) -> (r: ReflogLine) {
        ReflogLine {
            secs: self.secs.dup(),
            previous_id: self.previous_id.dup(),
            new_id: self.new_id.dup(),
            message: self.message.dup(),
        }
    }
}

#[derive(Debug, Clone, PartialEq, Eq)]
pub struct FileCommit {
    pub id: String,
    pub short_id: String,
    pub summary: String,
    pub time: Timestamp,
}

/// What a [`CommitFile`] denotes.
#[verifier::ext_equal]
pub struct CommitFileView {
    pub path: Seq<char>,
    pub old_path: Option<Seq<char>>,
    pub kind: ChangeKind,
    pub before_id: Option<Seq<char>>,
    pub after_id: Option<Seq<char>>,
}

impl DeepView for CommitFile {
    type V = CommitFileView;

    open spec fn deep_view(&self) -> CommitFileView {
        CommitFileView {
            path: self.path.deep_view(),
            old_path: self.old_path.deep_view(),
            kind: self.kind.deep_view(),
            before_id: self.before_id.deep_view(),
            after_id: self.after_id.deep_view(),
        }
    }
}

impl Dup for CommitFile {
    fn dup(&self) -> (r: CommitFile) {
        CommitFile {
            path: self.path.dup(),
            old_path: self.old_path.dup(),
            kind: self.kind.dup(),
            before_id: self.before_id.dup(),
            after_id: self.after_id.dup(),
        }
    }
}

/// What a [`CommitInfo`] denotes.
#[verifier::ext_equal]
pub struct CommitInfoView {
    pub id: Seq<char>,
    pub short_id: Seq<char>,
    pub summary: Seq<char>,
    pub author: Seq<char>,
    pub time: Timestamp,
    pub author_time: Timestamp,
    pub parent_count: usize,
    pub first_parent: Option<Seq<char>>,
    pub files: Seq<CommitFileView>,
}

impl DeepView for CommitInfo {
    type V = CommitInfoView;

    open spec fn deep_view(&self) -> CommitInfoView {
        CommitInfoView {
            id: self.id.deep_view(),
            short_id: self.short_id.deep_view(),
            summary: self.summary.deep_view(),
            author: self.author.deep_view(),
            time: self.time.deep_view(),
            author_time: self.author_time.deep_view(),
            parent_count: self.parent_count.deep_view(),
            first_parent: self.first_parent.deep_view(),
            files: self.files.deep_view(),
        }
    }
}

impl Dup for CommitInfo {
    fn dup(&self) -> (r: CommitInfo) {
        CommitInfo {
            id: self.id.dup(),
            short_id: self.short_id.dup(),
            summary: self.summary.dup(),
            author: self.author.dup(),
            time: self.time.dup(),
            author_time: self.author_time.dup(),
            parent_count: self.parent_count.dup(),
            first_parent: self.first_parent.dup(),
            files: self.files.dup(),
        }
    }
}

/// What a [`CommitIdentity`] denotes.
#[verifier::ext_equal]
pub struct CommitIdentityView {
    pub author_time: Timestamp,
    pub summary: Seq<char>,
    pub first_parent: Option<Seq<char>>,
}

impl DeepView for CommitIdentity {
    type V = CommitIdentityView;

    open spec fn deep_view(&self) -> CommitIdentityView {
        CommitIdentityView {
            author_time: self.author_time.deep_view(),
            summary: self.summary.deep_view(),
            first_parent: self.first_parent.deep_view(),
        }
    }
}

impl Dup for CommitIdentity {
    fn dup(&self) -> (r: CommitIdentity) {
        CommitIdentity {
            author_time: self.author_time.dup(),
            summary: self.summary.dup(),
            first_parent: self.first_parent.dup(),
        }
    }
}

/// What a [`ReflogEntry`] denotes.
#[verifier::ext_equal]
pub struct ReflogEntryView {
    pub time: Timestamp,
    pub previous_id: Seq<char>,
    pub new_id: Seq<char>,
    pub action: Seq<char>,
    pub message: Seq<char>,
}

impl DeepView for ReflogEntry {
    type V = ReflogEntryView;

    open spec fn deep_view(&self) -> ReflogEntryView {
        ReflogEntryView {
            time: self.time.deep_view(),
            previous_id: self.previous_id.deep_view(),
            new_id: self.new_id.deep_view(),
            action: self.action.deep_view(),
            message: self.message.deep_view(),
        }
    }
}

impl Dup for ReflogEntry {
    fn dup(&self) -> (r: ReflogEntry) {
        ReflogEntry {
            time: self.time.dup(),
            previous_id: self.previous_id.dup(),
            new_id: self.new_id.dup(),
            action: self.action.dup(),
            message: self.message.dup(),
        }
    }
}

/// What a [`FileCommit`] denotes.
#[verifier::ext_equal]
pub struct FileCommitView {
    pub id: Seq<char>,
    pub short_id: Seq<char>,
    pub summary: Seq<char>,
    pub time: Timestamp,
}

impl DeepView for FileCommit {
    type V = FileCommitView;

    open spec fn deep_view(&self) -> FileCommitView {
        FileCommitView {
            id: self.id.deep_view(),
            short_id: self.short_id.deep_view(),
            summary: self.summary.deep_view(),
            time: self.time.deep_view(),
        }
    }
}

impl Dup for FileCommit {
    fn dup(&self) -> (r: FileCommit) {
        FileCommit {
            id: self.id.dup(),
            short_id: self.short_id.dup(),
            summary: self.summary.dup(),
            time: self.time.dup(),
        }
    }
}

impl CommitIdentity {
    /// What a rewrite of `commit` would preserve of it.
    pub fn of(commit: &CommitInfo) -> (r: CommitIdentity)
        ensures
            r.deep_view() == identity_of(commit.deep_view()),
    {
        CommitIdentity {
            author_time: commit.author_time,
            summary: commit.summary.dup(),
            first_parent: commit.first_parent.dup(),
        }
    }
}

pub open spec fn identity_of(c: CommitInfoView) -> CommitIdentityView {
    CommitIdentityView {
        author_time: c.author_time,
        summary: c.summary,
        first_parent: c.first_parent,
    }
}

// ---------------------------------------------------------------------------
// Commits
/// One difference between the trees of a commit and of its first parent.
#[derive(Debug, Clone, PartialEq, Eq)]
pub struct TreeChange {
    pub file: CommitFile,
    /// The entry is a directory.
    pub is_tree: bool,
}

/// A commit as a walk through the history finds it.
#[derive(Debug, Clone, PartialEq, Eq)]
pub struct WalkedCommit {
    pub id: String,
    /// The shortest unambiguous prefix of the id, where it could be found.
    pub short_id: Option<String>,
    /// The subject of the message, where the message could be parsed.
    pub subject: Option<String>,
    pub message: Vec<u8>,
    /// Name of the author, where it could be read.
    pub author: Option<String>,
    pub secs: i64,
    pub author_secs: i64,
    pub parents: Vec<String>,
    pub changes: Vec<TreeChange>,
}

/// What a [`TreeChange`] denotes.
#[verifier::ext_equal]
pub struct TreeChangeView {
    pub file: CommitFileView,
    pub is_tree: bool,
}

impl DeepView for TreeChange {
    type V = TreeChangeView;

    open spec fn deep_view(&self) -> TreeChangeView {
        TreeChangeView {
            file: self.file.deep_view(),
            is_tree: self.is_tree.deep_view(),
        }
    }
}

impl Dup for TreeChange {
    fn dup(&self) -> (r: TreeChange) {
        TreeChange {
            file: self.file.dup(),
            is_tree: self.is_tree.dup(),
        }
    }
}

/// What a [`WalkedCommit`] denotes.
#[verifier::ext_equal]
pub struct WalkedCommitView {
    pub id: Seq<char>,
    pub short_id: Option<Seq<char>>,
    pub subject: Option<Seq<char>>,
    pub message: Seq<u8>,
    pub author: Option<Seq<char>>,
    pub secs: i64,
    pub author_secs: i64,
    pub parents: Seq<Seq<char>>,
    pub changes: Seq<TreeChangeView>,
}

impl DeepView for WalkedCommit {
    type V = WalkedCommitView;

    open spec fn deep_view(&self) -> WalkedCommitView {
        WalkedCommitView {
            id: self.id.deep_view(),
            short_id: self.short_id.deep_view(),
            subject: self.subject.deep_view(),
            message: self.message.deep_view(),
            author: self.author.deep_view(),
            secs: self.secs.deep_view(),
            author_secs: self.author_secs.deep_view(),
            parents: self.parents.deep_view(),
            changes: self.changes.deep_view(),
        }
    }
}

impl Dup for WalkedCommit {
    fn dup(&self) -> (r: WalkedCommit) {
        WalkedCommit {
            id: self.id.dup(),
            short_id: self.short_id.dup(),
            subject: self.subject.dup(),
            message: self.message.dup(),
            author: self.author.dup(),
            secs: self.secs.dup(),
            author_secs: self.author_secs.dup(),
            parents: self.parents.dup(),
            changes: self.changes.dup(),
        }
    }
}

/// The files among the differences: directories only lead to files.
pub open spec fn files_among(changes: Seq<TreeChangeView>) -> Seq<CommitFileView>
    decreases changes.len(),
{
    if changes.len() == 0 {
        Seq::empty()
    } else if changes.last().is_tree {
        files_among(changes.drop_last())
    } else {
        files_among(changes.drop_last()).push(changes.last().file)
    }
}

pub open spec fn time_or_epoch(secs: i64) -> Timestamp {
    match calendar_time(secs) {
        Some(t) => t,
        None => epoch(),
    }
}

/// The first line of a message.
pub open spec fn first_line(message: Seq<char>) -> Seq<char> {
    let lines = text::lines(message);
    if lines.len() == 0 {
        Seq::empty()
    } else {
        lines[0]
    }
}

/// The first seven digits of an id.
pub open spec fn seven(id: Seq<char>) -> Seq<char> {
    if id.len() < 7 {
        id
    } else {
        id.take(7)
    }
}

/// A commit with its files: an id that cannot be shortened is cut at seven
/// digits, and a message that cannot be parsed is represented by its first line.
pub open spec fn info_of(c: WalkedCommitView) -> CommitInfoView {
    CommitInfoView {
        id: c.id,
        short_id: match c.short_id {
            Some(s) => s,
            None => seven(c.id),
        },
        summary: match c.subject {
            Some(s) => s,
            None => first_line(lossy_text(c.message)),
        },
        author: match c.author {
            Some(a) => a,
            None => Seq::empty(),
        },
        time: time_or_epoch(c.secs),
        author_time: time_or_epoch(c.author_secs),
        parent_count: c.parents.len() as usize,
        first_parent: if c.parents.len() == 0 {
            None
        } else {
            Some(c.parents[0])
        },
        files: files_among(c.changes),
    }
}

/// Walked commits in reverse.
pub open spec fn oldest_first(newest_first: Seq<WalkedCommitView>) -> Seq<CommitInfoView> {
    Seq::new(newest_first.len(), |i: int| info_of(newest_first[newest_first.len() - 1 - i]))
}

/// The files a commit touched: the differences that are not directories.
pub fn files_of_commit(changes: &Vec<TreeChange>) -> (r: Vec<CommitFile>)
    ensures
        r.deep_view() == files_among(changes.deep_view()),
{
    let ghost all = changes.deep_view();
    let mut out: Vec<CommitFile> = Vec::new();
    let mut k: usize = 0;
    assert(out.deep_view() =~= files_among(all.take(0)));
    while k < changes.len()
        invariant
            k <= changes.len(),
            all == changes.deep_view(),
            out.deep_view() == files_among(all.take(k as int)),
        decreases changes.len() - k,
    {
        assert(all.take(k + 1).drop_last() =~= all.take(k as int));
        assert(all.take(k + 1).last() == changes[k as int].deep_view());
        if !changes[k].is_tree {
            let ghost was = out.deep_view();
            let file: CommitFile = changes[k].file.dup();
            out.push(file);
            assert(out.deep_view() =~= was.push(file.deep_view()));
        }
        k += 1;
    }
    assert(all.take(k as int) =~= all);
    out
}

fn shortened(id: &str) -> (r: String)
    ensures
        r@ == seven(id@),
{
    let v: Vec<char> = text::chars_of(id);
    let mut out: String = String::new();
    let mut k: usize = 0;
    assert(out@ =~= id@.take(0));
    while k < v.len() && k < 7
        invariant
            k <= v.len(),
            k <= 7,
            v@ == id@,
            out@ == id@.take(k as int),
        decreases v.len() - k,
    {
        out.push(v[k]);
        assert(id@.take(k + 1) =~= id@.take(k as int).push(id@[k as int]));
        k += 1;
    }
    assert(out@ =~= seven(id@));
    out
}

/// What is shown of a commit, given what a walk found of it.
pub fn commit_info(commit: &WalkedCommit) -> (r: CommitInfo)
    ensures
        r.deep_view() == info_of(commit.deep_view()),
{
    assert(commit.parents.deep_view().len() == commit.parents.len());
    assert(commit.message.deep_view() =~= commit.message@);
    let short_id: String = match &commit.short_id {
        Some(s) => s.dup(),
        None => shortened(&commit.id),
    };
    let summary: String = match &commit.subject {
        Some(s) => s.dup(),
        None => {
            let lines: Vec<String> = text::lines_of(&text::lossy(&commit.message));
            if lines.len() == 0 {
                let r: String = String::new();
                assert(r@ =~= Seq::empty());
                r
            } else {
                assert(lines.deep_view()[0] == lines[0]@);
                lines[0].dup()
            }
        },
    };
    let author: String = match &commit.author {
        Some(a) => a.dup(),
        None => {
            let r: String = String::new();
            assert(r@ =~= Seq::empty());
            r
        },
    };
    let first_parent: Option<String> = if commit.parents.len() == 0 {
        None
    } else {
        assert(commit.parents.deep_view()[0] == commit.parents[0]@);
        Some(commit.parents[0].dup())
    };
    CommitInfo {
        id: commit.id.dup(),
        short_id,
        summary,
        author,
        time: Timestamp::from_secs_or_epoch(commit.secs),
        author_time: Timestamp::from_secs_or_epoch(commit.author_secs),
        parent_count: commit.parents.len(),
        first_parent,
        files: files_of_commit(&commit.changes),
    }
}

/// The commits of a walk from the newest to the oldest, oldest first.
pub fn commits_between(newest_first: &Vec<WalkedCommit>) -> (r: Vec<CommitInfo>)
    ensures
        r.deep_view() == oldest_first(newest_first.deep_view()),
{
    let ghost all = newest_first.deep_view();
    let ghost want = oldest_first(all);
    let mut out: Vec<CommitInfo> = Vec::new();
    let mut k: usize = 0;
    assert(out.deep_view() =~= want.take(0));
    while k < newest_first.len()
        invariant
            k <= newest_first.len(),
            all == newest_first.deep_view(),
            want == oldest_first(all),
            out.deep_view() == want.take(k as int),
        decreases newest_first.len() - k,
    {
        let at: usize = newest_first.len() - 1 - k;
        assert(all[at as int] == newest_first[at as int].deep_view());
        let info: CommitInfo = commit_info(&newest_first[at]);
        let ghost was = out.deep_view();
        out.push(info);
        assert(out.deep_view() =~= was.push(info.deep_view()));
        assert(want.take(k + 1) =~= want.take(k as int).push(want[k as int]));
        k += 1;
    }
    assert(want.take(k as int) =~= want);
    out
}

// ---------------------------------------------------------------------------
// Reflog
pub open spec fn reflog_time(line: ReflogLineView) -> Timestamp {
    time_or_epoch(line.secs)
}

/// A reflog line as an entry: `action: message`, or the action alone.
pub open spec fn reflog_entry(line: ReflogLineView) -> ReflogEntryView {
    let (action, message) = match text::split_once_text(line.message, ": "@) {
        Some((a, d)) => (a, d),
        None => (line.message, Seq::empty()),
    };
    ReflogEntryView {
        time: reflog_time(line),
        previous_id: line.previous_id,
        new_id: line.new_id,
        action,
        message,
    }
}

/// The entries of a reflog, given newest first, up to the first one older than
/// `since`; oldest first.
pub open spec fn reflog_since(lines: Seq<ReflogLineView>, since: Timestamp) -> Seq<ReflogEntryView>
    decreases lines.len(),
{
    if lines.len() == 0 || earlier(reflog_time(lines[0]), since) {
        Seq::empty()
    } else {
        reflog_since(lines.drop_first(), since).push(reflog_entry(lines[0]))
    }
}

/// How many leading lines of a reflog are no older than `since`.
pub open spec fn lines_since(lines: Seq<ReflogLineView>, since: Timestamp) -> nat
    decreases lines.len(),
{
    if lines.len() == 0 || earlier(reflog_time(lines[0]), since) {
        0
    } else {
        1 + lines_since(lines.drop_first(), since)
    }
}

fn read_entry(line: &ReflogLine) -> (r: ReflogEntry)
    ensures
        r.deep_view() == reflog_entry(line.deep_view()),
{
    let (action, message): (String, String) = match text::split_once_text_of(&line.message, ": ") {
        Some((a, d)) => (a.to_owned(), d.to_owned()),
        None => (line.message.dup(), String::new()),
    };
    let r = ReflogEntry {
        time: Timestamp::from_secs_or_epoch(line.secs),
        previous_id: line.previous_id.dup(),
        new_id: line.new_id.dup(),
        action,
        message,
    };
    assert(r.deep_view() =~= reflog_entry(line.deep_view()));
    r
}

/// Entries of a reflog newer than `since`, oldest first. The lines are given
/// newest first, as they are read.
pub fn head_reflog(lines: &Vec<ReflogLine>, since: Timestamp) -> (r: Vec<ReflogEntry>)
    ensures
        r.deep_view() == reflog_since(lines.deep_view(), since),
{
    let ghost all = lines.deep_view();
    let mut n: usize = 0;
    assert(all.skip(0) =~= all);
    while n < lines.len() && !Timestamp::from_secs_or_epoch(lines[n].secs).before(&since)
        invariant
            n <= lines.len(),
            all == lines.deep_view(),
            lines_since(all, since) == n + lines_since(all.skip(n as int), since),
        decreases lines.len() - n,
    {
        assert(all.skip(n as int)[0] == lines[n as int].deep_view());
        assert(all.skip(n as int).drop_first() =~= all.skip(n + 1));
        n += 1;
    }
    proof {
        if n < lines.len() {
            assert(all.skip(n as int)[0] == lines[n as int].deep_view());
        }
        lemma_reflog_since(all, since);
    }
    let mut out: Vec<ReflogEntry> = Vec::new();
    let mut k: usize = n;
    while k > 0
        invariant
            k <= n <= lines.len(),
            all == lines.deep_view(),
            out.len() == n - k,
            forall|i: int|
                0 <= i < out.len() ==> #[trigger] out[i].deep_view() == reflog_entry(
                    all[n - 1 - i],
                ),
        decreases k,
    {
        k -= 1;
        out.push(read_entry(&lines[k]));
    }
    assert(out.deep_view() =~= reflog_since(all, since));
    out
}

proof fn lemma_reflog_since(lines: Seq<ReflogLineView>, since: Timestamp)
    ensures
        lines_since(lines, since) <= lines.len(),
        reflog_since(lines, since).len() == lines_since(lines, since),
        forall|i: int|
            0 <= i < lines_since(lines, since) ==> #[trigger] reflog_since(lines, since)[i]
                == reflog_entry(lines[lines_since(lines, since) - 1 - i]),
    decreases lines.len(),
{
    if lines.len() > 0 && !earlier(reflog_time(lines[0]), since) {
        let rest = lines.drop_first();
        lemma_reflog_since(rest, since);
        let n = lines_since(lines, since) as int;
        assert forall|i: int| 0 <= i < n implies #[trigger] reflog_since(lines, since)[i]
            == reflog_entry(lines[n - 1 - i]) by {
            if i < n - 1 {
                assert(reflog_since(lines, since)[i] == reflog_since(rest, since)[i]);
                assert(rest[n - 2 - i] == lines[n - 1 - i]);
            }
        }
    }
}

// ---------------------------------------------------------------------------
// The history of one file
/// One line of `git log --format=%H%x1f%h%x1f%ct%x1f%s`; nothing when it lacks
/// a column or its time.
pub open spec fn file_commit(line: Seq<char>) -> Option<FileCommitView> {
    let cols = text::split(line, '\x1f');
    if cols.len() < 3 {
        None
    } else {
        match text::integer_value(cols[2]) {
            Some(n) => if i64::MIN <= n <= i64::MAX && in_calendar_int(n) {
                Some(
                    FileCommitView {
                        id: cols[0],
                        short_id: cols[1],
                        summary: if cols.len() > 3 {
                            cols[3]
                        } else {
                            Seq::empty()
                        },
                        time: Timestamp { secs: n as i64, nanos: 0 },
                    },
                )
            } else {
                None
            },
            None => None,
        }
    }
}

pub open spec fn in_calendar_int(n: int) -> bool {
    calendar_time(n as i64) is Some
}

pub open spec fn file_commits_of(lines: Seq<Seq<char>>) -> Seq<FileCommitView>
    decreases lines.len(),
{
    if lines.len() == 0 {
        Seq::empty()
    } else {
        match file_commit(lines.last()) {
            Some(c) => file_commits_of(lines.drop_last()).push(c),
            None => file_commits_of(lines.drop_last()),
        }
    }
}

fn read_file_commit(line: &str) -> (r: Option<FileCommit>)
    ensures
        r.deep_view() == file_commit(line@),
{
    let cols: Vec<String> = text::split_of(line, '\x1f');
    assert(cols.len() == cols.deep_view().len());
    if cols.len() < 3 {
        return None;
    }
    assert(cols[0]@ == cols.deep_view()[0]);
    assert(cols[1]@ == cols.deep_view()[1]);
    assert(cols[2]@ == cols.deep_view()[2]);
    match text::parse_integer(&cols[2]) {
        Some(secs) => match Timestamp::from_secs(secs) {
            Some(time) => {
                let summary: String = if cols.len() > 3 {
                    assert(cols[3]@ == cols.deep_view()[3]);
                    cols[3].dup()
                } else {
                    String::new()
                };
                let r = FileCommit { id: cols[0].dup(), short_id: cols[1].dup(), summary, time };
                assert(r.deep_view() =~= file_commit(line@)->Some_0);
                Some(r)
            },
            None => None,
        },
        None => None,
    }
}

/// The commits that `git log` lists for a file, newest first.
pub fn file_commits(output: &[u8]) -> (r: Vec<FileCommit>)
    ensures
        r.deep_view() == file_commits_of(text::lines(lossy_text(output@))),
{
    let lines: Vec<String> = text::lines_of(&text::lossy(output));
    let ghost all = lines.deep_view();
    let mut out: Vec<FileCommit> = Vec::new();
    let mut k: usize = 0;
    assert(out.deep_view() =~= file_commits_of(all.take(0)));
    while k < lines.len()
        invariant
            k <= lines.len(),
            all == lines.deep_view(),
            out.deep_view() == file_commits_of(all.take(k as int)),
        decreases lines.len() - k,
    {
        let ghost was = out.deep_view();
        proof {
            assert(all.take(k + 1).drop_last() =~= all.take(k as int));
            assert(all.take(k + 1).last() == lines[k as int]@);
        }
        match read_file_commit(&lines[k]) {
            Some(c) => {
                let ghost cv = c.deep_view();
                out.push(c);
                assert(out.deep_view() =~= was.push(cv));
            },
            None => {},
        }
        k += 1;
    }
    assert(all.take(k as int) =~= all);
    out
}

} // verus!
