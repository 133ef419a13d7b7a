//! Working tree status and line statistics, read from the output of git.

use super::{nul_chunks, split_at_nul};
use crate::data::{Dup, Same};
use crate::map::TextMap;
use crate::review::diff::{line_count, looks_binary};
use crate::text::{self, lossy_text};
use vstd::prelude::*;
use vstd::slice::slice_subrange;

verus! {

#[derive(Debug, Clone, Copy, PartialEq, Eq, Hash, Structural)]
pub enum ChangeKind {
    Added,
    Modified,
    Deleted,
    Renamed,
    TypeChanged,
    Copied,
    Conflicted,
}

/// One entry of `git status`, with the index and worktree sides kept apart so
/// staged / unstaged / partially staged files can all be distinguished.
#[derive(Debug, Clone, PartialEq, Eq)]
pub struct StatusEntry {
    pub path: String,
    /// Original path for renames and copies.
    pub orig_path: Option<String>,
    /// Change recorded in the index relative to HEAD (staged).
    pub staged: Option<ChangeKind>,
    /// Change in the working tree relative to the index (unstaged).
    pub unstaged: Option<ChangeKind>,
    /// File is not tracked by git at all.
    pub untracked: bool,
}

/// Line statistics for one file.
#[derive(Debug, Clone, PartialEq, Eq)]
pub struct FileStat {
    pub path: String,
    pub old_path: Option<String>,
    /// `None` for binary files.
    pub additions: Option<u64>,
    pub deletions: Option<u64>,
}

#[derive(Debug, Clone, Copy, PartialEq, Eq, Structural)]
pub struct LineStats {
    pub additions: u64,
    pub deletions: u64,
}

impl DeepView for ChangeKind {
    type V = ChangeKind;

    open spec fn deep_view(&self) -> ChangeKind {
        *self
    }
}

impl Dup for ChangeKind {
    fn dup(&self) -> (r: ChangeKind) {
        *self
    }
}

impl Same for ChangeKind {
    fn same(&self, other: &ChangeKind) -> (r: bool) {
        *self == *other
    }
}

/// What a [`StatusEntry`] denotes.
#[verifier::ext_equal]
pub struct StatusEntryView {
    pub path: Seq<char>,
    pub orig_path: Option<Seq<char>>,
    pub staged: Option<ChangeKind>,
    pub unstaged: Option<ChangeKind>,
    pub untracked: bool,
}

impl DeepView for StatusEntry {
    type V = StatusEntryView;

    open spec fn deep_view(&self) -> StatusEntryView {
        StatusEntryView {
            path: self.path.deep_view(),
            orig_path: self.orig_path.deep_view(),
            staged: self.staged.deep_view(),
            unstaged: self.unstaged.deep_view(),
            untracked: self.untracked.deep_view(),
        }
    }
}

impl Dup for StatusEntry {
    fn dup(&self) -> (r: StatusEntry) {
        StatusEntry {
            path: self.path.dup(),
            orig_path: self.orig_path.dup(),
            staged: self.staged.dup(),
            unstaged: self.unstaged.dup(),
            untracked: self.untracked.dup(),
        }
    }
}

/// What a [`FileStat`] denotes.
#[verifier::ext_equal]
pub struct FileStatView {
    pub path: Seq<char>,
    pub old_path: Option<Seq<char>>,
    pub additions: Option<u64>,
    pub deletions: Option<u64>,
}

impl DeepView for FileStat {
    type V = FileStatView;

    open spec fn deep_view(&self) -> FileStatView {
        FileStatView {
            path: self.path.deep_view(),
            old_path: self.old_path.deep_view(),
            additions: self.additions.deep_view(),
            deletions: self.deletions.deep_view(),
        }
    }
}

impl Dup for FileStat {
    fn dup(&self) -> (r: FileStat) {
        FileStat {
            path: self.path.dup(),
            old_path: self.old_path.dup(),
            additions: self.additions.dup(),
            deletions: self.deletions.dup(),
        }
    }
}

impl DeepView for LineStats {
    type V = LineStats;

    open spec fn deep_view(&self) -> LineStats {
        *self
    }
}

impl Dup for LineStats {
    fn dup(&self) -> (r: LineStats) {
        *self
    }
}

impl Same for LineStats {
    fn same(&self, other: &LineStats) -> (r: bool) {
        *self == *other
    }
}

impl ChangeKind {
    pub open spec fn of_status_char(c: char) -> Option<ChangeKind> {
        if c == 'A' {
            Some(ChangeKind::Added)
        } else if c == 'M' {
            Some(ChangeKind::Modified)
        } else if c == 'D' {
            Some(ChangeKind::Deleted)
        } else if c == 'R' {
            Some(ChangeKind::Renamed)
        } else if c == 'T' {
            Some(ChangeKind::TypeChanged)
        } else if c == 'C' {
            Some(ChangeKind::Copied)
        } else if c == 'U' {
            Some(ChangeKind::Conflicted)
        } else {
            None
        }
    }

    fn from_status_char(c: char) -> (r: Option<ChangeKind>)
        ensures
            r == ChangeKind::of_status_char(c),
    {
        match c {
            'A' => Some(ChangeKind::Added),
            'M' => Some(ChangeKind::Modified),
            'D' => Some(ChangeKind::Deleted),
            'R' => Some(ChangeKind::Renamed),
            'T' => Some(ChangeKind::TypeChanged),
            'C' => Some(ChangeKind::Copied),
            'U' => Some(ChangeKind::Conflicted),
            _ => None,
        }
    }

    pub open spec fn label_text(self) -> Seq<char> {
        match self {
            ChangeKind::Added => "Added"@,
            ChangeKind::Modified => "Modified"@,
            ChangeKind::Deleted => "Deleted"@,
            ChangeKind::Renamed => "Renamed"@,
            ChangeKind::TypeChanged => "Type changed"@,
            ChangeKind::Copied => "Copied"@,
            ChangeKind::Conflicted => "Conflicted"@,
        }
    }

    pub fn label(self) -> (r: &'static str)
        ensures
            r@ == self.label_text(),
    {
        match self {
            ChangeKind::Added => "Added",
            ChangeKind::Modified => "Modified",
            ChangeKind::Deleted => "Deleted",
            ChangeKind::Renamed => "Renamed",
            ChangeKind::TypeChanged => "Type changed",
            ChangeKind::Copied => "Copied",
            ChangeKind::Conflicted => "Conflicted",
        }
    }
}

impl StatusEntryView {
    /// The change a human would name when asked "what happened to this file?".
    pub open spec fn effective(self) -> ChangeKind {
        if self.untracked || self.staged == Some(ChangeKind::Added) {
            ChangeKind::Added
        } else if self.staged == Some(ChangeKind::Renamed) {
            ChangeKind::Renamed
        } else {
            match (self.staged, self.unstaged) {
                (_, Some(k)) => k,
                (Some(k), None) => k,
                (None, None) => ChangeKind::Modified,
            }
        }
    }
}

impl StatusEntry {
    /// The change a human would name when asked "what happened to this file?".
    ///
    /// The worktree side wins because it describes the state on disk; a file
    /// that was staged as added and then edited is still "added".
    pub fn effective_kind(&self) -> (r: ChangeKind)
        ensures
            r == self.deep_view().effective(),
    {
        if self.untracked {
            return ChangeKind::Added;
        }
        match (self.staged, self.unstaged) {
            (Some(ChangeKind::Added), _) => ChangeKind::Added,
            (Some(ChangeKind::Renamed), _) => ChangeKind::Renamed,
            (_, Some(k)) => k,
            (Some(k), None) => k,
            (None, None) => ChangeKind::Modified,
        }
    }
}

// ---------------------------------------------------------------------------
// git status
/// One changed entry, from the columns behind its tag:
/// `XY sub mH mI mW hH hI [Xscore] path`, `n` of them.
pub open spec fn changed_entry(
    rest: Seq<char>,
    n: nat,
    conflict: bool,
    orig_path: Option<Seq<char>>,
) -> StatusEntryView {
    let cols = text::splitn(rest, n, ' ');
    let xy = cols[0];
    StatusEntryView {
        path: if cols.len() > 1 {
            cols.last()
        } else {
            Seq::empty()
        },
        orig_path,
        staged: if conflict {
            Some(ChangeKind::Conflicted)
        } else {
            ChangeKind::of_status_char(
                if xy.len() > 0 {
                    xy[0]
                } else {
                    '.'
                },
            )
        },
        unstaged: if conflict {
            Some(ChangeKind::Conflicted)
        } else {
            ChangeKind::of_status_char(
                if xy.len() > 1 {
                    xy[1]
                } else {
                    '.'
                },
            )
        },
        untracked: false,
    }
}

pub open spec fn untracked_entry(rest: Seq<char>) -> StatusEntryView {
    StatusEntryView { path: rest, orig_path: None, staged: None, unstaged: None, untracked: true }
}

/// What stands before the first space, and what behind it.
pub open spec fn tag_and_rest(line: Seq<char>) -> (Seq<char>, Seq<char>) {
    match text::split_once(line, ' ') {
        Some((tag, rest)) => (tag, rest),
        None => (line, Seq::empty()),
    }
}

/// The entries that the fields of `git status --porcelain=v2 -z` describe. A
/// renamed entry takes the field behind it as its original path.
pub open spec fn status_entries(fields: Seq<Seq<char>>) -> Seq<StatusEntryView>
    decreases fields.len(),
{
    if fields.len() == 0 {
        Seq::empty()
    } else {
        let (tag, rest) = tag_and_rest(fields[0]);
        if tag == "1"@ {
            seq![changed_entry(rest, 8, false, None)] + status_entries(fields.skip(1))
        } else if tag == "2"@ {
            if fields.len() > 1 {
                seq![changed_entry(rest, 9, false, Some(fields[1]))] + status_entries(
                    fields.skip(2),
                )
            } else {
                seq![changed_entry(rest, 9, false, None)]
            }
        } else if tag == "u"@ {
            seq![changed_entry(rest, 10, true, None)] + status_entries(fields.skip(1))
        } else if tag == "?"@ {
            seq![untracked_entry(rest)] + status_entries(fields.skip(1))
        } else {
            status_entries(fields.skip(1))
        }
    }
}

/// The non-empty chunks between zero bytes, as text.
pub open spec fn nul_fields(bytes: Seq<u8>) -> Seq<Seq<char>> {
    fields_of(nul_chunks(bytes))
}

pub open spec fn fields_of(chunks: Seq<Seq<u8>>) -> Seq<Seq<char>>
    decreases chunks.len(),
{
    if chunks.len() == 0 {
        Seq::empty()
    } else if chunks.last().len() == 0 {
        fields_of(chunks.drop_last())
    } else {
        fields_of(chunks.drop_last()).push(lossy_text(chunks.last()))
    }
}

fn read_changed(rest: &str, n: usize, conflict: bool, orig_path: Option<String>) -> (r: StatusEntry)
    requires
        n > 0,
    ensures
        r.deep_view() == changed_entry(rest@, n as nat, conflict, orig_path.deep_view()),
{
    let cols: Vec<String> = text::splitn_of(rest, n, ' ');
    proof {
        text::lemma_splitn_some(rest@, n as nat, ' ');
    }
    assert(cols.deep_view().len() == cols.len());
    assert(cols[0]@ == cols.deep_view()[0]);
    let xy: Vec<char> = text::chars_of(&cols[0]);
    let x: char = if xy.len() > 0 {
        xy[0]
    } else {
        '.'
    };
    let y: char = if xy.len() > 1 {
        xy[1]
    } else {
        '.'
    };
    let last: usize = cols.len() - 1;
    assert(cols[last as int]@ == cols.deep_view().last());
    let path: String = if cols.len() > 1 {
        cols[last].dup()
    } else {
        String::new()
    };
    let r = StatusEntry {
        path,
        orig_path,
        staged: if conflict {
            Some(ChangeKind::Conflicted)
        } else {
            ChangeKind::from_status_char(x)
        },
        unstaged: if conflict {
            Some(ChangeKind::Conflicted)
        } else {
            ChangeKind::from_status_char(y)
        },
        untracked: false,
    };
    assert(r.deep_view() =~= changed_entry(rest@, n as nat, conflict, orig_path.deep_view()));
    r
}

/// Parse `git status --porcelain=v2 -z` output.
pub fn parse_status_v2(bytes: &[u8]) -> (r: Vec<StatusEntry>)
    ensures
        r.deep_view() == status_entries(nul_fields(bytes@)),
{
    let fields: Vec<String> = super::split_nul(bytes);
    let ghost all = fields.deep_view();
    let mut out: Vec<StatusEntry> = Vec::new();
    let mut k: usize = 0;
    assert(all.skip(0) =~= all);
    assert(out.deep_view() + status_entries(all) =~= status_entries(all));
    while k < fields.len()
        invariant
            k <= fields.len(),
            all == fields.deep_view(),
            out.deep_view() + status_entries(all.skip(k as int)) == status_entries(all),
        decreases fields.len() - k,
    {
        let ghost was = out.deep_view();
        let ghost left = all.skip(k as int);
        assert(left[0] == fields[k as int]@);
        assert(left.skip(1) =~= all.skip(k + 1));
        let line: &str = &fields[k];
        let empty: String = String::new();
        let (tag, rest): (&str, &str) = match text::split_once_of(line, ' ') {
            Some((tag, rest)) => (tag, rest),
            None => (line, empty.as_str()),
        };
        assert((tag@, rest@) == tag_and_rest(line@)) by {
            assert(empty@ =~= Seq::empty());
        }
        proof {
            reveal_strlit("1");
            reveal_strlit("2");
            reveal_strlit("u");
            reveal_strlit("?");
        }
        if text::same(tag, "1") {
            out.push(read_changed(rest, 8, false, None));
            assert(out.deep_view() =~= was.push(changed_entry(rest@, 8, false, None)));
            assert(out.deep_view() + status_entries(all.skip(k + 1)) =~= was + status_entries(left));
        } else if text::same(tag, "2") {
            let orig: Option<String> = if k + 1 < fields.len() {
                assert(left[1] == fields[k + 1]@);
                Some(fields[k + 1].dup())
            } else {
                None
            };
            let ghost ov = orig.deep_view();
            out.push(read_changed(rest, 9, false, orig));
            assert(out.deep_view() =~= was.push(changed_entry(rest@, 9, false, ov)));
            if k + 1 < fields.len() {
                k += 1;
                assert(left.skip(2) =~= all.skip(k + 1));
            } else {
                assert(all.skip(k + 1) =~= Seq::empty());
            }
            assert(out.deep_view() + status_entries(all.skip(k + 1)) =~= was + status_entries(left));
        } else if text::same(tag, "u") {
            out.push(read_changed(rest, 10, true, None));
            assert(out.deep_view() =~= was.push(changed_entry(rest@, 10, true, None)));
            assert(out.deep_view() + status_entries(all.skip(k + 1)) =~= was + status_entries(left));
        } else if text::same(tag, "?") {
            let e = StatusEntry {
                path: rest.to_owned(),
                orig_path: None,
                staged: None,
                unstaged: None,
                untracked: true,
            };
            assert(e.deep_view() =~= untracked_entry(rest@));
            out.push(e);
            assert(out.deep_view() =~= was.push(untracked_entry(rest@)));
            assert(out.deep_view() + status_entries(all.skip(k + 1)) =~= was + status_entries(left));
        }
        k += 1;
    }
    assert(all.skip(k as int) =~= Seq::empty());
    assert(out.deep_view() + Seq::<StatusEntryView>::empty() =~= out.deep_view());
    out
}

// ---------------------------------------------------------------------------
// git diff --numstat
/// A count of lines; `-` and everything else that is no number stands for none.
pub open spec fn count_of(s: Seq<char>) -> Option<u64> {
    match text::number_value(s) {
        Some(n) => if n <= u64::MAX {
            Some(n as u64)
        } else {
            None
        },
        None => None,
    }
}

/// The column `i` of a line, or else `missing`.
pub open spec fn column(cols: Seq<Seq<char>>, i: int, missing: Seq<char>) -> Seq<char> {
    if i < cols.len() {
        cols[i]
    } else {
        missing
    }
}

/// The file statistics that the chunks of `git diff --numstat -z` describe:
/// `adds\tdels\tpath`, where a renamed file has no path in its own chunk but
/// the old one and the new one in the two that follow.
pub open spec fn numstat_entries(chunks: Seq<Seq<u8>>) -> Seq<FileStatView>
    decreases chunks.len(),
{
    if chunks.len() == 0 {
        Seq::empty()
    } else if chunks[0].len() == 0 {
        numstat_entries(chunks.skip(1))
    } else {
        let cols = text::splitn(lossy_text(chunks[0]), 3, '\t');
        let additions = count_of(column(cols, 0, "-"@));
        let deletions = count_of(column(cols, 1, "-"@));
        let path = column(cols, 2, Seq::empty());
        if path.len() > 0 {
            seq![FileStatView { path, old_path: None, additions, deletions }] + numstat_entries(
                chunks.skip(1),
            )
        } else if chunks.len() > 2 {
            seq![
                FileStatView {
                    path: lossy_text(chunks[2]),
                    old_path: Some(lossy_text(chunks[1])),
                    additions,
                    deletions,
                },
            ] + numstat_entries(chunks.skip(3))
        } else {
            seq![
                FileStatView {
                    path: Seq::empty(),
                    old_path: if chunks.len() > 1 {
                        Some(lossy_text(chunks[1]))
                    } else {
                        None
                    },
                    additions,
                    deletions,
                },
            ]
        }
    }
}

fn column_of(cols: &Vec<String>, i: usize, missing: &str) -> (r: String)
    ensures
        r@ == column(cols.deep_view(), i as int, missing@),
{
    if i < cols.len() {
        cols[i].dup()
    } else {
        missing.to_owned()
    }
}

/// Parse `git diff --numstat -z` output (with `-M`, renames appear as
/// `adds\tdels\t\0old\0new\0`).
pub fn parse_numstat(bytes: &[u8]) -> (r: Vec<FileStat>)
    ensures
        r.deep_view() == numstat_entries(nul_chunks(bytes@)),
{
    let chunks: Vec<(usize, usize)> = split_at_nul(bytes);
    let ghost all = nul_chunks(bytes@);
    let mut out: Vec<FileStat> = Vec::new();
    let mut k: usize = 0;
    assert(all.skip(0) =~= all);
    assert(out.deep_view() + numstat_entries(all) =~= numstat_entries(all));
    while k < chunks.len()
        invariant
            k <= chunks.len(),
            chunks.len() == all.len(),
            all == nul_chunks(bytes@),
            forall|i: int|
                0 <= i < chunks.len() ==> (#[trigger] chunks[i]).0 <= chunks[i].1 <= bytes@.len()
                    && bytes@.subrange(chunks[i].0 as int, chunks[i].1 as int) == all[i],
            out.deep_view() + numstat_entries(all.skip(k as int)) == numstat_entries(all),
        decreases chunks.len() - k,
    {
        let ghost was = out.deep_view();
        let ghost left = all.skip(k as int);
        assert(left[0] == all[k as int]);
        assert(left.skip(1) =~= all.skip(k + 1));
        let (a, b): (usize, usize) = chunks[k];
        assert(chunks[k as int].0 <= chunks[k as int].1);
        if a < b {
            let line: String = text::lossy(slice_subrange(bytes, a, b));
            let cols: Vec<String> = text::splitn_of(&line, 3, '\t');
            let additions: Option<u64> = text::parse_number(&column_of(&cols, 0, "-"));
            let deletions: Option<u64> = text::parse_number(&column_of(&cols, 1, "-"));
            let empty: String = String::new();
            assert(empty@ =~= Seq::empty());
            let path: String = column_of(&cols, 2, &empty);
            if path.unicode_len() > 0 {
                let stat = FileStat { path, old_path: None, additions, deletions };
                let ghost sv = stat.deep_view();
                out.push(stat);
                assert(out.deep_view() =~= was.push(sv));
                assert(out.deep_view() + numstat_entries(all.skip(k + 1)) =~= was + numstat_entries(
                    left,
                ));
                k += 1;
            } else {
                let old_path: Option<String> = if k + 1 < chunks.len() {
                    assert(left[1] == all[k + 1]);
                    let (c, d): (usize, usize) = chunks[k + 1];
                    assert(chunks[k + 1].0 <= chunks[k + 1].1);
                    Some(text::lossy(slice_subrange(bytes, c, d)))
                } else {
                    None
                };
                let path: String = if chunks.len() - k > 2 {
                    assert(left[2] == all[k + 2]);
                    let (c, d): (usize, usize) = chunks[k + 2];
                    assert(chunks[k + 2].0 <= chunks[k + 2].1);
                    text::lossy(slice_subrange(bytes, c, d))
                } else {
                    empty
                };
                let stat = FileStat { path, old_path, additions, deletions };
                let ghost sv = stat.deep_view();
                out.push(stat);
                assert(out.deep_view() =~= was.push(sv));
                if chunks.len() - k > 2 {
                    assert(left.skip(3) =~= all.skip(k + 3));
                    assert(out.deep_view() + numstat_entries(all.skip(k + 3)) =~= was
                        + numstat_entries(left));
                    k += 3;
                } else {
                    assert(numstat_entries(left) =~= seq![sv]);
                    k = chunks.len();
                    assert(all.skip(k as int) =~= Seq::empty());
                    assert(out.deep_view() + numstat_entries(all.skip(k as int)) =~= was
                        + numstat_entries(left));
                }
            }
        } else {
            k += 1;
        }
    }
    assert(all.skip(k as int) =~= Seq::empty());
    assert(out.deep_view() + Seq::<FileStatView>::empty() =~= out.deep_view());
    out
}

impl FileStat {
    pub fn is_binary(&self) -> (r: bool)
        ensures
            r == (self.deep_view().additions is None),
    {
        self.additions.is_none()
    }
}

// ---------------------------------------------------------------------------
// Sums
/// A count that may be missing, as a number.
pub open spec fn or_zero(n: Option<u64>) -> u64 {
    match n {
        Some(n) => n,
        None => 0,
    }
}

pub open spec fn sum_additions(stats: Seq<FileStatView>) -> int
    decreases stats.len(),
{
    if stats.len() == 0 {
        0
    } else {
        sum_additions(stats.drop_last()) + or_zero(stats.last().additions)
    }
}

pub open spec fn sum_deletions(stats: Seq<FileStatView>) -> int
    decreases stats.len(),
{
    if stats.len() == 0 {
        0
    } else {
        sum_deletions(stats.drop_last()) + or_zero(stats.last().deletions)
    }
}

/// The sums of some statistics are numbers of 64 bits.
pub open spec fn summable(stats: Seq<FileStatView>) -> bool {
    sum_additions(stats) <= u64::MAX && sum_deletions(stats) <= u64::MAX
}

/// Leading statistics sum up to no more than all of them.
pub proof fn lemma_sum_take(stats: Seq<FileStatView>, k: int)
    requires
        0 <= k <= stats.len(),
    ensures
        0 <= sum_additions(stats.take(k)) <= sum_additions(stats),
        0 <= sum_deletions(stats.take(k)) <= sum_deletions(stats),
    decreases stats.len(),
{
    if k == stats.len() {
        assert(stats.take(k) =~= stats);
        if k > 0 {
            lemma_sum_take(stats.drop_last(), k - 1);
        }
    } else {
        assert(stats.drop_last().take(k) =~= stats.take(k));
        lemma_sum_take(stats.drop_last(), k);
    }
}

/// The sum over two lists is the sum of their sums.
pub proof fn lemma_sum_concat(a: Seq<FileStatView>, b: Seq<FileStatView>)
    ensures
        sum_additions(a + b) == sum_additions(a) + sum_additions(b),
        sum_deletions(a + b) == sum_deletions(a) + sum_deletions(b),
    decreases b.len(),
{
    if b.len() == 0 {
        assert(a + b =~= a);
    } else {
        lemma_sum_concat(a, b.drop_last());
        assert((a + b).drop_last() =~= a + b.drop_last());
    }
}

/// Whether the sums of some statistics are numbers of 64 bits.
pub fn can_sum(stats: &Vec<FileStat>) -> (r: bool)
    ensures
        r == summable(stats.deep_view()),
{
    let ghost all = stats.deep_view();
    let mut additions: u64 = 0;
    let mut deletions: u64 = 0;
    let mut k: usize = 0;
    assert(all.take(0) =~= Seq::empty());
    while k < stats.len()
        invariant
            k <= stats.len(),
            all == stats.deep_view(),
            additions == sum_additions(all.take(k as int)),
            deletions == sum_deletions(all.take(k as int)),
        decreases stats.len() - k,
    {
        proof {
            assert(all.take(k + 1).drop_last() =~= all.take(k as int));
            assert(all.take(k + 1).last() == stats[k as int].deep_view());
            lemma_sum_take(all, k + 1);
        }
        let added: u64 = stats[k].additions.unwrap_or(0);
        let deleted: u64 = stats[k].deletions.unwrap_or(0);
        if added > u64::MAX - additions || deleted > u64::MAX - deletions {
            return false;
        }
        additions = additions + added;
        deletions = deletions + deleted;
        k += 1;
    }
    assert(all.take(k as int) =~= all);
    true
}

/// `+3 -1`, `+3`, `-1` or `±0`: the notation every text view uses.
pub open spec fn stats_text(s: LineStats) -> Seq<char> {
    if s.additions == 0 && s.deletions == 0 {
        "±0"@
    } else if s.deletions == 0 {
        "+"@ + text::decimal(s.additions as nat)
    } else if s.additions == 0 {
        "-"@ + text::decimal(s.deletions as nat)
    } else {
        "+"@ + text::decimal(s.additions as nat) + " -"@ + text::decimal(s.deletions as nat)
    }
}

impl Default for LineStats {
    fn default() -> (r: LineStats)
        ensures
            r == (LineStats { additions: 0, deletions: 0 }),
    {
        LineStats { additions: 0, deletions: 0 }
    }
}

impl LineStats {
    pub fn add(&mut self, stat: &FileStat)
        requires
            old(self).additions + or_zero(stat.additions) <= u64::MAX,
            old(self).deletions + or_zero(stat.deletions) <= u64::MAX,
        ensures
            final(self).additions == old(self).additions + or_zero(stat.deep_view().additions),
            final(self).deletions == old(self).deletions + or_zero(stat.deep_view().deletions),
    {
        self.additions = self.additions + stat.additions.unwrap_or(0);
        self.deletions = self.deletions + stat.deletions.unwrap_or(0);
    }

    /// Sum of several per-file stats.
    pub fn sum(stats: &Vec<FileStat>) -> (r: LineStats)
        requires
            summable(stats.deep_view()),
        ensures
            r.additions == sum_additions(stats.deep_view()),
            r.deletions == sum_deletions(stats.deep_view()),
    {
        let ghost all = stats.deep_view();
        let mut total: LineStats = LineStats::default();
        let mut k: usize = 0;
        assert(all.take(0) =~= Seq::empty());
        while k < stats.len()
            invariant
                k <= stats.len(),
                all == stats.deep_view(),
                summable(all),
                total.additions == sum_additions(all.take(k as int)),
                total.deletions == sum_deletions(all.take(k as int)),
            decreases stats.len() - k,
        {
            proof {
                assert(all.take(k + 1).drop_last() =~= all.take(k as int));
                assert(all.take(k + 1).last() == stats[k as int].deep_view());
                lemma_sum_take(all, k + 1);
            }
            total.add(&stats[k]);
            k += 1;
        }
        assert(all.take(k as int) =~= all);
        total
    }

    /// From optional per-side counts (binary files count as zero).
    pub fn from_counts(additions: Option<u64>, deletions: Option<u64>) -> (r: LineStats)
        ensures
            r == (LineStats { additions: or_zero(additions), deletions: or_zero(deletions) }),
    {
        LineStats { additions: additions.unwrap_or(0), deletions: deletions.unwrap_or(0) }
    }

    /// `+3 -1`, `+3`, `-1` or `±0`.
    pub fn to_string(&self) -> (r: String)
        ensures
            r@ == stats_text(*self),
    {
        if self.additions == 0 && self.deletions == 0 {
            "±0".to_owned()
        } else if self.deletions == 0 {
            text::cat2("+", &text::decimal_of(self.additions))
        } else if self.additions == 0 {
            text::cat2("-", &text::decimal_of(self.deletions))
        } else {
            text::cat4(
                "+",
                &text::decimal_of(self.additions),
                " -",
                &text::decimal_of(self.deletions),
            )
        }
    }
}

// ---------------------------------------------------------------------------
// Untracked files
/// The lines of a file's content; `None` when there is none or it is binary.
pub open spec fn counted_lines(content: Option<Seq<u8>>) -> Option<u64> {
    match content {
        Some(data) => if looks_binary(data) {
            None
        } else {
            Some(line_count(data) as u64)
        },
        None => None,
    }
}

/// Count the lines of some content. Content that looks binary (NUL in the first
/// 8 KiB) reports `None`.
pub fn count_lines(data: &[u8]) -> (r: Option<u64>)
    ensures
        r == counted_lines(Some(data@)),
{
    if crate::review::diff::is_binary(data) {
        return None;
    }
    let mut feeds: u64 = 0;
    let mut k: usize = 0;
    while k < data.len()
        invariant
            k <= data@.len(),
            feeds <= k,
            feeds == crate::review::diff::line_count_before(data@.take(k as int)),
        decreases data@.len() - k,
    {
        assert(data@.take(k + 1).drop_last() =~= data@.take(k as int));
        if data[k] == 10 {
            feeds = feeds + 1;
        }
        k += 1;
    }
    assert(data@.take(k as int) =~= data@);
    let n: usize = data.len();
    proof {
        if n > 0 {
            crate::review::diff::lemma_feeds_bound(data@.drop_last());
        }
    }
    if n == 0 || data[n - 1] == 10 {
        Some(feeds)
    } else {
        Some(feeds + 1)
    }
}

pub open spec fn untracked_stat(
    e: StatusEntryView,
    contents: Map<Seq<char>, Seq<u8>>,
) -> FileStatView {
    FileStatView {
        path: e.path,
        old_path: None,
        additions: counted_lines(
            if contents.dom().contains(e.path) {
                Some(contents[e.path])
            } else {
                None
            },
        ),
        deletions: Some(0),
    }
}

pub open spec fn untracked_stats_of(
    entries: Seq<StatusEntryView>,
    contents: Map<Seq<char>, Seq<u8>>,
) -> Seq<FileStatView>
    decreases entries.len(),
{
    if entries.len() == 0 {
        Seq::empty()
    } else if entries.last().untracked {
        untracked_stats_of(entries.drop_last(), contents).push(
            untracked_stat(entries.last(), contents),
        )
    } else {
        untracked_stats_of(entries.drop_last(), contents)
    }
}

/// Count lines of untracked files so they can join the totals as pure additions.
/// `contents` has what could be read of them; files that look binary or could
/// not be read report `None`.
pub fn untracked_stats(entries: &Vec<StatusEntry>, contents: &TextMap<Vec<u8>>) -> (r: Vec<
    FileStat,
>)
    ensures
        r.deep_view() == untracked_stats_of(entries.deep_view(), contents.deep_view()),
{
    let ghost all = entries.deep_view();
    let ghost cs = contents.deep_view();
    let mut out: Vec<FileStat> = Vec::new();
    let mut k: usize = 0;
    assert(out.deep_view() =~= untracked_stats_of(all.take(0), cs));
    while k < entries.len()
        invariant
            k <= entries.len(),
            all == entries.deep_view(),
            cs == contents.deep_view(),
            out.deep_view() == untracked_stats_of(all.take(k as int), cs),
        decreases entries.len() - k,
    {
        let ghost was = out.deep_view();
        proof {
            assert(all.take(k + 1).drop_last() =~= all.take(k as int));
            assert(all.take(k + 1).last() == entries[k as int].deep_view());
        }
        let e: &StatusEntry = &entries[k];
        if e.untracked {
            let additions: Option<u64> = match contents.get(&e.path) {
                Some(data) => {
                    assert(data.deep_view() =~= data@);
                    count_lines(data.as_slice())
                },
                None => None,
            };
            let stat = FileStat {
                path: e.path.dup(),
                old_path: None,
                additions,
                deletions: Some(0),
            };
            assert(stat.deep_view() =~= untracked_stat(all[k as int], cs));
            out.push(stat);
            assert(out.deep_view() =~= was.push(untracked_stat(all[k as int], cs)));
        }
        k += 1;
    }
    assert(all.take(k as int) =~= all);
    out
}

} // verus!
