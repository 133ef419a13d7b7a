//! What holds of every report.

use super::{
    counts_of, tally, DiffGroupView, InspectReportView, RepositoryContextView, StatusCounts,
};
use super::reports::{
    changed_file, committed_kind, directories, directory_of, entry_of, files_in, first_stat,
    group_of, groups_for, groups_of, inspected, kind_in, session_summary, total_of, ByFile,
    FileFactsView, FoundSessionView,
};
use crate::choice::{
    is_first, lemma_first_here, lemma_first_later, lemma_selects_last, lemma_selects_none, selects,
};
use crate::error::TrailErrorView;
use crate::git::diff::{
    sum_additions, sum_deletions, summable, ChangeKind, FileStat, FileStatView, LineStats,
    StatusEntryView,
};
use crate::git::history::{CommitFileView, CommitInfoView};
use crate::order::{in_order, lemma_sorted, lemma_sorted_contains, ByText};
use crate::path;
use crate::recorder::checkpoint::{self, checkpoints_of};
use crate::text;
use crate::trail::event::TrailEventView;
use vstd::prelude::*;

verus! {

// ---------------------------------------------------------------------------
// One file
proof fn lemma_first_stat(stats: Seq<FileStatView>, p: Seq<char>)
    ensures
        is_first(stats, |s: FileStatView| path::same_path(s.path, p), first_stat(stats, p)),
    decreases stats.len(),
{
    let pred = |s: FileStatView| path::same_path(s.path, p);
    if stats.len() > 0 {
        if path::same_path(stats[0].path, p) {
            lemma_first_here(stats, pred);
        } else {
            lemma_first_stat(stats.drop_first(), p);
            lemma_first_later(stats, pred, first_stat(stats, p));
        }
    }
}

proof fn lemma_entry_of(entries: Seq<StatusEntryView>, p: Seq<char>)
    ensures
        is_first(entries, |e: StatusEntryView| path::same_path(e.path, p), entry_of(entries, p)),
    decreases entries.len(),
{
    let pred = |e: StatusEntryView| path::same_path(e.path, p);
    if entries.len() > 0 {
        if path::same_path(entries[0].path, p) {
            lemma_first_here(entries, pred);
        } else {
            lemma_entry_of(entries.drop_first(), p);
            lemma_first_later(entries, pred, entry_of(entries, p));
        }
    }
}

/// A file can be inspected unless it is neither there nor known to git: no
/// commit touched it, and its first status entry, if any, calls it untracked.
pub proof fn lemma_what_can_be_inspected(
    repository: RepositoryContextView,
    rel: Seq<char>,
    facts: FileFactsView,
)
    ensures
        ({
            let r = inspected(repository, rel, facts);
            let listed = exists|i: int| {
                &&& 0 <= i < facts.entries.len()
                &&& path::same_path((#[trigger] facts.entries[i]).path, rel)
                &&& !facts.entries[i].untracked
                &&& forall|j: int|
                    0 <= j < i ==> !path::same_path((#[trigger] facts.entries[j]).path, rel)
            };
            if facts.exists || facts.commits.len() > 0 || listed {
                r is Ok && r->Ok_0.is_tracked == (facts.commits.len() > 0 || listed)
            } else {
                r == Err::<InspectReportView, TrailErrorView>(TrailErrorView::FileNotFound(rel))
            }
        }),
{
    let pred = |e: StatusEntryView| path::same_path(e.path, rel);
    lemma_entry_of(facts.entries, rel);
    match entry_of(facts.entries, rel) {
        Some(e) => {
            let i = choose|i: int|
                crate::choice::first_at(facts.entries, pred, i) && facts.entries[i] == e;
            assert forall|j: int| 0 <= j < i implies !path::same_path(
                (#[trigger] facts.entries[j]).path,
                rel,
            ) by {
                assert(!pred(facts.entries[j]));
            }
            assert(path::same_path(facts.entries[i].path, rel));
            assert forall|k: int|
                0 <= k < facts.entries.len() && path::same_path(
                    (#[trigger] facts.entries[k]).path,
                    rel,
                ) && (forall|j: int|
                    0 <= j < k ==> !path::same_path((#[trigger] facts.entries[j]).path, rel))
                implies k == i by {
                if k < i {
                    assert(!pred(facts.entries[k]));
                } else if k > i {
                    assert(!path::same_path(facts.entries[i].path, rel));
                }
            }
        },
        None => {
            assert forall|j: int| 0 <= j < facts.entries.len() implies !path::same_path(
                (#[trigger] facts.entries[j]).path,
                rel,
            ) by {
                assert(!pred(facts.entries[j]));
            }
        },
    }
}

/// What an inspection says, each from its own source: the status from git's
/// list, the lines changed in the working tree from the comparison with HEAD,
/// those changed since the base from the comparison with the base, both from
/// the file itself when it is untracked; the commits as they were given, marked
/// when they are on the branch; and when the file was modified, if it is there.
pub proof fn lemma_inspections_read_each_source(
    repository: RepositoryContextView,
    rel: Seq<char>,
    facts: FileFactsView,
)
    requires
        inspected(repository, rel, facts) is Ok,
    ensures
        ({
            let r = inspected(repository, rel, facts)->Ok_0;
            let theirs = |s: FileStatView| path::same_path(s.path, rel);
            let untracked = r.status is Some && r.status->Some_0.untracked;
            &&& r.repository == repository
            &&& r.path == rel
            &&& r.exists == facts.exists
            &&& is_first(
                facts.entries,
                |e: StatusEntryView| path::same_path(e.path, rel),
                r.status,
            )
            &&& !untracked ==> is_first(facts.head_stats, theirs, r.worktree_stat)
            &&& !untracked ==> is_first(facts.base_stats, theirs, r.base_stat)
            &&& untracked ==> is_first(facts.untracked_stats, theirs, r.worktree_stat)
            &&& untracked ==> is_first(facts.untracked_stats, theirs, r.base_stat)
            &&& facts.exists ==> r.last_modified == facts.modified
            &&& !facts.exists ==> r.last_modified is None
            &&& r.commits.len() == facts.commits.len()
            &&& forall|i: int|
                0 <= i < r.commits.len() ==> (#[trigger] r.commits[i]).commit == facts.commits[i]
                    && (r.commits[i].on_branch <==> exists|k: int|
                    0 <= k < facts.on_branch.len() && #[trigger] facts.on_branch[k]
                        == facts.commits[i].id)
        }),
{
    lemma_entry_of(facts.entries, rel);
    lemma_first_stat(facts.head_stats, rel);
    lemma_first_stat(facts.base_stats, rel);
    lemma_first_stat(facts.untracked_stats, rel);
}

/// What changed since the base does not depend on what changed since HEAD, nor
/// the other way round.
pub proof fn lemma_inspected_stats_are_independent(
    repository: RepositoryContextView,
    rel: Seq<char>,
    a: FileFactsView,
    b: FileFactsView,
)
    requires
        inspected(repository, rel, a) is Ok,
        b == (FileFactsView { head_stats: b.head_stats, base_stats: b.base_stats, ..a }),
    ensures
        inspected(repository, rel, b) is Ok,
        a.base_stats == b.base_stats ==> inspected(repository, rel, a)->Ok_0.base_stat
            == inspected(repository, rel, b)->Ok_0.base_stat,
        a.head_stats == b.head_stats ==> inspected(repository, rel, a)->Ok_0.worktree_stat
            == inspected(repository, rel, b)->Ok_0.worktree_stat,
{
}

// ---------------------------------------------------------------------------
// Sums
/// No statistics sum up to nothing, one to what it says, binary files to
/// nothing, and two lists to the sum of their sums.
pub proof fn lemma_totals_add_up(a: Seq<FileStatView>, b: Seq<FileStatView>, s: FileStatView)
    requires
        summable(a + b),
    ensures
        total_of(Seq::empty()) == (LineStats { additions: 0, deletions: 0 }),
        s.additions is Some ==> total_of(seq![s]).additions == s.additions->Some_0,
        s.additions is None ==> total_of(seq![s]).additions == 0,
        s.deletions is Some ==> total_of(seq![s]).deletions == s.deletions->Some_0,
        s.deletions is None ==> total_of(seq![s]).deletions == 0,
        total_of(a + b).additions == total_of(a).additions + total_of(b).additions,
        total_of(a + b).deletions == total_of(a).deletions + total_of(b).deletions,
{
    reveal_with_fuel(sum_additions, 2);
    reveal_with_fuel(sum_deletions, 2);
    assert(seq![s].drop_last() =~= Seq::empty());
    crate::git::diff::lemma_sum_concat(a, b);
    crate::git::diff::lemma_sum_take(a, 0);
    crate::git::diff::lemma_sum_take(b, 0);
    assert(a.take(0) =~= Seq::empty());
    assert(b.take(0) =~= Seq::empty());
}

// ---------------------------------------------------------------------------
// Status
/// An entry adds one to the count of untracked files when it is untracked, and
/// to no other. Any other entry adds one to the count of its kind, one to the
/// staged ones if its change is staged, and one to the unstaged ones if a change
/// is not. Nothing is counted of nothing.
///
/// The kind of an entry is that in the working tree, or else that in the index;
/// but what was staged as added or renamed stays so.
pub proof fn lemma_every_entry_is_counted(entries: Seq<StatusEntryView>, e: StatusEntryView)
    requires
        entries.len() < usize::MAX,
    ensures
        counts_of(Seq::empty()) == (StatusCounts {
            modified: 0,
            added: 0,
            deleted: 0,
            renamed: 0,
            type_changed: 0,
            conflicted: 0,
            untracked: 0,
            staged: 0,
            unstaged: 0,
        }),
        ({
            let before = counts_of(entries);
            let after = counts_of(entries.push(e));
            let kind = if e.staged == Some(ChangeKind::Added) {
                ChangeKind::Added
            } else if e.staged == Some(ChangeKind::Renamed) {
                ChangeKind::Renamed
            } else if e.unstaged is Some {
                e.unstaged->Some_0
            } else if e.staged is Some {
                e.staged->Some_0
            } else {
                ChangeKind::Modified
            };
            if e.untracked {
                after == StatusCounts { untracked: (before.untracked + 1) as usize, ..before }
            } else {
                &&& after.untracked == before.untracked
                &&& after.staged == before.staged + (if e.staged is Some {
                    1int
                } else {
                    0int
                })
                &&& after.unstaged == before.unstaged + (if e.unstaged is Some {
                    1int
                } else {
                    0int
                })
                &&& after.modified == before.modified + (if kind == ChangeKind::Modified {
                    1int
                } else {
                    0int
                })
                &&& after.added == before.added + (if kind == ChangeKind::Added || kind
                    == ChangeKind::Copied {
                    1int
                } else {
                    0int
                })
                &&& after.deleted == before.deleted + (if kind == ChangeKind::Deleted {
                    1int
                } else {
                    0int
                })
                &&& after.renamed == before.renamed + (if kind == ChangeKind::Renamed {
                    1int
                } else {
                    0int
                })
                &&& after.type_changed == before.type_changed + (if kind
                    == ChangeKind::TypeChanged {
                    1int
                } else {
                    0int
                })
                &&& after.conflicted == before.conflicted + (if kind == ChangeKind::Conflicted {
                    1int
                } else {
                    0int
                })
            }
        }),
{
    assert(entries.push(e).drop_last() =~= entries);
    assert forall|pred: spec_fn(StatusEntryView) -> bool|
        #[trigger] tally(entries, pred) <= entries.len() by {
        lemma_tally_within(entries, pred);
    }
}

proof fn lemma_tally_within(entries: Seq<StatusEntryView>, pred: spec_fn(StatusEntryView) -> bool)
    ensures
        tally(entries, pred) <= entries.len(),
    decreases entries.len(),
{
    if entries.len() > 0 {
        lemma_tally_within(entries.drop_last(), pred);
    }
}

// ---------------------------------------------------------------------------
// Files by directory
proof fn lemma_files_in(stats: Seq<FileStatView>, dir: Seq<char>)
    ensures
        selects(
            stats,
            |s: FileStatView| directory_of(s.path) == dir,
            files_in(stats, dir),
        ),
    decreases stats.len(),
{
    let pred = |s: FileStatView| directory_of(s.path) == dir;
    if stats.len() == 0 {
        assert(stats =~= Seq::empty());
        lemma_selects_none(pred);
    } else {
        lemma_files_in(stats.drop_last(), dir);
        lemma_selects_last(stats, pred, files_in(stats.drop_last(), dir));
    }
}

proof fn lemma_groups_for(stats: Seq<FileStatView>, dirs: Seq<Seq<char>>)
    requires
        in_order::<String, ByText>(dirs),
    ensures
        ({
            let groups = groups_for(stats, dirs);
            &&& forall|g: int|
                0 <= g < groups.len() ==> #[trigger] groups[g] == group_of(
                    stats,
                    groups[g].directory,
                ) && dirs.contains(groups[g].directory)
            &&& forall|g: int, h: int|
                0 <= g < h < groups.len() ==> text::less(
                    (#[trigger] groups[g]).directory,
                    (#[trigger] groups[h]).directory,
                )
            &&& forall|d: int|
                0 <= d < dirs.len() ==> exists|g: int|
                    0 <= g < groups.len() && (#[trigger] groups[g]).directory == #[trigger] dirs[d]
            &&& dirs.len() > 0 ==> groups.len() > 0 && groups.last().directory == dirs.last()
        }),
    decreases dirs.len(),
{
    if dirs.len() > 0 {
        let rest = dirs.drop_last();
        let last = dirs.last();
        let n = dirs.len() - 1;
        assert forall|i: int| 0 <= i < n implies rest[i] == #[trigger] dirs[i] by {}
        assert(in_order::<String, ByText>(rest)) by {
            assert forall|i: int, j: int| 0 <= i < j < rest.len() implies !text::less(
                #[trigger] rest[j],
                #[trigger] rest[i],
            ) by {
                assert(rest[i] == dirs[i] && rest[j] == dirs[j]);
                assert(!<ByText as crate::order::Order<String>>::lt(dirs[j], dirs[i]));
            }
        }
        lemma_groups_for(stats, rest);
        let before = groups_for(stats, rest);
        let groups = groups_for(stats, dirs);
        assert(dirs[n] == last);
        assert forall|g: int| 0 <= g < before.len() implies dirs.contains(
            (#[trigger] before[g]).directory,
        ) by {
            let m = choose|m: int| 0 <= m < rest.len() && rest[m] == before[g].directory;
            assert(dirs[m] == before[g].directory);
        }
        if n > 0 && dirs[n - 1] == last {
            assert(rest.last() == last);
            assert forall|d: int| 0 <= d < dirs.len() implies exists|g: int|
                0 <= g < groups.len() && (#[trigger] groups[g]).directory == #[trigger] dirs[d] by {
                if d < n {
                    assert(rest[d] == dirs[d]);
                } else {
                    assert(rest[n - 1] == dirs[d]);
                }
            }
        } else {
            assert(groups == before.push(group_of(stats, last)));
            assert(groups[before.len() as int].directory == last);
            if n > 0 {
                assert(!<ByText as crate::order::Order<String>>::lt(dirs[n], dirs[n - 1]));
                text::lemma_less_total(dirs[n - 1], last);
                assert forall|g: int| 0 <= g < before.len() implies text::less(
                    (#[trigger] before[g]).directory,
                    last,
                ) by {
                    if g < before.len() - 1 {
                        assert(text::less(
                            before[g].directory,
                            before[before.len() - 1].directory,
                        ));
                        text::lemma_less_transitive(
                            before[g].directory,
                            before.last().directory,
                            last,
                        );
                    }
                }
            } else {
                assert(rest =~= Seq::empty());
            }
            assert forall|d: int| 0 <= d < dirs.len() implies exists|g: int|
                0 <= g < groups.len() && (#[trigger] groups[g]).directory == #[trigger] dirs[d] by {
                if d < n {
                    assert(rest[d] == dirs[d]);
                    let g = choose|g: int|
                        0 <= g < before.len() && (#[trigger] before[g]).directory == rest[d];
                    assert(groups[g].directory == dirs[d]);
                }
            }
        }
    }
}

/// The directory a file lives in, `.` for the root of the repository.
pub open spec fn home(p: Seq<char>) -> Seq<char> {
    match path::parent(p) {
        Some(dir) if dir.len() > 0 => dir,
        _ => "."@,
    }
}

/// A group holds the files of its directory, `theirs`, and the sum of their
/// lines.
pub open spec fn group_holds(
    stats: Seq<FileStatView>,
    group: DiffGroupView,
    theirs: Seq<FileStatView>,
) -> bool {
    &&& selects(stats, |s: FileStatView| home(s.path) == group.directory, theirs)
    &&& theirs.len() > 0
    &&& group.files.to_multiset() == theirs.to_multiset()
    &&& group.stats == total_of(theirs)
}

/// A group holds the files of its directory, all of them and no others.
pub open spec fn is_group(stats: Seq<FileStatView>, group: DiffGroupView) -> bool {
    exists|theirs: Seq<FileStatView>| group_holds(stats, group, theirs)
}

/// Files are grouped by the directory they live in, `.` for the root of the
/// repository: one group for each directory, by name; in it the files of that
/// directory, all of them and no others, by path, and the sum of their lines.
pub proof fn lemma_files_are_grouped_by_directory(stats: Seq<FileStatView>)
    ensures
        ({
            let groups = groups_of(stats);
            &&& forall|i: int|
                0 <= i < stats.len() ==> exists|g: int|
                    0 <= g < groups.len() && (#[trigger] groups[g]).directory == home(
                        (#[trigger] stats[i]).path,
                    )
            &&& forall|g: int, h: int|
                0 <= g < h < groups.len() ==> text::less(
                    (#[trigger] groups[g]).directory,
                    (#[trigger] groups[h]).directory,
                )
            &&& forall|g: int|
                0 <= g < groups.len() ==> is_group(stats, #[trigger] groups[g])
            &&& forall|g: int, i: int, j: int|
                0 <= g < groups.len() && 0 <= i < j < groups[g].files.len() ==> !path::less(
                    (#[trigger] groups[g].files[j]).path,
                    (#[trigger] groups[g].files[i]).path,
                )
        }),
{
    let names = stats.map_values(|s: FileStatView| directory_of(s.path));
    let dirs = directories(stats);
    let groups = groups_of(stats);
    lemma_sorted::<String, ByText>(names);
    lemma_groups_for(stats, dirs);
    assert forall|i: int| 0 <= i < stats.len() implies exists|g: int|
        0 <= g < groups.len() && (#[trigger] groups[g]).directory == home((#[trigger] stats[i]).path) by {
        assert(names[i] == home(stats[i].path));
        lemma_sorted_contains::<String, ByText>(names, names[i]);
        let d = choose|d: int| 0 <= d < dirs.len() && dirs[d] == names[i];
        assert(dirs[d] == names[i]);
    }
    assert forall|g: int| 0 <= g < groups.len() implies is_group(stats, #[trigger] groups[g]) by {
        let dir = groups[g].directory;
        let theirs = files_in(stats, dir);
        lemma_files_in(stats, dir);
        lemma_sorted::<FileStat, ByFile>(theirs);
        let a = |s: FileStatView| directory_of(s.path) == dir;
        let b = |s: FileStatView| home(s.path) == dir;
        assert forall|s: FileStatView| #[trigger] a(s) == b(s) by {}
        let places = choose|places: Seq<int>|
            crate::choice::selects_at(stats, a, theirs, places);
        assert(crate::choice::selects_at(stats, b, theirs, places));
        lemma_sorted_contains::<String, ByText>(names, dir);
        let i = choose|i: int| 0 <= i < names.len() && names[i] == dir;
        assert(a(stats[i]));
        crate::choice::lemma_selects_contains(stats, a, theirs);
        assert(theirs.contains(stats[i]));
        assert(group_holds(stats, groups[g], theirs));
    }
    assert forall|g: int, i: int, j: int|
        0 <= g < groups.len() && 0 <= i < j < groups[g].files.len() implies !path::less(
        (#[trigger] groups[g].files[j]).path,
        (#[trigger] groups[g].files[i]).path,
    ) by {
        let theirs = files_in(stats, groups[g].directory);
        lemma_sorted::<FileStat, ByFile>(theirs);
        assert(groups[g] == group_of(stats, groups[g].directory));
        let files = groups[g].files;
        assert(!<ByFile as crate::order::Order<FileStat>>::lt(files[j], files[i]));
    }
}

// ---------------------------------------------------------------------------
// Changes since a baseline
proof fn lemma_kind_in(files: Seq<CommitFileView>, p: Seq<char>)
    ensures
        match kind_in(files, p) {
            Some(kind) => exists|i: int| touched_at(files, p, i) && files[i].kind == kind,
            None => forall|i: int|
                0 <= i < files.len() ==> !path::same_path((#[trigger] files[i]).path, p),
        },
    decreases files.len(),
{
    if files.len() > 0 {
        if path::same_path(files.last().path, p) {
            assert(touched_at(files, p, files.len() - 1));
        } else {
            let rest = files.drop_last();
            lemma_kind_in(rest, p);
            assert forall|j: int| 0 <= j < rest.len() implies rest[j] == #[trigger] files[j] by {}
            match kind_in(rest, p) {
                Some(kind) => {
                    let i = choose|i: int| touched_at(rest, p, i) && rest[i].kind == kind;
                    assert forall|j: int| i < j < files.len() implies !path::same_path(
                        (#[trigger] files[j]).path,
                        p,
                    ) by {
                        if j < rest.len() {
                            assert(rest[j] == files[j]);
                        }
                    }
                    assert(touched_at(files, p, i));
                },
                None => {
                    assert forall|j: int| 0 <= j < files.len() implies !path::same_path(
                        (#[trigger] files[j]).path,
                        p,
                    ) by {
                        if j < rest.len() {
                            assert(rest[j] == files[j]);
                        }
                    }
                },
            }
        }
    }
}

/// The last entry that a commit has for a file is entry `i`.
pub open spec fn touched_at(files: Seq<CommitFileView>, p: Seq<char>, i: int) -> bool {
    &&& 0 <= i < files.len()
    &&& path::same_path(files[i].path, p)
    &&& forall|j: int| i < j < files.len() ==> !path::same_path((#[trigger] files[j]).path, p)
}

/// A commit did `kind` to a file.
pub open spec fn did(c: CommitInfoView, p: Seq<char>, kind: ChangeKind) -> bool {
    exists|i: int| #[trigger] touched_at(c.files, p, i) && c.files[i].kind == kind
}

/// A commit touched a file.
pub open spec fn touched(c: CommitInfoView, p: Seq<char>) -> bool {
    exists|i: int| 0 <= i < c.files.len() && path::same_path((#[trigger] c.files[i]).path, p)
}

proof fn lemma_did(c: CommitInfoView, p: Seq<char>)
    ensures
        touched(c, p) == (kind_in(c.files, p) is Some),
        forall|kind: ChangeKind| did(c, p, kind) == (kind_in(c.files, p) == Some(kind)),
{
    lemma_kind_in(c.files, p);
    assert forall|kind: ChangeKind| did(c, p, kind) == (kind_in(c.files, p) == Some(kind)) by {
        if did(c, p, kind) {
            let i = choose|i: int| #[trigger] touched_at(c.files, p, i) && c.files[i].kind == kind;
            assert(path::same_path(c.files[i].path, p));
            let found = kind_in(c.files, p)->Some_0;
            let k = choose|k: int| touched_at(c.files, p, k) && c.files[k].kind == found;
            if i < k {
                assert(!path::same_path(c.files[k].path, p));
            } else if k < i {
                assert(!path::same_path(c.files[i].path, p));
            }
        }
    }
    if kind_in(c.files, p) is Some {
        let kind = kind_in(c.files, p)->Some_0;
        let i = choose|i: int| touched_at(c.files, p, i) && c.files[i].kind == kind;
        assert(path::same_path(c.files[i].path, p));
    }
}

/// Commit `i` added a file, and no later one deleted it.
pub open spec fn added_at(commits: Seq<CommitInfoView>, p: Seq<char>, i: int) -> bool {
    &&& 0 <= i < commits.len()
    &&& did(commits[i], p, ChangeKind::Added)
    &&& forall|j: int| i < j < commits.len() ==> !did(#[trigger] commits[j], p, ChangeKind::Deleted)
}

/// Commit `i` is the last one that touched a file.
pub open spec fn touched_last(commits: Seq<CommitInfoView>, p: Seq<char>, i: int) -> bool {
    &&& 0 <= i < commits.len()
    &&& touched(commits[i], p)
    &&& forall|j: int| i < j < commits.len() ==> !touched(#[trigger] commits[j], p)
}

/// What some commits did to a file: they added it, if one of them did and no
/// later one deleted it; or else what the last of them that touched it did; and
/// nothing if none touched it.
pub proof fn lemma_what_commits_did(commits: Seq<CommitInfoView>, p: Seq<char>)
    ensures
        (exists|i: int| #[trigger] added_at(commits, p, i)) ==> committed_kind(commits, p) == Some(
            ChangeKind::Added,
        ),
        !(exists|i: int| #[trigger] added_at(commits, p, i)) ==> match committed_kind(commits, p) {
            Some(kind) => exists|i: int|
                #[trigger] touched_last(commits, p, i) && did(commits[i], p, kind),
            None => forall|i: int| 0 <= i < commits.len() ==> !touched(#[trigger] commits[i], p),
        },
    decreases commits.len(),
{
    if commits.len() > 0 {
        let rest = commits.drop_last();
        let last = commits.last();
        let n = commits.len() - 1;
        lemma_what_commits_did(rest, p);
        lemma_did(last, p);
        assert forall|j: int| 0 <= j < n implies rest[j] == #[trigger] commits[j] by {}
        assert(commits[n] == last);
        let gone = kind_in(last.files, p) == Some(ChangeKind::Deleted);
        if exists|i: int| #[trigger] added_at(rest, p, i) {
            let i = choose|i: int| #[trigger] added_at(rest, p, i);
            if !gone {
                assert forall|j: int| i < j < commits.len() implies !did(
                    #[trigger] commits[j],
                    p,
                    ChangeKind::Deleted,
                ) by {
                    if j < n {
                        assert(rest[j] == commits[j]);
                    }
                }
                assert(added_at(commits, p, i));
            } else {
                assert(did(commits[n], p, ChangeKind::Deleted));
                assert(touched_last(commits, p, n));
                assert forall|i: int| !(#[trigger] added_at(commits, p, i)) by {
                    if added_at(commits, p, i) && i == n {
                        assert(did(last, p, ChangeKind::Added));
                    }
                }
            }
        } else {
            if kind_in(last.files, p) == Some(ChangeKind::Added) {
                assert(added_at(commits, p, n));
            } else {
                assert forall|i: int| !(#[trigger] added_at(commits, p, i)) by {
                    if added_at(commits, p, i) {
                        if i < n {
                            assert(rest[i] == commits[i]);
                            assert forall|j: int| i < j < rest.len() implies !did(
                                #[trigger] rest[j],
                                p,
                                ChangeKind::Deleted,
                            ) by {
                                assert(rest[j] == commits[j]);
                            }
                            assert(added_at(rest, p, i));
                        } else {
                            assert(did(last, p, ChangeKind::Added));
                        }
                    }
                }
                if kind_in(last.files, p) is Some {
                    assert(touched_last(commits, p, n));
                    // Not added before, as nothing was added and kept.
                    assert(committed_kind(rest, p) == Some(ChangeKind::Added) ==> false) by {
                        if committed_kind(rest, p) == Some(ChangeKind::Added) {
                            let i = choose|i: int|
                                #[trigger] touched_last(rest, p, i) && did(
                                    rest[i],
                                    p,
                                    ChangeKind::Added,
                                );
                            assert forall|j: int| i < j < rest.len() implies !did(
                                #[trigger] rest[j],
                                p,
                                ChangeKind::Deleted,
                            ) by {
                                lemma_did(rest[j], p);
                                assert(!touched(rest[j], p));
                            }
                            assert(added_at(rest, p, i));
                        }
                    }
                } else {
                    match committed_kind(rest, p) {
                        Some(kind) => {
                            let i = choose|i: int|
                                #[trigger] touched_last(rest, p, i) && did(rest[i], p, kind);
                            assert forall|j: int| i < j < commits.len() implies !touched(
                                #[trigger] commits[j],
                                p,
                            ) by {
                                if j < n {
                                    assert(rest[j] == commits[j]);
                                }
                            }
                            assert(touched_last(commits, p, i));
                        },
                        None => {
                            assert forall|i: int| 0 <= i < commits.len() implies !touched(
                                #[trigger] commits[i],
                                p,
                            ) by {
                                if i < n {
                                    assert(rest[i] == commits[i]);
                                }
                            }
                        },
                    }
                }
            }
        }
    }
}

/// What happened to a file since a baseline: what its status says, unless that
/// is only that it was modified while the commits tell more; or else what the
/// commits did; or else that it was renamed, where it had another path, or
/// modified. Its lines are those given, its status is the first entry it has.
pub proof fn lemma_what_changed(
    stat: FileStatView,
    entries: Seq<StatusEntryView>,
    commits: Seq<CommitInfoView>,
)
    ensures
        ({
            let r = changed_file(stat, entries, commits);
            let made = committed_kind(commits, stat.path);
            let kind = match r.status {
                Some(e) => if e.effective() == ChangeKind::Modified && made is Some {
                    made->Some_0
                } else {
                    e.effective()
                },
                None => if made is Some {
                    made->Some_0
                } else if stat.old_path is Some {
                    ChangeKind::Renamed
                } else {
                    ChangeKind::Modified
                },
            };
            &&& r.stat == stat
            &&& is_first(
                entries,
                |e: StatusEntryView| path::same_path(e.path, stat.path),
                r.status,
            )
            &&& r.kind == checkpoint::ChangeKind::Created <==> kind == ChangeKind::Added || kind
                == ChangeKind::Copied
            &&& r.kind == checkpoint::ChangeKind::Deleted <==> kind == ChangeKind::Deleted
            &&& r.kind == checkpoint::ChangeKind::Renamed <==> kind == ChangeKind::Renamed
            &&& r.kind == checkpoint::ChangeKind::Modified <==> kind == ChangeKind::Modified
                || kind == ChangeKind::TypeChanged || kind == ChangeKind::Conflicted
        }),
{
    lemma_entry_of(entries, stat.path);
}

// ---------------------------------------------------------------------------
// Sessions
/// A session is listed with what its header says, how many checkpoints its log
/// folds into, and when something was last recorded.
pub proof fn lemma_sessions_are_listed_as_recorded(s: FoundSessionView)
    requires
        checkpoints_of(s.file.header.session_id, s.file.records).len() <= usize::MAX,
    ensures
        ({
            let r = session_summary(s);
            &&& r.session_id == s.file.header.session_id
            &&& r.worktree_id == s.file.header.worktree_id
            &&& r.worktree_path == s.file.header.worktree_path
            &&& r.branch == s.file.header.branch
            &&& r.started_at == s.file.header.started_at
            &&& r.ended_at == s.file.ended_at
            &&& r.events == s.file.events
            &&& r.path == s.file.path
            &&& r.worktree_exists == s.worktree_exists
            &&& r.snapshots == s.snapshots
            &&& r.checkpoints == checkpoints_of(s.file.header.session_id, s.file.records).len()
            &&& s.file.records.len() == 0 ==> r.last_activity == s.file.header.started_at
        }),
{
}

/// Of a trail that is cut short the latest events are left, as many as asked for
/// or as there are.
pub proof fn lemma_the_latest_events_are_left(events: Seq<TrailEventView>, n: nat)
    ensures
        ({
            let r = super::latest(events, n);
            &&& r.len() == (if events.len() < n {
                events.len()
            } else {
                n
            })
            &&& forall|i: int|
                0 <= i < r.len() ==> #[trigger] r[i] == events[events.len() - r.len() + i]
        }),
{
}

} // verus!
