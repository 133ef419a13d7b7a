//! Text of the reports beside the timeline: status, diff, one file, sessions,
//! changes and worktrees.

use super::terminal::{
    baseline_text, bold_text, count, counted, dim_text, file_counts_text, file_stat_text, number,
    since_text, SHORT_RULE, Style,
};
use crate::git::diff::{stats_text, FileStat, FileStatView, StatusEntry, StatusEntryView};
use crate::git::history::{CommitInfo, CommitInfoView};
use crate::git::worktree::WorktreeKind;
use crate::review::{name_of, name_text, state_text};
use crate::text;
use crate::time::{clock_text, date_text, wall, Timestamp, Zone};
use crate::trail::{
    ChangedFile, ChangedFileView, ChangesReport, ChangesReportView, DiffGroup, DiffGroupView,
    DiffReport, DiffReportView, InspectCommit, InspectCommitView, InspectReport, InspectReportView,
    SessionSummary, SessionSummaryView, SessionsReport, SessionsReportView, StatusReport,
    StatusReportView,
};
use crate::trail::worktrees::{
    WorktreeEntry, WorktreeEntryView, WorktreesReport, WorktreesReportView,
};
use vstd::prelude::*;

verus! {

// ---------------------------------------------------------------------------
// Status
/// A count on a line of its own; left out when it is zero and not `always`.
pub open spec fn count_line(label: Seq<char>, n: usize, always: bool) -> Seq<char> {
    if always || n > 0 {
        label + text::decimal(n as nat) + "\n"@
    } else {
        ""@
    }
}

fn write_count(label: &str, n: usize, always: bool) -> (r: String)
    ensures
        r@ == count_line(label@, n, always),
{
    if always || n > 0 {
        text::cat3(label, &number(n), "\n")
    } else {
        "".to_owned()
    }
}

pub open spec fn status_text(s: StatusReportView) -> Seq<char> {
    let ctx = s.repository;
    let c = s.counts;
    "\nBranch: "@ + ctx.head.label_text() + "\nBase: "@ + ctx.base + "\n"@ + (
    if ctx.worktree.kind == WorktreeKind::Linked {
        "Worktree: "@ + ctx.worktree.root + " (linked)\n"@
    } else {
        ""@
    }) + (if ctx.head.branch() is Some {
        count_line("Commits ahead of base: "@, s.commits_ahead, true)
    } else {
        ""@
    }) + "\n"@ + count_line("Modified: "@, c.modified, true) + count_line(
        "Added: "@,
        c.added,
        true,
    ) + count_line("Deleted: "@, c.deleted, true) + count_line("Renamed: "@, c.renamed, false)
        + count_line("Type changed: "@, c.type_changed, false) + count_line(
        "Conflicted: "@,
        c.conflicted,
        false,
    ) + count_line("Untracked: "@, c.untracked, true) + "\n"@ + count_line(
        "Staged: "@,
        c.staged,
        true,
    ) + count_line("Unstaged: "@, c.unstaged, true) + "\n"@ + stats_text(s.stats) + "\n"@
}

pub fn render_status(report: &StatusReport) -> (r: String)
    ensures
        r@ == status_text(report.deep_view()),
{
    let ctx = &report.repository;
    let c = &report.counts;
    let mut out: String = text::cat5(
        "\nBranch: ",
        &ctx.head.label(),
        "\nBase: ",
        &ctx.base,
        "\n",
    );
    let linked: String = if ctx.worktree.kind == WorktreeKind::Linked {
        text::cat3("Worktree: ", &ctx.worktree.root, " (linked)\n")
    } else {
        "".to_owned()
    };
    out.append(&linked);
    let ahead: String = if ctx.head.branch_name().is_some() {
        write_count("Commits ahead of base: ", report.commits_ahead, true)
    } else {
        "".to_owned()
    };
    out.append(&ahead);
    out.append("\n");
    out.append(&write_count("Modified: ", c.modified, true));
    out.append(&write_count("Added: ", c.added, true));
    out.append(&write_count("Deleted: ", c.deleted, true));
    out.append(&write_count("Renamed: ", c.renamed, false));
    out.append(&write_count("Type changed: ", c.type_changed, false));
    out.append(&write_count("Conflicted: ", c.conflicted, false));
    out.append(&write_count("Untracked: ", c.untracked, true));
    out.append("\n");
    out.append(&write_count("Staged: ", c.staged, true));
    out.append(&write_count("Unstaged: ", c.unstaged, true));
    out.append("\n");
    out.append(&report.stats.to_string());
    out.append("\n");
    out
}

// ---------------------------------------------------------------------------
// Diff
pub open spec fn diff_file_text(f: FileStatView) -> Seq<char> {
    name_text(f.path, f.old_path) + "\n  "@ + file_counts_text(f) + "\n\n"@
}

fn diff_file(f: &FileStat) -> (r: String)
    ensures
        r@ == diff_file_text(f.deep_view()),
{
    text::cat4(&name_of(&f.path, &f.old_path), "\n  ", &file_stat_text(f), "\n\n")
}

pub open spec fn diff_files_text(items: Seq<FileStatView>) -> Seq<char>
    decreases items.len(),
{
    if items.len() == 0 {
        Seq::empty()
    } else {
        diff_files_text(items.drop_last()) + diff_file_text(items.last())
    }
}

fn diff_files(items: &Vec<FileStat>) -> (r: String)
    ensures
        r@ == diff_files_text(items.deep_view()),
{
    let ghost all = items.deep_view();
    let mut out: String = String::new();
    let mut k: usize = 0;
    assert(out@ =~= diff_files_text(all.take(0)));
    while k < items.len()
        invariant
            k <= items.len(),
            all == items.deep_view(),
            out@ == diff_files_text(all.take(k as int)),
        decreases items.len() - k,
    {
        proof {
            assert(all.take(k + 1).drop_last() =~= all.take(k as int));
            assert(all.take(k + 1).last() == items[k as int].deep_view());
        }
        out.append(&diff_file(&items[k]));
        k += 1;
    }
    assert(all.take(k as int) =~= all);
    out
}

pub open spec fn group_text(g: DiffGroupView, style: Style) -> Seq<char> {
    bold_text(style, g.directory) + "\n"@ + SHORT_RULE@ + "\n\n"@ + diff_files_text(g.files)
}

fn diff_group(g: &DiffGroup, style: &Style) -> (r: String)
    ensures
        r@ == group_text(g.deep_view(), *style),
{
    text::cat5(&style.bold(&g.directory), "\n", SHORT_RULE, "\n\n", &diff_files(&g.files))
}

pub open spec fn groups_text(items: Seq<DiffGroupView>, style: Style) -> Seq<char>
    decreases items.len(),
{
    if items.len() == 0 {
        Seq::empty()
    } else {
        groups_text(items.drop_last(), style) + group_text(items.last(), style)
    }
}

fn diff_groups(items: &Vec<DiffGroup>, style: &Style) -> (r: String)
    ensures
        r@ == groups_text(items.deep_view(), *style),
{
    let ghost all = items.deep_view();
    let mut out: String = String::new();
    let mut k: usize = 0;
    assert(out@ =~= groups_text(all.take(0), *style));
    while k < items.len()
        invariant
            k <= items.len(),
            all == items.deep_view(),
            out@ == groups_text(all.take(k as int), *style),
        decreases items.len() - k,
    {
        proof {
            assert(all.take(k + 1).drop_last() =~= all.take(k as int));
            assert(all.take(k + 1).last() == items[k as int].deep_view());
        }
        out.append(&diff_group(&items[k], style));
        k += 1;
    }
    assert(all.take(k as int) =~= all);
    out
}

pub open spec fn diff_text(d: DiffReportView, style: Style) -> Seq<char> {
    let top = "\n"@ + dim_text(
        style,
        d.repository.head.label_text() + " vs "@ + d.repository.base + " (merge base "@
            + d.repository.merge_base + ")"@,
    ) + "\n\n"@;
    if d.groups.len() == 0 {
        top + "no differences from "@ + d.repository.base + "\n"@
    } else {
        top + groups_text(d.groups, style) + SHORT_RULE@ + "\n"@ + counted(
            d.files_changed as int,
            "file"@,
        ) + " changed, "@ + stats_text(d.stats) + "\n"@
    }
}

pub fn render_diff(report: &DiffReport, style: &Style) -> (r: String)
    ensures
        r@ == diff_text(report.deep_view(), *style),
{
    let repo = &report.repository;
    let mut out: String = text::cat3(
        "\n",
        &style.dim(
            &text::cat6(
                &repo.head.label(),
                " vs ",
                &repo.base,
                " (merge base ",
                &repo.merge_base,
                ")",
            ),
        ),
        "\n\n",
    );
    if report.groups.len() == 0 {
        out.append("no differences from ");
        out.append(&repo.base);
        out.append("\n");
        return out;
    }
    out.append(&diff_groups(&report.groups, style));
    out.append(SHORT_RULE);
    out.append("\n");
    out.append(&count(report.files_changed, "file"));
    out.append(" changed, ");
    out.append(&report.stats.to_string());
    out.append("\n");
    out
}

// ---------------------------------------------------------------------------
// One file
pub open spec fn staged_part(e: StatusEntryView) -> Seq<Seq<char>> {
    match e.staged {
        Some(k) => seq![k.label_text() + " (staged)"@],
        None => Seq::empty(),
    }
}

pub open spec fn unstaged_part(e: StatusEntryView) -> Seq<Seq<char>> {
    match e.unstaged {
        Some(k) => seq![k.label_text() + " (unstaged)"@],
        None => Seq::empty(),
    }
}

pub open spec fn from_part(e: StatusEntryView) -> Seq<Seq<char>> {
    match e.orig_path {
        Some(p) => seq!["from "@ + p],
        None => Seq::empty(),
    }
}

/// The status of a file in words.
pub open spec fn file_status_text(status: Option<StatusEntryView>, exists: bool) -> Seq<char> {
    match status {
        Some(e) => if e.untracked {
            "Untracked"@
        } else {
            text::join(staged_part(e) + unstaged_part(e) + from_part(e), ", "@)
        },
        None => if !exists {
            "Not in working tree"@
        } else {
            "Unchanged"@
        },
    }
}

fn file_status(status: &Option<StatusEntry>, exists: bool) -> (r: String)
    ensures
        r@ == file_status_text(status.deep_view(), exists),
{
    match status {
        Some(entry) => {
            if entry.untracked {
                return "Untracked".to_owned();
            }
            let ghost e = entry.deep_view();
            let mut parts: Vec<String> = Vec::new();
            match entry.staged {
                Some(k) => parts.push(text::cat2(k.label(), " (staged)")),
                None => {},
            }
            assert(parts.deep_view() =~= staged_part(e));
            match entry.unstaged {
                Some(k) => parts.push(text::cat2(k.label(), " (unstaged)")),
                None => {},
            }
            assert(parts.deep_view() =~= staged_part(e) + unstaged_part(e));
            match &entry.orig_path {
                Some(old) => parts.push(text::cat2("from ", old)),
                None => {},
            }
            assert(parts.deep_view() =~= staged_part(e) + unstaged_part(e) + from_part(e));
            text::join_of(&parts, ", ")
        },
        None => if !exists {
            "Not in working tree".to_owned()
        } else {
            "Unchanged".to_owned()
        },
    }
}

/// `YYYY-MM-DD HH:MM` in local time.
pub open spec fn moment_text(t: Timestamp, zone: Seq<(i64, i32)>) -> Seq<char> {
    date_text(wall(zone, t)) + " "@ + clock_text(wall(zone, t))
}

pub(crate) fn moment(t: &Timestamp, zone: &Zone) -> (r: String)
    ensures
        r@ == moment_text(*t, zone.deep_view()),
{
    let local = zone.local(t);
    text::cat3(&local.date(), " ", &local.clock())
}

/// One line on what a file differs from; another when it does not.
pub open spec fn difference_text(
    stat: Option<FileStatView>,
    from: Seq<char>,
    none: Seq<char>,
    style: Style,
) -> Seq<char> {
    match stat {
        Some(s) => "  "@ + file_counts_text(s) + "  "@ + dim_text(style, from) + "\n"@,
        None => "  "@ + dim_text(style, none) + "\n"@,
    }
}

fn difference(stat: &Option<FileStat>, from: &str, none: &str, style: &Style) -> (r: String)
    ensures
        r@ == difference_text(stat.deep_view(), from@, none@, *style),
{
    match stat {
        Some(s) => text::cat5("  ", &file_stat_text(s), "  ", &style.dim(from), "\n"),
        None => text::cat3("  ", &style.dim(none), "\n"),
    }
}

pub open spec fn related_text(c: InspectCommitView) -> Seq<char> {
    (if c.on_branch {
        "*"@
    } else {
        " "@
    }) + " "@ + c.commit.short_id + " "@ + c.commit.summary + "\n"@
}

fn related(c: &InspectCommit) -> (r: String)
    ensures
        r@ == related_text(c.deep_view()),
{
    let marker: &str = if c.on_branch {
        "*"
    } else {
        " "
    };
    text::cat6(marker, " ", &c.commit.short_id, " ", &c.commit.summary, "\n")
}

pub open spec fn related_all_text(items: Seq<InspectCommitView>) -> Seq<char>
    decreases items.len(),
{
    if items.len() == 0 {
        Seq::empty()
    } else {
        related_all_text(items.drop_last()) + related_text(items.last())
    }
}

fn related_all(items: &Vec<InspectCommit>) -> (r: String)
    ensures
        r@ == related_all_text(items.deep_view()),
{
    let ghost all = items.deep_view();
    let mut out: String = String::new();
    let mut k: usize = 0;
    assert(out@ =~= related_all_text(all.take(0)));
    while k < items.len()
        invariant
            k <= items.len(),
            all == items.deep_view(),
            out@ == related_all_text(all.take(k as int)),
        decreases items.len() - k,
    {
        proof {
            assert(all.take(k + 1).drop_last() =~= all.take(k as int));
            assert(all.take(k + 1).last() == items[k as int].deep_view());
        }
        out.append(&related(&items[k]));
        k += 1;
    }
    assert(all.take(k as int) =~= all);
    out
}

pub open spec fn some_on_branch(commits: Seq<InspectCommitView>) -> bool {
    exists|i: int| 0 <= i < commits.len() && (#[trigger] commits[i]).on_branch
}

fn any_on_branch(commits: &Vec<InspectCommit>) -> (r: bool)
    ensures
        r == some_on_branch(commits.deep_view()),
{
    let ghost all = commits.deep_view();
    let mut k: usize = 0;
    while k < commits.len()
        invariant
            k <= commits.len(),
            all == commits.deep_view(),
            forall|i: int| 0 <= i < k ==> !(#[trigger] all[i]).on_branch,
        decreases commits.len() - k,
    {
        assert(all[k as int].on_branch == commits[k as int].on_branch);
        if commits[k].on_branch {
            return true;
        }
        k += 1;
    }
    false
}

pub open spec fn inspect_text(i: InspectReportView, style: Style, zone: Seq<(i64, i32)>) -> Seq<
    char,
> {
    "\n"@ + bold_text(style, i.path) + "\n\n"@ + bold_text(style, "Status"@) + "\n  "@
        + file_status_text(i.status, i.exists) + "\n"@ + (match i.last_modified {
        Some(t) => "  "@ + dim_text(style, "last modified "@ + moment_text(t, zone)) + "\n"@,
        None => ""@,
    }) + "\n"@ + bold_text(style, "Diff"@) + "\n"@ + difference_text(
        i.worktree_stat,
        "vs HEAD"@,
        "no uncommitted changes"@,
        style,
    ) + difference_text(
        i.base_stat,
        "vs "@ + i.repository.base,
        "no changes vs "@ + i.repository.base,
        style,
    ) + "\n"@ + bold_text(style, "Related commits"@) + "\n"@ + (if i.commits.len() == 0 {
        "  "@ + dim_text(style, "none"@) + "\n"@
    } else {
        ""@
    }) + related_all_text(i.commits) + (if some_on_branch(i.commits) {
        "  "@ + dim_text(style, "* on this branch, not on base"@) + "\n"@
    } else {
        ""@
    })
}

pub fn render_inspect(report: &InspectReport, style: &Style, zone: &Zone) -> (r: String)
    ensures
        r@ == inspect_text(report.deep_view(), *style, zone.deep_view()),
{
    let base: &String = &report.repository.base;
    let mut out: String = text::cat7(
        "\n",
        &style.bold(&report.path),
        "\n\n",
        &style.bold("Status"),
        "\n  ",
        &file_status(&report.status, report.exists),
        "\n",
    );
    let modified: String = match &report.last_modified {
        Some(t) => text::cat3(
            "  ",
            &style.dim(&text::cat2("last modified ", &moment(t, zone))),
            "\n",
        ),
        None => "".to_owned(),
    };
    out.append(&modified);
    out.append("\n");
    out.append(&style.bold("Diff"));
    out.append("\n");
    out.append(&difference(&report.worktree_stat, "vs HEAD", "no uncommitted changes", style));
    out.append(
        &difference(
            &report.base_stat,
            &text::cat2("vs ", base),
            &text::cat2("no changes vs ", base),
            style,
        ),
    );
    out.append("\n");
    out.append(&style.bold("Related commits"));
    out.append("\n");
    let none: String = if report.commits.len() == 0 {
        text::cat3("  ", &style.dim("none"), "\n")
    } else {
        "".to_owned()
    };
    out.append(&none);
    out.append(&related_all(&report.commits));
    let legend: String = if any_on_branch(&report.commits) {
        text::cat3("  ", &style.dim("* on this branch, not on base"), "\n")
    } else {
        "".to_owned()
    };
    out.append(&legend);
    out
}

// ---------------------------------------------------------------------------
// Sessions
pub open spec fn session_text(s: SessionSummaryView, style: Style, zone: Seq<(i64, i32)>) -> Seq<
    char,
> {
    bold_text(style, s.session_id) + "\n  "@ + (match s.branch {
        Some(b) => b,
        None => "(detached)"@,
    }) + (if s.worktree_exists {
        ""@
    } else {
        dim_text(style, "  (worktree removed)"@)
    }) + "\n  "@ + moment_text(s.started_at, zone) + " - "@ + (match s.ended_at {
        Some(e) => clock_text(wall(zone, e)),
        None => clock_text(wall(zone, s.last_activity)) + " (open)"@,
    }) + "\n  "@ + counted(s.checkpoints as int, "checkpoint"@) + (if s.snapshots {
        ""@
    } else {
        "  (no snapshots)"@
    }) + "\n\n"@
}

fn session(s: &SessionSummary, style: &Style, zone: &Zone) -> (r: String)
    ensures
        r@ == session_text(s.deep_view(), *style, zone.deep_view()),
{
    let mut out: String = text::cat2(&style.bold(&s.session_id), "\n  ");
    match &s.branch {
        Some(b) => out.append(b),
        None => out.append("(detached)"),
    }
    let removed: String = if s.worktree_exists {
        "".to_owned()
    } else {
        style.dim("  (worktree removed)")
    };
    out.append(&removed);
    out.append("\n  ");
    out.append(&moment(&s.started_at, zone));
    out.append(" - ");
    let end: String = match &s.ended_at {
        Some(e) => zone.local(e).clock(),
        None => text::cat2(&zone.local(&s.last_activity).clock(), " (open)"),
    };
    out.append(&end);
    out.append("\n  ");
    out.append(&count(s.checkpoints, "checkpoint"));
    out.append(
        if s.snapshots {
            ""
        } else {
            "  (no snapshots)"
        },
    );
    out.append("\n\n");
    out
}

pub open spec fn session_list_text(items: Seq<SessionSummaryView>, style: Style, zone: Seq<(i64, i32)>) -> Seq<char>
    decreases items.len(),
{
    if items.len() == 0 {
        Seq::empty()
    } else {
        session_list_text(items.drop_last(), style, zone) + session_text(
            items.last(),
            style,
            zone,
        )
    }
}

fn session_list(items: &Vec<SessionSummary>, style: &Style, zone: &Zone) -> (r: String)
    ensures
        r@ == session_list_text(items.deep_view(), *style, zone.deep_view()),
{
    let ghost all = items.deep_view();
    let mut out: String = String::new();
    let mut k: usize = 0;
    assert(out@ =~= session_list_text(all.take(0), *style, zone.deep_view()));
    while k < items.len()
        invariant
            k <= items.len(),
            all == items.deep_view(),
            out@ == session_list_text(all.take(k as int), *style, zone.deep_view()),
        decreases items.len() - k,
    {
        proof {
            assert(all.take(k + 1).drop_last() =~= all.take(k as int));
            assert(all.take(k + 1).last() == items[k as int].deep_view());
        }
        out.append(&session(&items[k], style, zone));
        k += 1;
    }
    assert(all.take(k as int) =~= all);
    out
}

pub open spec fn sessions_text(r: SessionsReportView, style: Style, zone: Seq<(i64, i32)>) -> Seq<
    char,
> {
    "\n"@ + bold_text(style, "Development Sessions"@) + "\n\n"@ + (if r.sessions.len() == 0 {
        "  "@ + dim_text(style, "no recorded sessions (run `trail start`)"@) + "\n"@
    } else {
        session_list_text(r.sessions, style, zone)
    })
}

pub fn render_sessions(report: &SessionsReport, style: &Style, zone: &Zone) -> (r: String)
    ensures
        r@ == sessions_text(report.deep_view(), *style, zone.deep_view()),
{
    let mut out: String = text::cat3("\n", &style.bold("Development Sessions"), "\n\n");
    let list: String = if report.sessions.len() == 0 {
        text::cat3("  ", &style.dim("no recorded sessions (run `trail start`)"), "\n")
    } else {
        session_list(&report.sessions, style, zone)
    };
    out.append(&list);
    out
}

// ---------------------------------------------------------------------------
// Changes
pub open spec fn commit_lines(items: Seq<CommitInfoView>) -> Seq<char>
    decreases items.len(),
{
    if items.len() == 0 {
        Seq::empty()
    } else {
        commit_lines(items.drop_last()) + "  "@ + items.last().short_id + " "@
            + items.last().summary + "\n"@
    }
}

fn list_commits(items: &Vec<CommitInfo>) -> (r: String)
    ensures
        r@ == commit_lines(items.deep_view()),
{
    let ghost all = items.deep_view();
    let mut out: String = String::new();
    let mut k: usize = 0;
    assert(out@ =~= commit_lines(all.take(0)));
    while k < items.len()
        invariant
            k <= items.len(),
            all == items.deep_view(),
            out@ == commit_lines(all.take(k as int)),
        decreases items.len() - k,
    {
        proof {
            assert(all.take(k + 1).drop_last() =~= all.take(k as int));
            assert(all.take(k + 1).last() == items[k as int].deep_view());
        }
        let ghost was = out@;
        out.append(&text::cat5("  ", &items[k].short_id, " ", &items[k].summary, "\n"));
        assert(out@ =~= commit_lines(all.take(k + 1)));
        k += 1;
    }
    assert(all.take(k as int) =~= all);
    out
}

/// Where a changed file stands.
pub open spec fn standing_text(status: Option<StatusEntryView>) -> Seq<char> {
    match status {
        Some(s) => state_text(s.untracked, s.staged is Some, s.unstaged is Some),
        None => "committed"@,
    }
}

fn standing(status: &Option<StatusEntry>) -> (r: &'static str)
    ensures
        r@ == standing_text(status.deep_view()),
{
    match status {
        Some(s) => if s.untracked {
            "untracked"
        } else if s.staged.is_some() && s.unstaged.is_some() {
            "staged, unstaged"
        } else if s.staged.is_some() {
            "staged"
        } else {
            "unstaged"
        },
        None => "committed",
    }
}

pub open spec fn changed_text(f: ChangedFileView, style: Style) -> Seq<char> {
    "  "@ + f.kind.mark_text() + " "@ + name_text(f.stat.path, f.stat.old_path) + "\n      "@
        + file_counts_text(f.stat) + "  "@ + dim_text(style, standing_text(f.status)) + "\n"@
}

fn changed(f: &ChangedFile, style: &Style) -> (r: String)
    ensures
        r@ == changed_text(f.deep_view(), *style),
{
    let mut out: String = text::cat4(
        "  ",
        f.kind.mark(),
        " ",
        &name_of(&f.stat.path, &f.stat.old_path),
    );
    out.append("\n      ");
    out.append(&file_stat_text(&f.stat));
    out.append("  ");
    out.append(&style.dim(standing(&f.status)));
    out.append("\n");
    out
}

pub open spec fn changed_all_text(items: Seq<ChangedFileView>, style: Style) -> Seq<char>
    decreases items.len(),
{
    if items.len() == 0 {
        Seq::empty()
    } else {
        changed_all_text(items.drop_last(), style) + changed_text(items.last(), style)
    }
}

fn changed_all(items: &Vec<ChangedFile>, style: &Style) -> (r: String)
    ensures
        r@ == changed_all_text(items.deep_view(), *style),
{
    let ghost all = items.deep_view();
    let mut out: String = String::new();
    let mut k: usize = 0;
    assert(out@ =~= changed_all_text(all.take(0), *style));
    while k < items.len()
        invariant
            k <= items.len(),
            all == items.deep_view(),
            out@ == changed_all_text(all.take(k as int), *style),
        decreases items.len() - k,
    {
        proof {
            assert(all.take(k + 1).drop_last() =~= all.take(k as int));
            assert(all.take(k + 1).last() == items[k as int].deep_view());
        }
        out.append(&changed(&items[k], style));
        k += 1;
    }
    assert(all.take(k as int) =~= all);
    out
}

/// "(staged 0, unstaged 1, untracked 1)".
pub open spec fn tallies_text(staged: usize, unstaged: usize, untracked: usize) -> Seq<char> {
    "(staged "@ + text::decimal(staged as nat) + ", unstaged "@ + text::decimal(unstaged as nat)
        + ", untracked "@ + text::decimal(untracked as nat) + ")"@
}

pub(crate) fn tallies(staged: usize, unstaged: usize, untracked: usize) -> (r: String)
    ensures
        r@ == tallies_text(staged, unstaged, untracked),
{
    text::cat7(
        "(staged ",
        &number(staged),
        ", unstaged ",
        &number(unstaged),
        ", untracked ",
        &number(untracked),
        ")",
    )
}

pub open spec fn none_line(empty: bool, style: Style) -> Seq<char> {
    if empty {
        "  "@ + dim_text(style, "none"@) + "\n"@
    } else {
        ""@
    }
}

fn none_if(empty: bool, style: &Style) -> (r: String)
    ensures
        r@ == none_line(empty, *style),
{
    if empty {
        text::cat3("  ", &style.dim("none"), "\n")
    } else {
        "".to_owned()
    }
}

pub open spec fn changes_text(r: ChangesReportView, style: Style) -> Seq<char> {
    let ctx = r.repository;
    "\n"@ + bold_text(style, "Changes since "@ + since_text(ctx.since)) + "\n"@ + dim_text(
        style,
        ctx.name + " on "@ + ctx.head.label_text(),
    ) + "\n"@ + SHORT_RULE@ + "\n\n"@ + bold_text(style, "Commits"@) + "\n"@ + none_line(
        r.commits.len() == 0,
        style,
    ) + commit_lines(r.commits) + "\n"@ + bold_text(style, "Files"@) + "\n"@ + none_line(
        r.files.len() == 0,
        style,
    ) + changed_all_text(r.files, style) + "\n"@ + SHORT_RULE@ + "\n"@ + counted(
        r.commits.len() as int,
        "commit"@,
    ) + ", "@ + counted(r.checkpoints as int, "checkpoint"@) + "\n"@ + counted(
        r.files.len() as int,
        "file"@,
    ) + " changed, "@ + stats_text(r.stats) + "  "@ + dim_text(
        style,
        tallies_text(r.counts.staged, r.counts.unstaged, r.counts.untracked),
    ) + "\n"@
}

pub fn render_changes(report: &ChangesReport, style: &Style) -> (r: String)
    ensures
        r@ == changes_text(report.deep_view(), *style),
{
    let ctx = &report.repository;
    let c = &report.counts;
    let mut out: String = text::cat4(
        "\n",
        &style.bold(&text::cat2("Changes since ", &baseline_text(&ctx.since))),
        "\n",
        &style.dim(&text::cat3(&ctx.name, " on ", &ctx.head.label())),
    );
    out.append("\n");
    out.append(SHORT_RULE);
    out.append("\n\n");
    out.append(&style.bold("Commits"));
    out.append("\n");
    out.append(&none_if(report.commits.len() == 0, style));
    out.append(&list_commits(&report.commits));
    out.append("\n");
    out.append(&style.bold("Files"));
    out.append("\n");
    out.append(&none_if(report.files.len() == 0, style));
    out.append(&changed_all(&report.files, style));
    out.append("\n");
    out.append(SHORT_RULE);
    out.append("\n");
    out.append(&count(report.commits.len(), "commit"));
    out.append(", ");
    out.append(&count(report.checkpoints, "checkpoint"));
    out.append("\n");
    out.append(&count(report.files.len(), "file"));
    out.append(" changed, ");
    out.append(&report.stats.to_string());
    out.append("  ");
    out.append(&style.dim(&tallies(c.staged, c.unstaged, c.untracked)));
    out.append("\n");
    out
}

// ---------------------------------------------------------------------------
// Worktrees
/// "(current, removed)", whichever of them holds.
pub open spec fn worktree_tag(w: WorktreeEntryView, style: Style) -> Seq<char> {
    if w.current && !w.exists {
        dim_text(style, "  (current, removed)"@)
    } else if w.current {
        dim_text(style, "  (current)"@)
    } else if !w.exists {
        dim_text(style, "  (removed)"@)
    } else {
        ""@
    }
}

pub open spec fn worktree_text(w: WorktreeEntryView, style: Style) -> Seq<char> {
    bold_text(style, w.id) + worktree_tag(w, style) + "\n  path: "@ + w.path + "\n  branch: "@ + (
    match w.branch {
        Some(b) => b,
        None => "(detached)"@,
    }) + "\n"@ + (match w.commits {
        Some(n) => "  "@ + counted(n as int, "commit"@) + "\n"@,
        None => if w.head is None {
            "  "@ + dim_text(style, "last commit unknown"@) + "\n"@
        } else {
            ""@
        },
    }) + "  "@ + counted(w.checkpoints as int, "checkpoint"@) + "\n\n"@
}

fn worktree(w: &WorktreeEntry, style: &Style) -> (r: String)
    ensures
        r@ == worktree_text(w.deep_view(), *style),
{
    let tag: String = if w.current && !w.exists {
        style.dim("  (current, removed)")
    } else if w.current {
        style.dim("  (current)")
    } else if !w.exists {
        style.dim("  (removed)")
    } else {
        "".to_owned()
    };
    let mut out: String = text::cat5(&style.bold(&w.id), &tag, "\n  path: ", &w.path, "\n  branch: ");
    match &w.branch {
        Some(b) => out.append(b),
        None => out.append("(detached)"),
    }
    out.append("\n");
    let commits: String = match w.commits {
        Some(n) => text::cat3("  ", &count(n, "commit"), "\n"),
        None => if w.head.is_none() {
            text::cat3("  ", &style.dim("last commit unknown"), "\n")
        } else {
            "".to_owned()
        },
    };
    out.append(&commits);
    out.append("  ");
    out.append(&count(w.checkpoints, "checkpoint"));
    out.append("\n\n");
    out
}

pub open spec fn worktree_list_text(items: Seq<WorktreeEntryView>, style: Style) -> Seq<char>
    decreases items.len(),
{
    if items.len() == 0 {
        Seq::empty()
    } else {
        worktree_list_text(items.drop_last(), style) + worktree_text(items.last(), style)
    }
}

fn worktree_list(items: &Vec<WorktreeEntry>, style: &Style) -> (r: String)
    ensures
        r@ == worktree_list_text(items.deep_view(), *style),
{
    let ghost all = items.deep_view();
    let mut out: String = String::new();
    let mut k: usize = 0;
    assert(out@ =~= worktree_list_text(all.take(0), *style));
    while k < items.len()
        invariant
            k <= items.len(),
            all == items.deep_view(),
            out@ == worktree_list_text(all.take(k as int), *style),
        decreases items.len() - k,
    {
        proof {
            assert(all.take(k + 1).drop_last() =~= all.take(k as int));
            assert(all.take(k + 1).last() == items[k as int].deep_view());
        }
        out.append(&worktree(&items[k], style));
        k += 1;
    }
    assert(all.take(k as int) =~= all);
    out
}

pub open spec fn worktrees_text(r: WorktreesReportView, style: Style) -> Seq<char> {
    "\n"@ + bold_text(style, "Worktrees"@) + "\n"@ + dim_text(style, r.repository) + "\n\n"@
        + worktree_list_text(r.worktrees, style)
}

pub fn render_worktrees(report: &WorktreesReport, style: &Style) -> (r: String)
    ensures
        r@ == worktrees_text(report.deep_view(), *style),
{
    text::cat6(
        "\n",
        &style.bold("Worktrees"),
        "\n",
        &style.dim(&report.repository),
        "\n\n",
        &worktree_list(&report.worktrees, style),
    )
}

} // verus!
