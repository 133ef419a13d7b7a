//! Text of a review.

use super::reports::{moment, moment_text, tallies, tallies_text};
use super::terminal::{
    baseline_text, bold_text, count, counted, dim_text, number, since_text, RULE, Style,
};
use crate::git::diff::stats_text;
use crate::review::{
    CommitFile, CommitFileView, CommitReview, CommitReviewView, FileRow, FileRowView,
    ReviewCheckpoint, ReviewCheckpointView, ReviewFile, ReviewFileView, ReviewSection,
    ReviewSectionView, ReviewSummary, WorkingTreeFile, WorkingTreeFileView, WorkingTreeReview,
    WorkingTreeReviewView, WorktreeReview, WorktreeReviewView,
};
use crate::review::select::{FileDiffReport, FileDiffReportView};
use crate::text;
use crate::time::{clock_text, wall, Zone};
use crate::trail::event::Attachment;
use vstd::prelude::*;

verus! {

/// One line of a file list.
pub open spec fn row_text(r: FileRowView, style: Style) -> Seq<char> {
    r.mark + " "@ + r.name + "  "@ + r.stat + (match r.state {
        Some(s) => "  "@ + dim_text(style, s),
        None => ""@,
    })
}

fn file_row_line(row: &FileRow, style: &Style) -> (r: String)
    ensures
        r@ == row_text(row.deep_view(), *style),
{
    let state: String = match &row.state {
        Some(s) => text::cat2("  ", &style.dim(s)),
        None => "".to_owned(),
    };
    text::cat6(&row.mark, " ", &row.name, "  ", &row.stat, &state)
}

/// A checkpoint in a list: its label, its title, its line counts, and a mark
/// when its commit was inferred.
pub open spec fn checkpoint_text(c: ReviewCheckpointView, style: Style) -> Seq<char> {
    "["@ + c.label + "] "@ + c.shown_title() + "  "@ + dim_text(style, stats_text(c.stats)) + (
    if c.attachment == Some(Attachment::Inferred) {
        dim_text(style, "  [inferred]"@)
    } else {
        ""@
    })
}

fn checkpoint_line(cp: &ReviewCheckpoint, style: &Style) -> (r: String)
    ensures
        r@ == checkpoint_text(cp.deep_view(), *style),
{
    let inferred: bool = match cp.attachment {
        Some(Attachment::Inferred) => true,
        _ => false,
    };
    let mark: String = if inferred {
        style.dim("  [inferred]")
    } else {
        "".to_owned()
    };
    text::cat7(
        "[",
        &cp.label,
        "] ",
        &cp.display_title(),
        "  ",
        &style.dim(&cp.stats.to_string()),
        &mark,
    )
}

/// What a checkpoint's own view says below its line.
pub open spec fn checkpoint_meta_text(
    c: ReviewCheckpointView,
    style: Style,
    zone: Seq<(i64, i32)>,
) -> Seq<char> {
    "      "@ + clock_text(wall(zone, c.started_at)) + " - "@ + clock_text(wall(zone, c.ended_at))
        + "  "@ + dim_text(style, c.id) + "\n"@ + "      "@ + counted(
        c.files.len() as int,
        "file"@,
    ) + "  "@ + stats_text(c.stats) + (if c.bulk {
        " (bulk)"@
    } else {
        ""@
    }) + "\n"@ + (match c.annotation {
        Some(note) => "      "@ + dim_text(style, note) + "\n"@,
        None => ""@,
    })
}

fn checkpoint_meta(cp: &ReviewCheckpoint, style: &Style, zone: &Zone) -> (r: String)
    ensures
        r@ == checkpoint_meta_text(cp.deep_view(), *style, zone.deep_view()),
{
    let mut out: String = text::cat7(
        "      ",
        &zone.local(&cp.started_at).clock(),
        " - ",
        &zone.local(&cp.ended_at).clock(),
        "  ",
        &style.dim(&cp.id),
        "\n",
    );
    out.append("      ");
    out.append(&count(cp.files.len(), "file"));
    out.append("  ");
    out.append(&cp.stats.to_string());
    out.append(
        if cp.bulk {
            " (bulk)"
        } else {
            ""
        },
    );
    out.append("\n");
    let note: String = match &cp.annotation {
        Some(note) => text::cat3("      ", &style.dim(note), "\n"),
        None => "".to_owned(),
    };
    out.append(&note);
    out
}

pub open spec fn merge_note(is_merge: bool) -> Seq<char> {
    if is_merge {
        "  merge (diff vs first parent)"@
    } else {
        ""@
    }
}

/// Who made a commit and when.
pub open spec fn authored_text(
    c: CommitReviewView,
    style: Style,
    zone: Seq<(i64, i32)>,
) -> Seq<char> {
    "    "@ + dim_text(
        style,
        c.author + "  "@ + moment_text(c.time, zone) + merge_note(c.is_merge),
    ) + "\n"@
}

fn authored(c: &CommitReview, style: &Style, zone: &Zone) -> (r: String)
    ensures
        r@ == authored_text(c.deep_view(), *style, zone.deep_view()),
{
    let note: &str = if c.is_merge {
        "  merge (diff vs first parent)"
    } else {
        ""
    };
    text::cat3(
        "    ",
        &style.dim(&text::cat4(&c.author, "  ", &moment(&c.time, zone), note)),
        "\n",
    )
}

pub open spec fn removed_line(available: bool, style: Style) -> Seq<char> {
    if available {
        ""@
    } else {
        "    "@ + dim_text(style, "worktree removed: no working tree state"@) + "\n"@
    }
}

fn removed(available: bool, style: &Style) -> (r: String)
    ensures
        r@ == removed_line(available, *style),
{
    if available {
        "".to_owned()
    } else {
        text::cat3("    ", &style.dim("worktree removed: no working tree state"), "\n")
    }
}

/// "2 checkpoints  5 files".
pub open spec fn extent_text(checkpoints: int, files: int) -> Seq<char> {
    counted(checkpoints, "checkpoint"@) + "  "@ + counted(files, "file"@)
}

fn extent(checkpoints: usize, files: usize) -> (r: String)
    ensures
        r@ == extent_text(checkpoints as int, files as int),
{
    text::cat3(&count(checkpoints, "checkpoint"), "  ", &count(files, "file"))
}

/// "2 checkpoints  5 files  +184 -31", plus the working tree state.
pub open spec fn section_meta_text(
    s: ReviewSectionView,
    style: Style,
    zone: Seq<(i64, i32)>,
) -> Seq<char> {
    match s {
        ReviewSectionView::Commit(c) => authored_text(c, style, zone) + "    "@ + extent_text(
            c.checkpoints.len() as int,
            c.files.len() as int,
        ) + "  "@ + stats_text(c.stats) + "\n"@,
        ReviewSectionView::WorkingTree(w) => removed_line(w.available, style) + "    "@
            + extent_text(w.checkpoints.len() as int, w.files.len() as int) + "  "@ + stats_text(
            w.stats,
        ) + "  "@ + dim_text(style, tallies_text(w.staged, w.unstaged, w.untracked)) + "\n"@,
    }
}

fn section_meta(section: &ReviewSection, style: &Style, zone: &Zone) -> (r: String)
    ensures
        r@ == section_meta_text(section.deep_view(), *style, zone.deep_view()),
{
    match section {
        ReviewSection::Commit(c) => text::cat6(
            &authored(c, style, zone),
            "    ",
            &extent(c.checkpoints.len(), c.files.len()),
            "  ",
            &c.stats.to_string(),
            "\n",
        ),
        ReviewSection::WorkingTree(w) => {
            let mut out: String = text::cat5(
                &removed(w.available, style),
                "    ",
                &extent(w.checkpoints.len(), w.files.len()),
                "  ",
                &w.stats.to_string(),
            );
            out.append("  ");
            out.append(&style.dim(&tallies(w.staged, w.unstaged, w.untracked)));
            out.append("\n");
            out
        },
    }
}

pub open spec fn step_lines(items: Seq<ReviewCheckpointView>, style: Style) -> Seq<char>
    decreases items.len(),
{
    if items.len() == 0 {
        Seq::empty()
    } else {
        step_lines(items.drop_last(), style) + step_line(items.last(), style)
    }
}

pub open spec fn step_line(c: ReviewCheckpointView, style: Style) -> Seq<char> {
    "    "@ + checkpoint_text(c, style) + "\n"@
}

fn step(cp: &ReviewCheckpoint, style: &Style) -> (r: String)
    ensures
        r@ == step_line(cp.deep_view(), *style),
{
    text::cat3("    ", &checkpoint_line(cp, style), "\n")
}

fn steps(items: &Vec<ReviewCheckpoint>, style: &Style) -> (r: String)
    ensures
        r@ == step_lines(items.deep_view(), *style),
{
    let ghost all = items.deep_view();
    let mut out: String = String::new();
    let mut k: usize = 0;
    assert(out@ =~= step_lines(all.take(0), *style));
    while k < items.len()
        invariant
            k <= items.len(),
            all == items.deep_view(),
            out@ == step_lines(all.take(k as int), *style),
        decreases items.len() - k,
    {
        proof {
            assert(all.take(k + 1).drop_last() =~= all.take(k as int));
            assert(all.take(k + 1).last() == items[k as int].deep_view());
        }
        out.append(&step(&items[k], style));
        k += 1;
    }
    assert(all.take(k as int) =~= all);
    out
}

pub open spec fn no_steps_line(empty: bool, style: Style) -> Seq<char> {
    if empty {
        "    "@ + dim_text(style, "no recorded checkpoints"@) + "\n"@
    } else {
        ""@
    }
}

fn no_steps(empty: bool, style: &Style) -> (r: String)
    ensures
        r@ == no_steps_line(empty, *style),
{
    if empty {
        text::cat3("    ", &style.dim("no recorded checkpoints"), "\n")
    } else {
        "".to_owned()
    }
}

/// One section of a review: its heading, its extent and its checkpoints.
pub open spec fn section_text(
    s: ReviewSectionView,
    style: Style,
    zone: Seq<(i64, i32)>,
) -> Seq<char> {
    "["@ + text::decimal(s.at() as nat) + "] "@ + bold_text(style, s.title()) + "\n"@
        + section_meta_text(s, style, zone) + "\n"@ + no_steps_line(
        s.steps().len() == 0,
        style,
    ) + step_lines(s.steps(), style) + "\n"@
}

fn section_block(section: &ReviewSection, style: &Style, zone: &Zone) -> (r: String)
    ensures
        r@ == section_text(section.deep_view(), *style, zone.deep_view()),
{
    let mut out: String = text::cat6(
        "[",
        &number(section.number()),
        "] ",
        &style.bold(&section.heading()),
        "\n",
        &section_meta(section, style, zone),
    );
    let cps: &Vec<ReviewCheckpoint> = section.checkpoints();
    assert(cps.deep_view().len() == cps.len());
    out.append("\n");
    out.append(&no_steps(cps.len() == 0, style));
    out.append(&steps(cps, style));
    out.append("\n");
    out
}

pub open spec fn section_list_text(items: Seq<ReviewSectionView>, style: Style, zone: Seq<(i64, i32)>) -> Seq<char>
    decreases items.len(),
{
    if items.len() == 0 {
        Seq::empty()
    } else {
        section_list_text(items.drop_last(), style, zone) + section_text(
            items.last(),
            style,
            zone,
        )
    }
}

fn section_list(items: &Vec<ReviewSection>, style: &Style, zone: &Zone) -> (r: String)
    ensures
        r@ == section_list_text(items.deep_view(), *style, zone.deep_view()),
{
    let ghost all = items.deep_view();
    let mut out: String = String::new();
    let mut k: usize = 0;
    assert(out@ =~= section_list_text(all.take(0), *style, zone.deep_view()));
    while k < items.len()
        invariant
            k <= items.len(),
            all == items.deep_view(),
            out@ == section_list_text(all.take(k as int), *style, zone.deep_view()),
        decreases items.len() - k,
    {
        proof {
            assert(all.take(k + 1).drop_last() =~= all.take(k as int));
            assert(all.take(k + 1).last() == items[k as int].deep_view());
        }
        out.append(&section_block(&items[k], style, zone));
        k += 1;
    }
    assert(all.take(k as int) =~= all);
    out
}

pub open spec fn review_summary_text(s: ReviewSummary) -> Seq<char> {
    counted(s.commits as int, "commit"@) + ", "@ + counted(s.checkpoints as int, "checkpoint"@)
        + " ("@ + text::decimal(s.uncommitted_checkpoints as nat) + " uncommitted), "@ + counted(
        s.files_changed as int,
        "file"@,
    ) + ", "@ + stats_text(s.stats) + "\n"@
}

fn review_summary(s: &ReviewSummary) -> (r: String)
    ensures
        r@ == review_summary_text(*s),
{
    let mut out: String = text::cat6(
        &count(s.commits, "commit"),
        ", ",
        &count(s.checkpoints, "checkpoint"),
        " (",
        &number(s.uncommitted_checkpoints),
        " uncommitted), ",
    );
    out.append(&count(s.files_changed, "file"));
    out.append(", ");
    out.append(&s.stats.to_string());
    out.append("\n");
    out
}

pub open spec fn review_text(r: WorktreeReviewView, style: Style, zone: Seq<(i64, i32)>) -> Seq<
    char,
> {
    let ctx = r.repository;
    "\n"@ + bold_text(style, "Review"@) + "\n"@ + ctx.head.label_text() + (if r.worktree.exists {
        ""@
    } else {
        "  "@ + dim_text(style, "(worktree removed)"@)
    }) + "\n"@ + (if r.worktree.current {
        ""@
    } else {
        dim_text(style, "worktree "@ + r.worktree.id + "  "@ + r.worktree.path) + "\n"@
    }) + "since "@ + since_text(ctx.since) + "\n\n"@ + RULE@ + "\n\n"@ + section_list_text(
        r.sections,
        style,
        zone,
    ) + RULE@ + "\n"@ + review_summary_text(r.summary) + dim_text(
        style,
        "trail review <n>  |  trail review <n>.<m>  |  trail review <sel> <file> [--open]  |  trail review --commit <rev>"@,
    ) + "\n"@
}

pub fn render_review(review: &WorktreeReview, style: &Style, zone: &Zone) -> (r: String)
    ensures
        r@ == review_text(review.deep_view(), *style, zone.deep_view()),
{
    let ctx = &review.repository;
    let mut out: String = text::cat4("\n", &style.bold("Review"), "\n", &ctx.head.label());
    let gone: String = if review.worktree.exists {
        "".to_owned()
    } else {
        text::cat2("  ", &style.dim("(worktree removed)"))
    };
    out.append(&gone);
    out.append("\n");
    let other: String = if review.worktree.current {
        "".to_owned()
    } else {
        text::cat2(
            &style.dim(
                &text::cat4("worktree ", &review.worktree.id, "  ", &review.worktree.path),
            ),
            "\n",
        )
    };
    out.append(&other);
    out.append("since ");
    out.append(&baseline_text(&ctx.since));
    out.append("\n\n");
    out.append(RULE);
    out.append("\n\n");
    out.append(&section_list(&review.sections, style, zone));
    out.append(RULE);
    out.append("\n");
    out.append(&review_summary(&review.summary));
    out.append(
        &style.dim(
            "trail review <n>  |  trail review <n>.<m>  |  trail review <sel> <file> [--open]  |  trail review --commit <rev>",
        ),
    );
    out.append("\n");
    out
}

// ---------------------------------------------------------------------------
// One section
pub open spec fn path_text(c: ReviewCheckpointView, style: Style, zone: Seq<(i64, i32)>) -> Seq<
    char,
> {
    step_line(c, style) + checkpoint_meta_text(c, style, zone)
}

fn path_step(cp: &ReviewCheckpoint, style: &Style, zone: &Zone) -> (r: String)
    ensures
        r@ == path_text(cp.deep_view(), *style, zone.deep_view()),
{
    text::cat2(&step(cp, style), &checkpoint_meta(cp, style, zone))
}

pub open spec fn path_lines(items: Seq<ReviewCheckpointView>, style: Style, zone: Seq<(i64, i32)>) -> Seq<char>
    decreases items.len(),
{
    if items.len() == 0 {
        Seq::empty()
    } else {
        path_lines(items.drop_last(), style, zone) + path_text(
            items.last(),
            style,
            zone,
        )
    }
}

fn path_steps(items: &Vec<ReviewCheckpoint>, style: &Style, zone: &Zone) -> (r: String)
    ensures
        r@ == path_lines(items.deep_view(), *style, zone.deep_view()),
{
    let ghost all = items.deep_view();
    let mut out: String = String::new();
    let mut k: usize = 0;
    assert(out@ =~= path_lines(all.take(0), *style, zone.deep_view()));
    while k < items.len()
        invariant
            k <= items.len(),
            all == items.deep_view(),
            out@ == path_lines(all.take(k as int), *style, zone.deep_view()),
        decreases items.len() - k,
    {
        proof {
            assert(all.take(k + 1).drop_last() =~= all.take(k as int));
            assert(all.take(k + 1).last() == items[k as int].deep_view());
        }
        out.append(&path_step(&items[k], style, zone));
        k += 1;
    }
    assert(all.take(k as int) =~= all);
    out
}

/// How something was made, checkpoint by checkpoint.
pub open spec fn development_text(
    cps: Seq<ReviewCheckpointView>,
    style: Style,
    zone: Seq<(i64, i32)>,
) -> Seq<char> {
    bold_text(style, "Development path"@) + "\n"@ + no_steps_line(cps.len() == 0, style)
        + path_lines(cps, style, zone) + "\n"@
}

fn development(cps: &Vec<ReviewCheckpoint>, style: &Style, zone: &Zone) -> (r: String)
    ensures
        r@ == development_text(cps.deep_view(), *style, zone.deep_view()),
{
    text::cat5(
        &style.bold("Development path"),
        "\n",
        &no_steps(cps.len() == 0, style),
        &path_steps(cps, style, zone),
        "\n",
    )
}

pub open spec fn commit_rows(items: Seq<CommitFileView>, style: Style) -> Seq<char>
    decreases items.len(),
{
    if items.len() == 0 {
        Seq::empty()
    } else {
        commit_rows(items.drop_last(), style) + row_line(items.last().as_row(), style)
    }
}

fn list_commit_files(items: &Vec<CommitFile>, style: &Style) -> (r: String)
    ensures
        r@ == commit_rows(items.deep_view(), *style),
{
    let ghost all = items.deep_view();
    let mut out: String = String::new();
    let mut k: usize = 0;
    assert(out@ =~= commit_rows(all.take(0), *style));
    while k < items.len()
        invariant
            k <= items.len(),
            all == items.deep_view(),
            out@ == commit_rows(all.take(k as int), *style),
        decreases items.len() - k,
    {
        proof {
            assert(all.take(k + 1).drop_last() =~= all.take(k as int));
            assert(all.take(k + 1).last() == items[k as int].deep_view());
        }
        out.append(&write_row(&items[k].row(), style));
        k += 1;
    }
    assert(all.take(k as int) =~= all);
    out
}

pub open spec fn work_rows(items: Seq<WorkingTreeFileView>, style: Style) -> Seq<char>
    decreases items.len(),
{
    if items.len() == 0 {
        Seq::empty()
    } else {
        work_rows(items.drop_last(), style) + row_line(items.last().as_row(), style)
    }
}

fn list_work_files(items: &Vec<WorkingTreeFile>, style: &Style) -> (r: String)
    ensures
        r@ == work_rows(items.deep_view(), *style),
{
    let ghost all = items.deep_view();
    let mut out: String = String::new();
    let mut k: usize = 0;
    assert(out@ =~= work_rows(all.take(0), *style));
    while k < items.len()
        invariant
            k <= items.len(),
            all == items.deep_view(),
            out@ == work_rows(all.take(k as int), *style),
        decreases items.len() - k,
    {
        proof {
            assert(all.take(k + 1).drop_last() =~= all.take(k as int));
            assert(all.take(k + 1).last() == items[k as int].deep_view());
        }
        out.append(&write_row(&items[k].row(), style));
        k += 1;
    }
    assert(all.take(k as int) =~= all);
    out
}

pub open spec fn checkpoint_rows(items: Seq<ReviewFileView>, style: Style) -> Seq<char>
    decreases items.len(),
{
    if items.len() == 0 {
        Seq::empty()
    } else {
        checkpoint_rows(items.drop_last(), style) + row_line(items.last().as_row(), style)
    }
}

fn list_checkpoint_files(items: &Vec<ReviewFile>, style: &Style) -> (r: String)
    ensures
        r@ == checkpoint_rows(items.deep_view(), *style),
{
    let ghost all = items.deep_view();
    let mut out: String = String::new();
    let mut k: usize = 0;
    assert(out@ =~= checkpoint_rows(all.take(0), *style));
    while k < items.len()
        invariant
            k <= items.len(),
            all == items.deep_view(),
            out@ == checkpoint_rows(all.take(k as int), *style),
        decreases items.len() - k,
    {
        proof {
            assert(all.take(k + 1).drop_last() =~= all.take(k as int));
            assert(all.take(k + 1).last() == items[k as int].deep_view());
        }
        out.append(&write_row(&items[k].row(), style));
        k += 1;
    }
    assert(all.take(k as int) =~= all);
    out
}

pub open spec fn row_line(r: FileRowView, style: Style) -> Seq<char> {
    "    "@ + row_text(r, style) + "\n"@
}

fn write_row(row: &FileRow, style: &Style) -> (r: String)
    ensures
        r@ == row_line(row.deep_view(), *style),
{
    text::cat3("    ", &file_row_line(row, style), "\n")
}

pub open spec fn commit_text(c: CommitReviewView, style: Style, zone: Seq<(i64, i32)>) -> Seq<
    char,
> {
    let n = text::decimal(c.number as nat);
    "\n"@ + bold_text(style, "Commit"@) + "\n["@ + n + "] "@ + c.short_id + " "@ + c.summary
        + "\n"@ + authored_text(c, style, zone) + "\n"@ + development_text(
        c.checkpoints,
        style,
        zone,
    ) + bold_text(style, "Final commit diff"@) + "\n    "@ + counted(
        c.files.len() as int,
        "file"@,
    ) + "  "@ + stats_text(c.stats) + "\n"@ + commit_rows(c.files, style) + "\n"@ + dim_text(
        style,
        "trail review "@ + n + " <file>  shows the commit diff of a file;  trail review "@ + n
            + ".<m> <file>  a checkpoint's"@,
    ) + "\n"@
}

/// `trail review <n>` for a commit, and `trail review --commit <rev>`.
pub fn render_commit(c: &CommitReview, style: &Style, zone: &Zone) -> (r: String)
    ensures
        r@ == commit_text(c.deep_view(), *style, zone.deep_view()),
{
    let n: String = number(c.number);
    let mut out: String = text::cat7(
        "\n",
        &style.bold("Commit"),
        "\n[",
        &n,
        "] ",
        &c.short_id,
        " ",
    );
    out.append(&c.summary);
    out.append("\n");
    out.append(&authored(c, style, zone));
    out.append("\n");
    out.append(&development(&c.checkpoints, style, zone));
    out.append(&style.bold("Final commit diff"));
    out.append("\n    ");
    out.append(&count(c.files.len(), "file"));
    out.append("  ");
    out.append(&c.stats.to_string());
    out.append("\n");
    out.append(&list_commit_files(&c.files, style));
    out.append("\n");
    out.append(
        &style.dim(
            &text::cat5(
                "trail review ",
                &n,
                " <file>  shows the commit diff of a file;  trail review ",
                &n,
                ".<m> <file>  a checkpoint's",
            ),
        ),
    );
    out.append("\n");
    out
}

pub open spec fn working_tree_text(
    w: WorkingTreeReviewView,
    style: Style,
    zone: Seq<(i64, i32)>,
) -> Seq<char> {
    "\n"@ + bold_text(style, "Working tree"@) + "\n["@ + text::decimal(w.number as nat) + "]\n"@
        + removed_line(w.available, style) + "\n"@ + development_text(w.checkpoints, style, zone)
        + bold_text(style, "Uncommitted changes"@) + "\n    "@ + counted(
        w.files.len() as int,
        "file"@,
    ) + "  "@ + stats_text(w.stats) + "  "@ + dim_text(
        style,
        tallies_text(w.staged, w.unstaged, w.untracked),
    ) + "\n"@ + work_rows(w.files, style)
}

/// `trail review <n>` for the working tree.
pub fn render_working_tree(w: &WorkingTreeReview, style: &Style, zone: &Zone) -> (r: String)
    ensures
        r@ == working_tree_text(w.deep_view(), *style, zone.deep_view()),
{
    let mut out: String = text::cat5(
        "\n",
        &style.bold("Working tree"),
        "\n[",
        &number(w.number),
        "]\n",
    );
    out.append(&removed(w.available, style));
    out.append("\n");
    out.append(&development(&w.checkpoints, style, zone));
    out.append(&style.bold("Uncommitted changes"));
    out.append("\n    ");
    out.append(&count(w.files.len(), "file"));
    out.append("  ");
    out.append(&w.stats.to_string());
    out.append("  ");
    out.append(&style.dim(&tallies(w.staged, w.unstaged, w.untracked)));
    out.append("\n");
    out.append(&list_work_files(&w.files, style));
    out
}

pub fn render_section(section: &ReviewSection, style: &Style, zone: &Zone) -> (r: String)
    ensures
        r@ == (match section.deep_view() {
            ReviewSectionView::Commit(c) => commit_text(c, *style, zone.deep_view()),
            ReviewSectionView::WorkingTree(w) => working_tree_text(w, *style, zone.deep_view()),
        }),
{
    match section {
        ReviewSection::Commit(c) => render_commit(c, style, zone),
        ReviewSection::WorkingTree(w) => render_working_tree(w, style, zone),
    }
}

pub open spec fn review_checkpoint_text(
    c: ReviewCheckpointView,
    style: Style,
    zone: Seq<(i64, i32)>,
) -> Seq<char> {
    "\n"@ + checkpoint_text(c, style) + "\n"@ + checkpoint_meta_text(c, style, zone) + "\n"@
        + checkpoint_rows(c.files, style) + "\n"@ + dim_text(
        style,
        "trail review "@ + c.label
            + " <file>  shows what this checkpoint changed in a file"@,
    ) + "\n"@
}

pub fn render_review_checkpoint(cp: &ReviewCheckpoint, style: &Style, zone: &Zone) -> (r: String)
    ensures
        r@ == review_checkpoint_text(cp.deep_view(), *style, zone.deep_view()),
{
    let mut out: String = text::cat5(
        "\n",
        &checkpoint_line(cp, style),
        "\n",
        &checkpoint_meta(cp, style, zone),
        "\n",
    );
    out.append(&list_checkpoint_files(&cp.files, style));
    out.append("\n");
    out.append(
        &style.dim(
            &text::cat3(
                "trail review ",
                &cp.label,
                " <file>  shows what this checkpoint changed in a file",
            ),
        ),
    );
    out.append("\n");
    out
}

pub open spec fn review_file_text(r: FileDiffReportView, style: Style) -> Seq<char> {
    dim_text(style, r.heading + "  "@ + row_text(r.file, Style { enabled: false })) + "\n"@ + (
    if r.available {
        r.diff
    } else {
        "snapshot unavailable for this change (recorded before snapshot support, larger than the cap, pruned, or the worktree was removed)\n"@
    })
}

pub fn render_review_file(report: &FileDiffReport, style: &Style) -> (r: String)
    ensures
        r@ == review_file_text(report.deep_view(), *style),
{
    let plain: Style = Style { enabled: false };
    let mut out: String = style.dim(
        &text::cat3(&report.heading, "  ", &file_row_line(&report.file, &plain)),
    );
    out.append("\n");
    if report.available {
        out.append(&report.diff);
    } else {
        out.append(
            "snapshot unavailable for this change (recorded before snapshot support, larger than the cap, pruned, or the worktree was removed)\n",
        );
    }
    out
}

} // verus!
