//! Plain text rendering. No tables wider than a path, no colour unless it is
//! asked for, so output pipes cleanly into other tools.

pub use super::reports::{
    render_changes, render_diff, render_inspect, render_sessions, render_status, render_worktrees,
};
pub use super::review::{
    render_commit, render_review, render_review_checkpoint, render_review_file, render_section,
    render_working_tree,
};

use super::{plural, plural_text};
use crate::data::Dup;
use crate::git::baseline::{Baseline, BaselineKind, BaselineView};
use crate::git::diff::{or_zero, stats_text, FileStat, FileStatView, LineStats};
use crate::git::worktree::WorktreeKind;
use crate::recorder::checkpoint::{ChangeKind, FileChange, FileChangeView};
use crate::review::{name_of, name_text};
use crate::text;
use crate::time::{clock_text, date_text, day_of, wall, Timestamp, Zone};
use crate::trail::{RepositoryContext, RepositoryContextView, Trail, TrailSummary, TrailView};
use crate::trail::event::{
    Confidence, EventSource, TrailEvent, TrailEventType, TrailEventTypeView, TrailEventView,
};
use vstd::prelude::*;

verus! {

pub const RULE: &'static str = "────────────────────────────────────";

pub const SHORT_RULE: &'static str = "────────────────────";

/// How text is set off: with terminal escapes, or not at all.
#[derive(Debug, Clone, Copy, PartialEq, Eq, Structural)]
pub struct Style {
    pub enabled: bool,
}

pub open spec fn bold_text(style: Style, s: Seq<char>) -> Seq<char> {
    if style.enabled {
        "\x1b[1m"@ + s + "\x1b[0m"@
    } else {
        s
    }
}

pub open spec fn dim_text(style: Style, s: Seq<char>) -> Seq<char> {
    if style.enabled {
        "\x1b[2m"@ + s + "\x1b[0m"@
    } else {
        s
    }
}

impl Style {
    /// Colour on a terminal, unless `NO_COLOR` is set or the terminal is dumb.
    pub fn detect(terminal: bool, no_color: bool, dumb: bool) -> (r: Style)
        ensures
            r.enabled == (terminal && !no_color && !dumb),
    {
        Style { enabled: terminal && !no_color && !dumb }
    }

    pub fn bold(&self, s: &str) -> (r: String)
        ensures
            r@ == bold_text(*self, s@),
    {
        if self.enabled {
            text::cat3("\x1b[1m", s, "\x1b[0m")
        } else {
            s.to_owned()
        }
    }

    pub fn dim(&self, s: &str) -> (r: String)
        ensures
            r@ == dim_text(*self, s@),
    {
        if self.enabled {
            text::cat3("\x1b[2m", s, "\x1b[0m")
        } else {
            s.to_owned()
        }
    }
}

/// A number and what it counts: "1 file", "3 files".
pub open spec fn counted(n: int, what: Seq<char>) -> Seq<char> {
    text::decimal(n as nat) + " "@ + what + plural_text(n)
}

pub(crate) fn count(n: usize, what: &str) -> (r: String)
    ensures
        r@ == counted(n as int, what@),
{
    text::cat4(&text::decimal_of(n as u64), " ", what, plural(n))
}

pub(crate) fn number(n: usize) -> (r: String)
    ensures
        r@ == text::decimal(n as nat),
{
    text::decimal_of(n as u64)
}

/// A line under a heading.
pub open spec fn under(heading: Seq<char>, style: Style, line: Seq<char>) -> Seq<char> {
    bold_text(style, heading) + "\n  "@ + line + "\n"@
}

fn heading(title: &str, style: &Style, line: &str) -> (r: String)
    ensures
        r@ == under(title@, *style, line@),
{
    text::cat4(&style.bold(title), "\n  ", line, "\n")
}

pub open spec fn file_counts_text(s: FileStatView) -> Seq<char> {
    if s.additions is None {
        "binary"@
    } else {
        stats_text(LineStats { additions: or_zero(s.additions), deletions: or_zero(s.deletions) })
    }
}

pub(crate) fn file_stat_text(stat: &FileStat) -> (r: String)
    ensures
        r@ == file_counts_text(stat.deep_view()),
{
    if stat.is_binary() {
        return "binary".to_owned();
    }
    LineStats::from_counts(stat.additions, stat.deletions).to_string()
}

// ---------------------------------------------------------------------------
// Where we are
/// "last push to origin/feature (8fa19d2)" plus the effective start when the
/// baseline commit is not an ancestor of HEAD (rebase, amend).
pub open spec fn since_text(b: BaselineView) -> Seq<char> {
    if b.start == b.commit {
        b.label + " ("@ + b.short_commit + ")"@
    } else {
        b.label + " ("@ + b.short_commit + ", common ancestor "@ + b.short_start + ")"@
    }
}

pub fn baseline_text(b: &Baseline) -> (r: String)
    ensures
        r@ == since_text(b.deep_view()),
{
    if text::same(&b.start, &b.commit) {
        text::cat4(&b.label, " (", &b.short_commit, ")")
    } else {
        text::cat6(
            &b.label,
            " (",
            &b.short_commit,
            ", common ancestor ",
            &b.short_start,
            ")",
        )
    }
}

pub open spec fn head_text(ctx: RepositoryContextView, style: Style) -> Seq<char> {
    under("Repository"@, style, ctx.name) + "\n"@ + under(
        "Worktree"@,
        style,
        ctx.head.label_text(),
    ) + (if ctx.worktree.kind == WorktreeKind::Linked {
        "  "@ + dim_text(style, "linked worktree"@) + " "@ + ctx.worktree.root + "\n"@
    } else {
        ""@
    }) + "\n"@ + under("Base"@, style, ctx.base) + (if ctx.shallow {
        "  "@ + dim_text(style, "(shallow clone: history may be incomplete)"@) + "\n"@
    } else {
        ""@
    }) + (if ctx.since.kind != BaselineKind::BaseBranch {
        "\n"@ + under("Since"@, style, since_text(ctx.since))
    } else {
        ""@
    }) + "\n"@
}

fn head_line(ctx: &RepositoryContext, style: &Style) -> (r: String)
    ensures
        r@ == head_text(ctx.deep_view(), *style),
{
    let mut out: String = heading("Repository", style, &ctx.name);
    out.append("\n");
    out.append(&heading("Worktree", style, &ctx.head.label()));
    let linked: String = if ctx.worktree.kind == WorktreeKind::Linked {
        text::cat5("  ", &style.dim("linked worktree"), " ", &ctx.worktree.root, "\n")
    } else {
        "".to_owned()
    };
    out.append(&linked);
    out.append("\n");
    out.append(&heading("Base", style, &ctx.base));
    let shallow: String = if ctx.shallow {
        text::cat3("  ", &style.dim("(shallow clone: history may be incomplete)"), "\n")
    } else {
        "".to_owned()
    };
    out.append(&shallow);
    let since: String = if ctx.since.kind != BaselineKind::BaseBranch {
        text::cat2("\n", &heading("Since", style, &baseline_text(&ctx.since)))
    } else {
        "".to_owned()
    };
    out.append(&since);
    out.append("\n");
    out
}

// ---------------------------------------------------------------------------
// Events
/// How many changes of a kind there are.
pub open spec fn kind_count(changes: Seq<FileChangeView>, kind: ChangeKind) -> nat
    decreases changes.len(),
{
    if changes.len() == 0 {
        0
    } else {
        kind_count(changes.drop_last(), kind) + if changes.last().kind == kind {
            1nat
        } else {
            0nat
        }
    }
}

/// One kind of change in a list of counts; nothing when there is none.
pub open spec fn kind_part(
    changes: Seq<FileChangeView>,
    kind: ChangeKind,
    label: Seq<char>,
) -> Seq<Seq<char>> {
    let n = kind_count(changes, kind);
    if n > 0 {
        seq![text::decimal(n) + " "@ + label]
    } else {
        Seq::empty()
    }
}

/// "2 created, 1 modified": how many changes of each kind a checkpoint holds.
pub open spec fn change_counts_text(changes: Seq<FileChangeView>) -> Seq<char> {
    text::join(
        kind_part(changes, ChangeKind::Created, "created"@) + kind_part(
            changes,
            ChangeKind::Modified,
            "modified"@,
        ) + kind_part(changes, ChangeKind::Deleted, "deleted"@) + kind_part(
            changes,
            ChangeKind::Renamed,
            "renamed"@,
        ),
        ", "@,
    )
}

fn count_kind(changes: &Vec<FileChange>, kind: ChangeKind) -> (r: usize)
    ensures
        r == kind_count(changes.deep_view(), kind),
{
    let ghost all = changes.deep_view();
    let mut n: usize = 0;
    let mut k: usize = 0;
    assert(all.take(0) =~= Seq::empty());
    while k < changes.len()
        invariant
            k <= changes.len(),
            n <= k,
            all == changes.deep_view(),
            n == kind_count(all.take(k as int), kind),
        decreases changes.len() - k,
    {
        proof {
            assert(all.take(k + 1).drop_last() =~= all.take(k as int));
            assert(all.take(k + 1).last() == changes[k as int].deep_view());
        }
        if changes[k].kind == kind {
            n = n + 1;
        }
        k += 1;
    }
    assert(all.take(k as int) =~= all);
    n
}

fn add_kind(parts: &mut Vec<String>, changes: &Vec<FileChange>, kind: ChangeKind, label: &str)
    ensures
        final(parts).deep_view() == old(parts).deep_view() + kind_part(
            changes.deep_view(),
            kind,
            label@,
        ),
{
    let ghost was = parts.deep_view();
    let n: usize = count_kind(changes, kind);
    if n > 0 {
        parts.push(text::cat3(&number(n), " ", label));
    }
    assert(parts.deep_view() =~= was + kind_part(changes.deep_view(), kind, label@));
}

fn change_counts(changes: &Vec<FileChange>) -> (r: String)
    ensures
        r@ == change_counts_text(changes.deep_view()),
{
    let mut parts: Vec<String> = Vec::new();
    let ghost cs = changes.deep_view();
    assert(parts.deep_view() =~= Seq::empty());
    add_kind(&mut parts, changes, ChangeKind::Created, "created");
    add_kind(&mut parts, changes, ChangeKind::Modified, "modified");
    add_kind(&mut parts, changes, ChangeKind::Deleted, "deleted");
    add_kind(&mut parts, changes, ChangeKind::Renamed, "renamed");
    assert(parts.deep_view() =~= kind_part(cs, ChangeKind::Created, "created"@) + kind_part(
        cs,
        ChangeKind::Modified,
        "modified"@,
    ) + kind_part(cs, ChangeKind::Deleted, "deleted"@) + kind_part(
        cs,
        ChangeKind::Renamed,
        "renamed"@,
    ));
    text::join_of(&parts, ", ")
}

/// A file event names its file.
pub open spec fn drawable(e: TrailEventView) -> bool {
    (e.event_type is FileAdded || e.event_type is FileModified || e.event_type is FileDeleted
        || e.event_type is FileRenamed) ==> e.files.len() > 0
}

pub open spec fn time_text(t: Option<Timestamp>, zone: Seq<(i64, i32)>) -> Seq<char> {
    match t {
        Some(t) => clock_text(wall(zone, t)),
        None => "--:--"@,
    }
}

/// What an event was.
pub open spec fn body_text(e: TrailEventView, style: Style) -> Seq<char> {
    match e.event_type {
        TrailEventTypeView::FileAdded => "Added "@ + e.files[0],
        TrailEventTypeView::FileModified => "Modified "@ + e.files[0],
        TrailEventTypeView::FileDeleted => "Deleted "@ + e.files[0],
        TrailEventTypeView::FileRenamed { from } => "Renamed "@ + from + " -> "@ + e.files[0],
        TrailEventTypeView::Commit { id, short_id, summary, author, is_merge } => (if is_merge {
            "Merged"@
        } else {
            "Committed"@
        }) + " "@ + short_id + " "@ + summary + dim_text(
            style,
            " ("@ + counted(e.files.len() as int, "file"@) + ")"@,
        ),
        TrailEventTypeView::Checkpoint {
            id,
            session_id,
            title,
            annotation,
            bulk,
            hidden,
            boundary,
            commit,
            attachment,
            changes,
        } => "Session "@ + dim_text(style, id) + "  "@ + (match title {
            Some(t) => "\""@ + t + "\""@,
            None => change_counts_text(changes),
        }) + (if bulk {
            dim_text(style, " (bulk, "@ + text::decimal(changes.len()) + " files)"@)
        } else {
            ""@
        }),
        TrailEventTypeView::RefUpdate { action, message } => dim_text(
            style,
            "HEAD "@ + (if message.len() == 0 {
                action
            } else {
                action + ": "@ + message
            }),
        ),
    }
}

fn event_body(event: &TrailEvent, style: &Style) -> (r: String)
    requires
        drawable(event.deep_view()),
    ensures
        r@ == body_text(event.deep_view(), *style),
{
    assert(event.files.deep_view().len() == event.files.len());
    match &event.event_type {
        TrailEventType::FileAdded => {
            assert(event.files.deep_view()[0] == event.files[0]@);
            text::cat2("Added ", &event.files[0])
        },
        TrailEventType::FileModified => {
            assert(event.files.deep_view()[0] == event.files[0]@);
            text::cat2("Modified ", &event.files[0])
        },
        TrailEventType::FileDeleted => {
            assert(event.files.deep_view()[0] == event.files[0]@);
            text::cat2("Deleted ", &event.files[0])
        },
        TrailEventType::FileRenamed { from } => {
            assert(event.files.deep_view()[0] == event.files[0]@);
            text::cat4("Renamed ", from, " -> ", &event.files[0])
        },
        TrailEventType::Commit { id: _, short_id, summary, author: _, is_merge } => {
            let kind: &str = if *is_merge {
                "Merged"
            } else {
                "Committed"
            };
            let files: String = text::cat3(" (", &count(event.files.len(), "file"), ")");
            text::cat6(kind, " ", short_id, " ", summary, &style.dim(&files))
        },
        TrailEventType::Checkpoint {
            id,
            session_id: _,
            title,
            annotation: _,
            bulk,
            hidden: _,
            boundary: _,
            commit: _,
            attachment: _,
            changes,
        } => {
            let what: String = match title {
                Some(t) => text::cat3("\"", t, "\""),
                None => change_counts(changes),
            };
            let tag: String = if *bulk {
                style.dim(&text::cat3(" (bulk, ", &number(changes.len()), " files)"))
            } else {
                "".to_owned()
            };
            text::cat5("Session ", &style.dim(id), "  ", &what, &tag)
        },
        TrailEventType::RefUpdate { action, message } => {
            let said: String = if message.as_str().unicode_len() == 0 {
                action.dup()
            } else {
                text::cat3(action, ": ", message)
            };
            style.dim(&text::cat2("HEAD ", &said))
        },
    }
}

pub open spec fn stats_tag(e: TrailEventView) -> Seq<Seq<char>> {
    match e.stats {
        Some(s) => seq![stats_text(s)],
        None => Seq::empty(),
    }
}

pub open spec fn staged_tag(e: TrailEventView) -> Seq<Seq<char>> {
    match e.staged {
        Some(true) => seq!["staged"@],
        Some(false) => seq!["unstaged"@],
        None => if e.event_type is FileAdded && e.source == EventSource::Filesystem {
            seq!["untracked"@]
        } else {
            Seq::empty()
        },
    }
}

pub open spec fn confidence_tag(e: TrailEventView) -> Seq<Seq<char>> {
    if e.confidence == Confidence::Inferred {
        seq!["time from mtime"@]
    } else {
        Seq::empty()
    }
}

/// What the detailed view adds to an event: line stats, staging state, and
/// where its time came from.
pub open spec fn tags_of(e: TrailEventView) -> Seq<Seq<char>> {
    stats_tag(e) + staged_tag(e) + confidence_tag(e)
}

/// One line of the timeline.
pub open spec fn event_text(
    e: TrailEventView,
    detailed: bool,
    style: Style,
    zone: Seq<(i64, i32)>,
) -> Seq<char> {
    time_text(e.timestamp, zone) + "  "@ + body_text(e, style) + (if detailed && tags_of(e).len()
        > 0 {
        "  "@ + dim_text(style, "["@ + text::join(tags_of(e), ", "@) + "]"@)
    } else {
        ""@
    })
}

fn time_of(t: &Option<Timestamp>, zone: &Zone) -> (r: String)
    ensures
        r@ == time_text(*t, zone.deep_view()),
{
    match t {
        Some(t) => zone.local(t).clock(),
        None => "--:--".to_owned(),
    }
}

fn event_tags(event: &TrailEvent) -> (r: Vec<String>)
    ensures
        r.deep_view() == tags_of(event.deep_view()),
{
    let ghost e = event.deep_view();
    let mut tags: Vec<String> = Vec::new();
    match &event.stats {
        Some(s) => tags.push(s.to_string()),
        None => {},
    }
    assert(tags.deep_view() =~= stats_tag(e));
    let ghost first = tags.deep_view();
    match event.staged {
        Some(true) => tags.push("staged".to_owned()),
        Some(false) => tags.push("unstaged".to_owned()),
        None => {
            let added: bool = match &event.event_type {
                TrailEventType::FileAdded => true,
                _ => false,
            };
            if added && event.source == EventSource::Filesystem {
                tags.push("untracked".to_owned());
            }
        },
    }
    assert(tags.deep_view() =~= first + staged_tag(e));
    let ghost second = tags.deep_view();
    if event.confidence == Confidence::Inferred {
        tags.push("time from mtime".to_owned());
    }
    assert(tags.deep_view() =~= second + confidence_tag(e));
    tags
}

fn event_line(event: &TrailEvent, detailed: bool, style: &Style, zone: &Zone) -> (r: String)
    requires
        drawable(event.deep_view()),
    ensures
        r@ == event_text(event.deep_view(), detailed, *style, zone.deep_view()),
{
    let mut line: String = text::cat3(
        &time_of(&event.timestamp, zone),
        "  ",
        &event_body(event, style),
    );
    let tags: Vec<String> = event_tags(event);
    assert(tags.deep_view().len() == tags.len());
    let more: String = if detailed && tags.len() > 0 {
        text::cat2("  ", &style.dim(&text::cat3("[", &text::join_of(&tags, ", "), "]")))
    } else {
        "".to_owned()
    };
    line.append(&more);
    line
}

pub open spec fn indented_files(items: Seq<Seq<char>>) -> Seq<char>
    decreases items.len(),
{
    if items.len() == 0 {
        Seq::empty()
    } else {
        indented_files(items.drop_last()) + "         "@ + items.last() + "\n"@
    }
}

pub open spec fn change_lines(items: Seq<FileChangeView>) -> Seq<char>
    decreases items.len(),
{
    if items.len() == 0 {
        Seq::empty()
    } else {
        change_lines(items.drop_last()) + "         "@ + items.last().kind.mark_text() + " "@ + name_text(
            items.last().path,
            items.last().from_path,
        ) + "\n"@
    }
}

/// What the detailed view shows below an event: the files of a commit, the note
/// and the changes of a checkpoint.
pub open spec fn details_text(e: TrailEventView, style: Style) -> Seq<char> {
    match e.event_type {
        TrailEventTypeView::Commit { id, short_id, summary, author, is_merge } => indented_files(
            e.files,
        ),
        TrailEventTypeView::Checkpoint {
            id,
            session_id,
            title,
            annotation,
            bulk,
            hidden,
            boundary,
            commit,
            attachment,
            changes,
        } => (match annotation {
            Some(note) => "         "@ + dim_text(style, note) + "\n"@,
            None => ""@,
        }) + (if bulk {
            "         "@ + dim_text(
                style,
                text::decimal(changes.len()) + " files changed (bulk, collapsed)"@,
            ) + "\n"@
        } else {
            change_lines(changes)
        }),
        _ => ""@,
    }
}

fn indent_files(items: &Vec<String>) -> (r: String)
    ensures
        r@ == indented_files(items.deep_view()),
{
    let ghost all = items.deep_view();
    let mut out: String = String::new();
    let mut k: usize = 0;
    assert(out@ =~= indented_files(all.take(0)));
    while k < items.len()
        invariant
            k <= items.len(),
            all == items.deep_view(),
            out@ == indented_files(all.take(k as int)),
        decreases items.len() - k,
    {
        proof {
            assert(all.take(k + 1).drop_last() =~= all.take(k as int));
            assert(all.take(k + 1).last() == items[k as int]@);
        }
        out.append("         ");
        out.append(&items[k]);
        out.append("\n");
        assert(out@ =~= indented_files(all.take(k + 1)));
        k += 1;
    }
    assert(all.take(k as int) =~= all);
    out
}

fn list_changes(items: &Vec<FileChange>) -> (r: String)
    ensures
        r@ == change_lines(items.deep_view()),
{
    let ghost all = items.deep_view();
    let mut out: String = String::new();
    let mut k: usize = 0;
    assert(out@ =~= change_lines(all.take(0)));
    while k < items.len()
        invariant
            k <= items.len(),
            all == items.deep_view(),
            out@ == change_lines(all.take(k as int)),
        decreases items.len() - k,
    {
        proof {
            assert(all.take(k + 1).drop_last() =~= all.take(k as int));
            assert(all.take(k + 1).last() == items[k as int].deep_view());
        }
        let c: &FileChange = &items[k];
        out.append(
            &text::cat5(
                "         ",
                c.kind.mark(),
                " ",
                &name_of(&c.path, &c.from_path),
                "\n",
            ),
        );
        k += 1;
    }
    assert(all.take(k as int) =~= all);
    out
}

fn event_details(event: &TrailEvent, style: &Style) -> (r: String)
    ensures
        r@ == details_text(event.deep_view(), *style),
{
    match &event.event_type {
        TrailEventType::Commit { id: _, short_id: _, summary: _, author: _, is_merge: _ } =>
            indent_files(&event.files),
        TrailEventType::Checkpoint {
            id: _,
            session_id: _,
            title: _,
            annotation,
            bulk,
            hidden: _,
            boundary: _,
            commit: _,
            attachment: _,
            changes,
        } => {
            let note: String = match annotation {
                Some(note) => text::cat3("         ", &style.dim(note), "\n"),
                None => "".to_owned(),
            };
            let list: String = if *bulk {
                text::cat3(
                    "         ",
                    &style.dim(
                        &text::cat2(&number(changes.len()), " files changed (bulk, collapsed)"),
                    ),
                    "\n",
                )
            } else {
                list_changes(changes)
            };
            text::cat2(&note, &list)
        },
        _ => "".to_owned(),
    }
}

// ---------------------------------------------------------------------------
// The timeline
/// Which day headings were written so far.
#[derive(Debug, Clone, Copy, PartialEq, Eq, Structural)]
pub struct Days {
    pub day: Option<i128>,
    pub undated: bool,
}

/// An event that the text views leave out.
pub open spec fn is_hidden(e: TrailEventView) -> bool {
    e.event_type is Checkpoint && e.event_type->Checkpoint_hidden
}

/// The heading before an event, when its day is another than the last one's:
/// a date, or once for the events without a time.
pub open spec fn day_heading(
    days: Days,
    t: Option<Timestamp>,
    style: Style,
    zone: Seq<(i64, i32)>,
) -> Seq<char> {
    let gap = if days.day is Some {
        "\n"@
    } else {
        ""@
    };
    match t {
        Some(t) => if days.day == Some(day_of(wall(zone, t)) as i128) {
            ""@
        } else {
            gap + dim_text(style, date_text(wall(zone, t))) + "\n"@
        },
        None => if days.undated {
            ""@
        } else {
            gap + dim_text(style, "undated"@) + "\n"@
        },
    }
}

pub open spec fn days_after(days: Days, t: Option<Timestamp>, zone: Seq<(i64, i32)>) -> Days {
    match t {
        Some(t) => Days { day: Some(day_of(wall(zone, t)) as i128), ..days },
        None => Days { undated: true, ..days },
    }
}

/// Some events of a timeline, and the headings written for them.
pub open spec fn timeline_text(
    events: Seq<TrailEventView>,
    detailed: bool,
    style: Style,
    zone: Seq<(i64, i32)>,
) -> (Seq<char>, Days)
    decreases events.len(),
{
    if events.len() == 0 {
        (Seq::empty(), Days { day: None, undated: false })
    } else {
        let (before, days) = timeline_text(events.drop_last(), detailed, style, zone);
        let e = events.last();
        if is_hidden(e) {
            (before, days)
        } else {
            (
                before + day_heading(days, e.timestamp, style, zone) + event_text(
                    e,
                    detailed,
                    style,
                    zone,
                ) + "\n"@ + (if detailed {
                    details_text(e, style)
                } else {
                    ""@
                }),
                days_after(days, e.timestamp, zone),
            )
        }
    }
}

pub open spec fn events_text(
    events: Seq<TrailEventView>,
    detailed: bool,
    style: Style,
    zone: Seq<(i64, i32)>,
) -> Seq<char> {
    if events.len() == 0 {
        "  "@ + dim_text(style, "no changes since base"@) + "\n"@
    } else {
        timeline_text(events, detailed, style, zone).0
    }
}

/// Every file event names its file.
pub open spec fn all_drawable(events: Seq<TrailEventView>) -> bool {
    forall|i: int| 0 <= i < events.len() ==> drawable(#[trigger] events[i])
}

fn events_block(events: &Vec<TrailEvent>, detailed: bool, style: &Style, zone: &Zone) -> (r:
    String)
    requires
        all_drawable(events.deep_view()),
    ensures
        r@ == events_text(events.deep_view(), detailed, *style, zone.deep_view()),
{
    if events.len() == 0 {
        return text::cat3("  ", &style.dim("no changes since base"), "\n");
    }
    let ghost all = events.deep_view();
    let ghost z = zone.deep_view();
    let mut out: String = String::new();
    let mut days: Days = Days { day: None, undated: false };
    let mut k: usize = 0;
    assert(out@ =~= timeline_text(all.take(0), detailed, *style, z).0);
    while k < events.len()
        invariant
            k <= events.len(),
            all == events.deep_view(),
            all_drawable(all),
            z == zone.deep_view(),
            (out@, days) == timeline_text(all.take(k as int), detailed, *style, z),
        decreases events.len() - k,
    {
        let event: &TrailEvent = &events[k];
        proof {
            assert(all.take(k + 1).drop_last() =~= all.take(k as int));
            assert(all.take(k + 1).last() == event.deep_view());
            assert(drawable(all[k as int]));
        }
        let hidden: bool = match &event.event_type {
            TrailEventType::Checkpoint {
                id: _,
                session_id: _,
                title: _,
                annotation: _,
                bulk: _,
                hidden,
                boundary: _,
                commit: _,
                attachment: _,
                changes: _,
            } => *hidden,
            _ => false,
        };
        if !hidden {
            let gap: &str = if days.day.is_some() {
                "\n"
            } else {
                ""
            };
            let (top, after): (String, Days) = match &event.timestamp {
                Some(t) => {
                    let local = zone.local(t);
                    let day: i128 = local.day();
                    let same: bool = match days.day {
                        Some(d) => d == day,
                        None => false,
                    };
                    let top: String = if same {
                        "".to_owned()
                    } else {
                        text::cat3(gap, &style.dim(&local.date()), "\n")
                    };
                    (top, Days { day: Some(day), undated: days.undated })
                },
                None => {
                    let top: String = if days.undated {
                        "".to_owned()
                    } else {
                        text::cat3(gap, &style.dim("undated"), "\n")
                    };
                    (top, Days { day: days.day, undated: true })
                },
            };
            out.append(&top);
            out.append(&event_line(event, detailed, style, zone));
            out.append("\n");
            let more: String = if detailed {
                event_details(event, style)
            } else {
                "".to_owned()
            };
            out.append(&more);
            days = after;
        }
        k += 1;
    }
    assert(all.take(k as int) =~= all);
    out
}

/// Worktree-centric counts shown above the timeline.
pub open spec fn overview_text(s: TrailSummary, style: Style) -> Seq<char> {
    under("Commits"@, style, text::decimal(s.commits as nat)) + "\n"@ + under(
        "Working tree"@,
        style,
        counted(s.uncommitted_checkpoints as int, "checkpoint"@),
    ) + "\n"@ + under(
        "Development history"@,
        style,
        counted(s.checkpoints as int, "checkpoint"@),
    ) + "\n"@
}

fn overview_block(s: &TrailSummary, style: &Style) -> (r: String)
    ensures
        r@ == overview_text(*s, *style),
{
    text::cat6(
        &heading("Commits", style, &number(s.commits)),
        "\n",
        &heading("Working tree", style, &count(s.uncommitted_checkpoints, "checkpoint")),
        "\n",
        &heading("Development history", style, &count(s.checkpoints, "checkpoint")),
        "\n",
    )
}

pub open spec fn summary_text(s: TrailSummary) -> Seq<char> {
    RULE@ + "\n"@ + counted(s.changes as int, "change"@) + "\n"@ + counted(
        s.files_changed as int,
        "file"@,
    ) + " changed\n"@ + stats_text(
        LineStats { additions: s.additions, deletions: s.deletions },
    ) + "\n"@
}

fn summary_block(s: &TrailSummary) -> (r: String)
    ensures
        r@ == summary_text(*s),
{
    let mut out: String = text::cat6(
        RULE,
        "\n",
        &count(s.changes, "change"),
        "\n",
        &count(s.files_changed, "file"),
        " changed\n",
    );
    out.append(&LineStats { additions: s.additions, deletions: s.deletions }.to_string());
    out.append("\n");
    out
}

pub open spec fn trail_text(t: TrailView, style: Style, zone: Seq<(i64, i32)>) -> Seq<char> {
    "\n"@ + bold_text(style, "Development Trail"@) + "\n"@ + RULE@ + "\n\n"@ + head_text(
        t.repository,
        style,
    ) + overview_text(t.summary, style) + events_text(t.events, false, style, zone) + "\n"@
        + summary_text(t.summary)
}

pub fn render_trail(trail: &Trail, style: &Style, zone: &Zone) -> (r: String)
    requires
        all_drawable(trail.deep_view().events),
    ensures
        r@ == trail_text(trail.deep_view(), *style, zone.deep_view()),
{
    let mut out: String = text::cat5(
        "\n",
        &style.bold("Development Trail"),
        "\n",
        RULE,
        "\n\n",
    );
    out.append(&head_line(&trail.repository, style));
    out.append(&overview_block(&trail.summary, style));
    out.append(&events_block(&trail.events, false, style, zone));
    out.append("\n");
    out.append(&summary_block(&trail.summary));
    out
}

pub open spec fn history_text(t: TrailView, style: Style, zone: Seq<(i64, i32)>) -> Seq<char> {
    "\n"@ + bold_text(style, "Development Trail (detailed)"@) + "\n"@ + RULE@ + "\n\n"@
        + head_text(t.repository, style) + dim_text(
        style,
        "since merge base "@ + t.repository.merge_base
            + "  (commits, HEAD reflog, working tree)"@,
    ) + "\n\n"@ + events_text(t.events, true, style, zone) + "\n"@ + summary_text(t.summary)
}

pub fn render_history(trail: &Trail, style: &Style, zone: &Zone) -> (r: String)
    requires
        all_drawable(trail.deep_view().events),
    ensures
        r@ == history_text(trail.deep_view(), *style, zone.deep_view()),
{
    let mut out: String = text::cat5(
        "\n",
        &style.bold("Development Trail (detailed)"),
        "\n",
        RULE,
        "\n\n",
    );
    out.append(&head_line(&trail.repository, style));
    out.append(
        &style.dim(
            &text::cat3(
                "since merge base ",
                &trail.repository.merge_base,
                "  (commits, HEAD reflog, working tree)",
            ),
        ),
    );
    out.append("\n\n");
    out.append(&events_block(&trail.events, true, style, zone));
    out.append("\n");
    out.append(&summary_block(&trail.summary));
    out
}

/// The events that the text views show.
pub open spec fn visible(events: Seq<TrailEventView>) -> Seq<TrailEventView>
    decreases events.len(),
{
    if events.len() == 0 {
        Seq::empty()
    } else if is_hidden(events.last()) {
        visible(events.drop_last())
    } else {
        visible(events.drop_last()).push(events.last())
    }
}

/// A hidden checkpoint leaves no trace in the text of a timeline: it reads as
/// if the checkpoint were not there.
pub proof fn lemma_hidden_leave_no_trace(
    events: Seq<TrailEventView>,
    detailed: bool,
    style: Style,
    zone: Seq<(i64, i32)>,
)
    ensures
        timeline_text(events, detailed, style, zone) == timeline_text(
            visible(events),
            detailed,
            style,
            zone,
        ),
    decreases events.len(),
{
    if events.len() > 0 {
        lemma_hidden_leave_no_trace(events.drop_last(), detailed, style, zone);
        if !is_hidden(events.last()) {
            assert(visible(events).drop_last() =~= visible(events.drop_last()));
        }
    }
}

} // verus!
