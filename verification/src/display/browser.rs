//! Text of the interactive browser: what its panes and its status line say.

use super::terminal::{count, counted, number};
use crate::data::Dup;
use crate::git::diff::stats_text;
use crate::review::{FileRow, FileRowView, ReviewCheckpoint, ReviewSection};
use crate::text;
use crate::tui::{App, AppView, Key, Level, Node};
use vstd::prelude::*;

verus! {

/// A key as the terminal reports it.
#[derive(Debug, Clone, Copy, PartialEq, Eq, Structural)]
pub enum KeyPress {
    Char(char),
    Down,
    Up,
    Enter,
    Esc,
    Backspace,
    Other,
}

/// What a key means; `control` says whether Ctrl was held.
pub open spec fn meaning(press: KeyPress, control: bool) -> Option<Key> {
    match press {
        KeyPress::Down => Some(Key::Down),
        KeyPress::Up => Some(Key::Up),
        KeyPress::Enter => Some(Key::Enter),
        KeyPress::Esc => Some(Key::Back),
        KeyPress::Backspace => Some(Key::Back),
        KeyPress::Char(c) => if c == 'j' {
            Some(Key::Down)
        } else if c == 'k' {
            Some(Key::Up)
        } else if c == 'l' {
            Some(Key::Enter)
        } else if c == 'h' {
            Some(Key::Back)
        } else if c == 'c' {
            Some(
                if control {
                    Key::Quit
                } else {
                    Key::CommitDiff
                },
            )
        } else if c == 'd' {
            Some(Key::Diff)
        } else if c == 'o' {
            Some(Key::Open)
        } else if c == 'q' {
            Some(Key::Quit)
        } else {
            None
        },
        KeyPress::Other => None,
    }
}

/// What a key means.
pub fn map_key(press: KeyPress, control: bool) -> (r: Option<Key>)
    ensures
        r == meaning(press, control),
{
    match press {
        KeyPress::Char('j') => Some(Key::Down),
        KeyPress::Down => Some(Key::Down),
        KeyPress::Char('k') => Some(Key::Up),
        KeyPress::Up => Some(Key::Up),
        KeyPress::Enter => Some(Key::Enter),
        KeyPress::Char('l') => Some(Key::Enter),
        KeyPress::Esc => Some(Key::Back),
        KeyPress::Char('h') => Some(Key::Back),
        KeyPress::Backspace => Some(Key::Back),
        KeyPress::Char('c') => if control {
            Some(Key::Quit)
        } else {
            Some(Key::CommitDiff)
        },
        KeyPress::Char('d') => Some(Key::Diff),
        KeyPress::Char('o') => Some(Key::Open),
        KeyPress::Char('q') => Some(Key::Quit),
        _ => None,
    }
}

/// A line in two parts, the second of them set back.
#[derive(Debug, Clone, PartialEq, Eq)]
pub struct PaneLine {
    pub text: String,
    pub aside: String,
}

/// What a [`PaneLine`] denotes.
#[verifier::ext_equal]
pub struct PaneLineView {
    pub text: Seq<char>,
    pub aside: Seq<char>,
}

impl DeepView for PaneLine {
    type V = PaneLineView;

    open spec fn deep_view(&self) -> PaneLineView {
        PaneLineView {
            text: self.text.deep_view(),
            aside: self.aside.deep_view(),
        }
    }
}

impl Dup for PaneLine {
    fn dup(&self) -> (r: PaneLine) {
        PaneLine {
            text: self.text.dup(),
            aside: self.aside.dup(),
        }
    }
}

/// The title of the tree.
pub open spec fn development_title_text(a: AppView) -> Seq<char> {
    " Development  "@ + a.review.repository.head.label_text() + (if a.review.worktree.exists {
        ""@
    } else {
        " (removed)"@
    }) + " since "@ + a.review.repository.since.label + " "@
}

pub fn development_title(app: &App) -> (r: String)
    ensures
        r@ == development_title_text(app.deep_view()),
{
    let gone: &str = if app.review.worktree.exists {
        ""
    } else {
        " (removed)"
    };
    text::cat6(
        " Development  ",
        &app.review.repository.head.label(),
        gone,
        " since ",
        &app.review.repository.since.label,
        " ",
    )
}

/// One row of the tree.
pub open spec fn node_line_of(a: AppView, node: Node) -> PaneLineView {
    match node {
        Node::Section(i) => {
            let s = a.review.sections[i as int];
            PaneLineView {
                text: (if a.expanded[i as int] {
                    "▼"@
                } else {
                    "▶"@
                }) + " ["@ + text::decimal(s.at() as nat) + "] "@ + s.title() + "  "@,
                aside: counted(s.steps().len() as int, "checkpoint"@) + "  "@ + stats_text(
                    s.total(),
                ),
            }
        },
        Node::Checkpoint(i, j) => {
            let steps = a.review.sections[i as int].steps();
            let cp = steps[j as int];
            PaneLineView {
                text: "  "@ + (if j + 1 == steps.len() {
                    "└"@
                } else {
                    "├"@
                }) + " ["@ + cp.label + "] "@ + cp.shown_title() + "  "@,
                aside: stats_text(cp.stats),
            }
        },
    }
}

/// One row of the tree.
pub fn node_line(app: &App, node: Node) -> (r: PaneLine)
    requires
        app.deep_view().valid(),
        crate::tui::row_valid(
            app.deep_view().review.sections,
            app.deep_view().expanded,
            node,
            app.review.sections.len() as int,
        ),
    ensures
        r.deep_view() == node_line_of(app.deep_view(), node),
{
    let ghost a = app.deep_view();
    match node {
        Node::Section(i) => {
            let s: &ReviewSection = &app.review.sections[i];
            assert(a.review.sections[i as int] == s.deep_view());
            assert(a.expanded[i as int] == app.expanded@[i as int]);
            let arrow: &str = if app.expanded[i] {
                "▼"
            } else {
                "▶"
            };
            let cps: &Vec<ReviewCheckpoint> = s.checkpoints();
            assert(cps.deep_view().len() == cps.len());
            PaneLine {
                text: text::cat6(arrow, " [", &number(s.number()), "] ", &s.heading(), "  "),
                aside: text::cat3(
                    &count(cps.len(), "checkpoint"),
                    "  ",
                    &s.stats().to_string(),
                ),
            }
        },
        Node::Checkpoint(i, j) => {
            let s: &ReviewSection = &app.review.sections[i];
            assert(a.review.sections[i as int] == s.deep_view());
            let cps: &Vec<ReviewCheckpoint> = s.checkpoints();
            assert(cps.deep_view().len() == cps.len());
            let cp: &ReviewCheckpoint = &cps[j];
            assert(cps.deep_view()[j as int] == cp.deep_view());
            let branch: &str = if j == cps.len() - 1 {
                "└"
            } else {
                "├"
            };
            PaneLine {
                text: text::cat7(
                    "  ",
                    branch,
                    " [",
                    &cp.label,
                    "] ",
                    &cp.display_title(),
                    "  ",
                ),
                aside: cp.stats.to_string(),
            }
        },
    }
}

/// The title of the file list.
pub open spec fn files_title_text(a: AppView) -> Seq<char> {
    match a.node() {
        Some(Node::Section(i)) => " Files  ["@ + text::decimal(
            a.review.sections[i as int].at() as nat,
        ) + "] "@,
        Some(Node::Checkpoint(i, j)) => " Files  ["@
            + a.review.sections[i as int].steps()[j as int].label + "] "@,
        None => " Files "@,
    }
}

pub fn files_title(app: &App) -> (r: String)
    requires
        app.deep_view().valid(),
    ensures
        r@ == files_title_text(app.deep_view()),
{
    match app.current_node() {
        Some(Node::Section(i)) => {
            assert(app.deep_view().review.sections[i as int]
                == app.review.sections[i as int].deep_view());
            text::cat3(" Files  [", &number(app.review.sections[i].number()), "] ")
        },
        Some(Node::Checkpoint(i, j)) => {
            let s: &ReviewSection = &app.review.sections[i];
            assert(app.deep_view().review.sections[i as int] == s.deep_view());
            let cps: &Vec<ReviewCheckpoint> = s.checkpoints();
            assert(cps.deep_view()[j as int] == cps[j as int].deep_view());
            text::cat3(" Files  [", &cps[j].label, "] ")
        },
        None => " Files ".to_owned(),
    }
}

/// One row of the file list.
pub open spec fn file_line_of(row: FileRowView) -> PaneLineView {
    PaneLineView {
        text: row.mark + " "@ + row.name + "  "@,
        aside: row.stat + (match row.state {
            Some(s) => "  "@ + s,
            None => ""@,
        }),
    }
}

pub fn file_line(row: &FileRow) -> (r: PaneLine)
    ensures
        r.deep_view() == file_line_of(row.deep_view()),
{
    let state: String = match &row.state {
        Some(s) => text::cat2("  ", s),
        None => "".to_owned(),
    };
    PaneLine {
        text: text::cat4(&row.mark, " ", &row.name, "  "),
        aside: text::cat2(&row.stat, &state),
    }
}

pub fn diff_title(app: &App) -> (r: String)
    ensures
        r@ == (if app.deep_view().level == Level::Diff {
            " Diff  "@ + app.deep_view().diff_title + " "@
        } else {
            " Diff "@
        }),
{
    if app.level == Level::Diff {
        text::cat3(" Diff  ", &app.diff_title, " ")
    } else {
        " Diff ".to_owned()
    }
}

/// How a line of a diff is set off.
#[derive(Debug, Clone, Copy, PartialEq, Eq, Structural)]
pub enum Tone {
    Header,
    Added,
    Removed,
    Hunk,
    Plain,
}

pub open spec fn tone_of(line: Seq<char>) -> Tone {
    if "+++"@.is_prefix_of(line) || "---"@.is_prefix_of(line) {
        Tone::Header
    } else if "+"@.is_prefix_of(line) {
        Tone::Added
    } else if "-"@.is_prefix_of(line) {
        Tone::Removed
    } else if "@@"@.is_prefix_of(line) {
        Tone::Hunk
    } else if "diff --git"@.is_prefix_of(line) {
        Tone::Header
    } else {
        Tone::Plain
    }
}

/// How a line of a diff is set off.
pub fn tone(line: &str) -> (r: Tone)
    ensures
        r == tone_of(line@),
{
    if text::starts_with(line, "+++") || text::starts_with(line, "---") {
        Tone::Header
    } else if text::starts_with(line, "+") {
        Tone::Added
    } else if text::starts_with(line, "-") {
        Tone::Removed
    } else if text::starts_with(line, "@@") {
        Tone::Hunk
    } else if text::starts_with(line, "diff --git") {
        Tone::Header
    } else {
        Tone::Plain
    }
}

/// What the keys do at a level.
pub open spec fn hints_text(level: Level) -> Seq<char> {
    match level {
        Level::Development =>
            "j/k move  Enter expand/files  d diff  c commit diff  h/Esc collapse/back  q quit"@,
        Level::Files => "j/k move  Enter/d diff  o open  c commit diff  h/Esc back  q quit"@,
        Level::Diff => "j/k scroll  o open  c commit diff  h/Esc back  q quit"@,
    }
}

pub fn hints(level: Level) -> (r: &'static str)
    ensures
        r@ == hints_text(level),
{
    match level {
        Level::Development =>
            "j/k move  Enter expand/files  d diff  c commit diff  h/Esc collapse/back  q quit",
        Level::Files => "j/k move  Enter/d diff  o open  c commit diff  h/Esc back  q quit",
        Level::Diff => "j/k scroll  o open  c commit diff  h/Esc back  q quit",
    }
}

/// Where the user is, for a layout that shows one level at a time.
pub fn position(level: Level, wide: bool) -> (r: &'static str)
    ensures
        r@ == (if wide {
            ""@
        } else {
            match level {
                Level::Development => "Development  "@,
                Level::Files => "Development > Files  "@,
                Level::Diff => "Development > Files > Diff  "@,
            }
        }),
{
    if wide {
        ""
    } else {
        match level {
            Level::Development => "Development  ",
            Level::Files => "Development > Files  ",
            Level::Diff => "Development > Files > Diff  ",
        }
    }
}

} // verus!
