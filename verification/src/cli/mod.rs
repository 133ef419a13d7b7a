//! Command line surface: what was asked for, and what that amounts to.

pub mod commands;

use crate::data::Dup;
use vstd::prelude::*;

verus! {

/// Understand how your code changed, not just what changed.
#[derive(Debug, Clone, PartialEq, Eq)]
pub struct Cli {
    /// Base branch to compare against (default: main, master, then origin/HEAD)
    pub base: Option<String>,
    /// Start the trail at a baseline: push, upstream, base, auto or a revision
    pub since: Option<String>,
    /// Emit machine readable JSON instead of text
    pub json: bool,
    /// Run as if trail was started in this directory
    pub path: Option<String>,
    pub command: Option<Command>,
}

/// What to review.
#[derive(Debug, Clone, PartialEq, Eq)]
pub struct ReviewArgs {
    /// Section number (a commit or the working tree), checkpoint label
    /// (<section>.<n>), checkpoint id or commit id
    pub selector: Option<String>,
    /// File within the selection: prints the diff it made to that file
    pub file: Option<String>,
    /// Open the file as it was at the end of the selection in $VISUAL / $EDITOR
    pub open: bool,
    /// Browse commits, checkpoints, files and diffs interactively
    pub interactive: bool,
    /// Review one commit: its development path and its diff. A file may
    /// follow (`trail review --commit <rev> <file>`)
    pub commit: Option<String>,
    /// Review another worktree (id or branch), including removed ones
    pub worktree: Option<String>,
}

#[derive(Debug, Clone, PartialEq, Eq)]
pub enum Command {
    /// Show a compact summary of the current worktree
    Status,
    /// Show what changed since the last push (or upstream, or base)
    Changes,
    /// Review how the worktree came to be: commits, their checkpoints, diffs
    Review(ReviewArgs),
    /// Show the development trail in detail (commits, reflog, working tree)
    History {
        /// Only show the most recent N events
        limit: Option<usize>,
    },
    /// Show the diff against the base branch grouped by directory
    Diff,
    /// Record changes in this worktree until Ctrl+C
    Start {
        /// Stop automatically after N seconds (useful for scripts)
        stop_after: Option<u64>,
        /// Do not print events while recording
        quiet: bool,
    },
    /// List worktrees of the repository, including removed ones with history
    Worktrees,
    /// List raw recorded sessions (debugging; `trail worktrees` is the overview)
    Sessions,
    /// Edit checkpoint titles, notes, grouping and order in $VISUAL / $EDITOR
    Edit {
        /// Apply an already edited trail file instead of opening an editor
        from: Option<String>,
        /// Print the editable text to stdout and exit
        print: bool,
    },
    /// Open a file of the worktree in $VISUAL / $EDITOR
    Open {
        /// File path, relative to the current directory or the repository root
        file: String,
        /// Open the file as it was at a checkpoint (see `trail history` for ids)
        at: Option<String>,
        /// Write the content to stdout instead of opening an editor
        print: bool,
    },
    /// Show change information for a single file
    Inspect {
        /// File path, relative to the current directory or the repository root
        file: String,
    },
}

/// What a [`ReviewArgs`] denotes.
#[verifier::ext_equal]
pub struct ReviewArgsView {
    pub selector: Option<Seq<char>>,
    pub file: Option<Seq<char>>,
    pub open: bool,
    pub interactive: bool,
    pub commit: Option<Seq<char>>,
    pub worktree: Option<Seq<char>>,
}

impl DeepView for ReviewArgs {
    type V = ReviewArgsView;

    open spec fn deep_view(&self) -> ReviewArgsView {
        ReviewArgsView {
            selector: self.selector.deep_view(),
            file: self.file.deep_view(),
            open: self.open.deep_view(),
            interactive: self.interactive.deep_view(),
            commit: self.commit.deep_view(),
            worktree: self.worktree.deep_view(),
        }
    }
}

impl Dup for ReviewArgs {
    fn dup(&self) -> (r: ReviewArgs) {
        ReviewArgs {
            selector: self.selector.dup(),
            file: self.file.dup(),
            open: self.open.dup(),
            interactive: self.interactive.dup(),
            commit: self.commit.dup(),
            worktree: self.worktree.dup(),
        }
    }
}

/// What a [`Command`] denotes.
#[verifier::ext_equal]
pub enum CommandView {
    Status,
    Changes,
    Review(ReviewArgsView),
    History {
        limit: Option<usize>,
    },
    Diff,
    Start {
        stop_after: Option<u64>,
        quiet: bool,
    },
    Worktrees,
    Sessions,
    Edit {
        from: Option<Seq<char>>,
        print: bool,
    },
    Open {
        file: Seq<char>,
        at: Option<Seq<char>>,
        print: bool,
    },
    Inspect {
        file: Seq<char>,
    },
}

impl DeepView for Command {
    type V = CommandView;

    open spec fn deep_view(&self) -> CommandView {
        match *self {
            Command::Status => CommandView::Status,
            Command::Changes => CommandView::Changes,
            Command::Review(x) => CommandView::Review(x.deep_view()),
            Command::History { limit } => CommandView::History {
                limit: limit.deep_view(),
            },
            Command::Diff => CommandView::Diff,
            Command::Start { stop_after, quiet } => CommandView::Start {
                stop_after: stop_after.deep_view(),
                quiet: quiet.deep_view(),
            },
            Command::Worktrees => CommandView::Worktrees,
            Command::Sessions => CommandView::Sessions,
            Command::Edit { from, print } => CommandView::Edit {
                from: from.deep_view(),
                print: print.deep_view(),
            },
            Command::Open { file, at, print } => CommandView::Open {
                file: file.deep_view(),
                at: at.deep_view(),
                print: print.deep_view(),
            },
            Command::Inspect { file } => CommandView::Inspect {
                file: file.deep_view(),
            },
        }
    }
}

impl Dup for Command {
    fn dup(&self) -> (r: Command) {
        match self {
            Command::Status => Command::Status,
            Command::Changes => Command::Changes,
            Command::Review(x) => Command::Review(x.dup()),
            Command::History { limit } => Command::History {
                limit: limit.dup(),
            },
            Command::Diff => Command::Diff,
            Command::Start { stop_after, quiet } => Command::Start {
                stop_after: stop_after.dup(),
                quiet: quiet.dup(),
            },
            Command::Worktrees => Command::Worktrees,
            Command::Sessions => Command::Sessions,
            Command::Edit { from, print } => Command::Edit {
                from: from.dup(),
                print: print.dup(),
            },
            Command::Open { file, at, print } => Command::Open {
                file: file.dup(),
                at: at.dup(),
                print: print.dup(),
            },
            Command::Inspect { file } => Command::Inspect {
                file: file.dup(),
            },
        }
    }
}

/// What a [`Cli`] denotes.
#[verifier::ext_equal]
pub struct CliView {
    pub base: Option<Seq<char>>,
    pub since: Option<Seq<char>>,
    pub json: bool,
    pub path: Option<Seq<char>>,
    pub command: Option<CommandView>,
}

impl DeepView for Cli {
    type V = CliView;

    open spec fn deep_view(&self) -> CliView {
        CliView {
            base: self.base.deep_view(),
            since: self.since.deep_view(),
            json: self.json.deep_view(),
            path: self.path.deep_view(),
            command: self.command.deep_view(),
        }
    }
}

impl Dup for Cli {
    fn dup(&self) -> (r: Cli) {
        Cli {
            base: self.base.dup(),
            since: self.since.dup(),
            json: self.json.dup(),
            path: self.path.dup(),
            command: self.command.dup(),
        }
    }
}
} // verus!
