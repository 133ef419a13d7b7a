//! Error type shared by every layer of `trail`.
//!
//! Every variant maps to a situation a user can understand and act on. Lower
//! level failures (I/O, git) are kept as text so the message stays short.

use crate::data::Dup;
use crate::text;
use vstd::prelude::*;

verus! {

#[derive(Debug, Clone, PartialEq, Eq)]
pub enum TrailError {
    NotARepository(String),
    PermissionDenied(String),
    BareRepository(String),
    EmptyRepository,
    BaseBranchNotFound(String),
    NoBaseBranch,
    NoMergeBase {
        base: String,
        shallow: bool,
    },
    WorktreeUnavailable(String),
    FileNotFound(String),
    NoEditor,
    EditorFailed(String),
    InvalidEdit(String),
    NoBaseline(String),
    InvalidSelection(String),
    NotATerminal,
    SnapshotUnavailable(String),
    GitCommand {
        command: String,
        stderr: String,
    },
    GitNotInstalled,
    Git(String),
    Io(String),
}

/// What a [`TrailError`] denotes.
#[verifier::ext_equal]
pub enum TrailErrorView {
    NotARepository(Seq<char>),
    PermissionDenied(Seq<char>),
    BareRepository(Seq<char>),
    EmptyRepository,
    BaseBranchNotFound(Seq<char>),
    NoBaseBranch,
    NoMergeBase {
        base: Seq<char>,
        shallow: bool,
    },
    WorktreeUnavailable(Seq<char>),
    FileNotFound(Seq<char>),
    NoEditor,
    EditorFailed(Seq<char>),
    InvalidEdit(Seq<char>),
    NoBaseline(Seq<char>),
    InvalidSelection(Seq<char>),
    NotATerminal,
    SnapshotUnavailable(Seq<char>),
    GitCommand {
        command: Seq<char>,
        stderr: Seq<char>,
    },
    GitNotInstalled,
    Git(Seq<char>),
    Io(Seq<char>),
}

impl DeepView for TrailError {
    type V = TrailErrorView;

    open spec fn deep_view(&self) -> TrailErrorView {
        match *self {
            TrailError::NotARepository(x) => TrailErrorView::NotARepository(x.deep_view()),
            TrailError::PermissionDenied(x) => TrailErrorView::PermissionDenied(x.deep_view()),
            TrailError::BareRepository(x) => TrailErrorView::BareRepository(x.deep_view()),
            TrailError::EmptyRepository => TrailErrorView::EmptyRepository,
            TrailError::BaseBranchNotFound(x) => TrailErrorView::BaseBranchNotFound(x.deep_view()),
            TrailError::NoBaseBranch => TrailErrorView::NoBaseBranch,
            TrailError::NoMergeBase { base, shallow } => TrailErrorView::NoMergeBase {
                base: base.deep_view(),
                shallow: shallow.deep_view(),
            },
            TrailError::WorktreeUnavailable(x) => TrailErrorView::WorktreeUnavailable(x.deep_view()),
            TrailError::FileNotFound(x) => TrailErrorView::FileNotFound(x.deep_view()),
            TrailError::NoEditor => TrailErrorView::NoEditor,
            TrailError::EditorFailed(x) => TrailErrorView::EditorFailed(x.deep_view()),
            TrailError::InvalidEdit(x) => TrailErrorView::InvalidEdit(x.deep_view()),
            TrailError::NoBaseline(x) => TrailErrorView::NoBaseline(x.deep_view()),
            TrailError::InvalidSelection(x) => TrailErrorView::InvalidSelection(x.deep_view()),
            TrailError::NotATerminal => TrailErrorView::NotATerminal,
            TrailError::SnapshotUnavailable(x) => TrailErrorView::SnapshotUnavailable(x.deep_view()),
            TrailError::GitCommand { command, stderr } => TrailErrorView::GitCommand {
                command: command.deep_view(),
                stderr: stderr.deep_view(),
            },
            TrailError::GitNotInstalled => TrailErrorView::GitNotInstalled,
            TrailError::Git(x) => TrailErrorView::Git(x.deep_view()),
            TrailError::Io(x) => TrailErrorView::Io(x.deep_view()),
        }
    }
}

impl Dup for TrailError {
    fn dup(&self) -> (r: TrailError) {
        match self {
            TrailError::NotARepository(x) => TrailError::NotARepository(x.dup()),
            TrailError::PermissionDenied(x) => TrailError::PermissionDenied(x.dup()),
            TrailError::BareRepository(x) => TrailError::BareRepository(x.dup()),
            TrailError::EmptyRepository => TrailError::EmptyRepository,
            TrailError::BaseBranchNotFound(x) => TrailError::BaseBranchNotFound(x.dup()),
            TrailError::NoBaseBranch => TrailError::NoBaseBranch,
            TrailError::NoMergeBase { base, shallow } => TrailError::NoMergeBase {
                base: base.dup(),
                shallow: shallow.dup(),
            },
            TrailError::WorktreeUnavailable(x) => TrailError::WorktreeUnavailable(x.dup()),
            TrailError::FileNotFound(x) => TrailError::FileNotFound(x.dup()),
            TrailError::NoEditor => TrailError::NoEditor,
            TrailError::EditorFailed(x) => TrailError::EditorFailed(x.dup()),
            TrailError::InvalidEdit(x) => TrailError::InvalidEdit(x.dup()),
            TrailError::NoBaseline(x) => TrailError::NoBaseline(x.dup()),
            TrailError::InvalidSelection(x) => TrailError::InvalidSelection(x.dup()),
            TrailError::NotATerminal => TrailError::NotATerminal,
            TrailError::SnapshotUnavailable(x) => TrailError::SnapshotUnavailable(x.dup()),
            TrailError::GitCommand { command, stderr } => TrailError::GitCommand {
                command: command.dup(),
                stderr: stderr.dup(),
            },
            TrailError::GitNotInstalled => TrailError::GitNotInstalled,
            TrailError::Git(x) => TrailError::Git(x.dup()),
            TrailError::Io(x) => TrailError::Io(x.dup()),
        }
    }
}

/// What a fallible result denotes.
pub open spec fn outcome<T: DeepView>(r: Result<T, TrailError>) -> Result<T::V, TrailErrorView> {
    match r {
        Ok(x) => Ok(x.deep_view()),
        Err(e) => Err(e.deep_view()),
    }
}

/// The message shown to the user.
pub open spec fn message(e: TrailErrorView) -> Seq<char> {
    match e {
        TrailErrorView::NotARepository(p) => p
            + " is not inside a Git repository\n  hint: run trail from within a repository or worktree, or pass -C <path>"@,
        TrailErrorView::PermissionDenied(p) => "permission denied while reading "@ + p,
        TrailErrorView::BareRepository(p) => p
            + " is a bare repository; trail needs a working tree\n  hint: run trail inside a worktree of this repository"@,
        TrailErrorView::EmptyRepository =>
            "repository has no commits yet\n  hint: create the first commit, then run trail again"@,
        TrailErrorView::BaseBranchNotFound(b) => "base branch '"@ + b
            + "' was not found\n  hint: pass --base <branch> (a local branch or origin/<branch>)"@,
        TrailErrorView::NoBaseBranch =>
            "could not detect a base branch (tried main, master and origin/HEAD)\n  hint: pass --base <branch>"@,
        TrailErrorView::NoMergeBase { base, shallow } => "no common ancestor between HEAD and '"@
            + base + "'"@ + (if shallow {
            " (the repository is a shallow clone, history may be truncated)"@
        } else {
            ""@
        })
            + "\n  hint: pass --base <branch> that shares history with the current branch"@,
        TrailErrorView::WorktreeUnavailable(m) => "worktree information is unavailable: "@ + m,
        TrailErrorView::FileNotFound(p) => p
            + " is not tracked and does not exist in the working tree"@,
        TrailErrorView::NoEditor =>
            "no editor configured\n  hint: set $VISUAL or $EDITOR (for example: export EDITOR=nvim)"@,
        TrailErrorView::EditorFailed(m) => "editor failed: "@ + m
            + "\n  no changes were applied"@,
        TrailErrorView::InvalidEdit(m) => "invalid trail edit: "@ + m
            + "\n  no changes were applied"@,
        TrailErrorView::NoBaseline(m) => "cannot resolve baseline: "@ + m
            + "\n  hint: --since accepts push, upstream, base, auto or a revision"@,
        TrailErrorView::InvalidSelection(m) => m,
        TrailErrorView::NotATerminal =>
            "interactive review needs a terminal\n  hint: run `trail review -i` directly, not through a pipe; `trail review` prints text"@,
        TrailErrorView::SnapshotUnavailable(m) => "snapshot unavailable: "@ + m,
        TrailErrorView::GitCommand { command, stderr } => "git "@ + command + " failed: "@ + stderr,
        TrailErrorView::GitNotInstalled =>
            "git executable not found\n  hint: install git and make sure it is on PATH"@,
        TrailErrorView::Git(m) => "git error: "@ + m,
        TrailErrorView::Io(m) => m,
    }
}

impl TrailError {
    /// Map an I/O error to the most specific variant there is: `denied` says
    /// whether permission was denied, `message` is what the system reported.
    pub fn from_io(denied: bool, message: &str, path: &str) -> (r: TrailError)
        ensures
            r.deep_view() == (if denied {
                TrailErrorView::PermissionDenied(path@)
            } else {
                TrailErrorView::Io(message@)
            }),
    {
        if denied {
            TrailError::PermissionDenied(path.to_owned())
        } else {
            TrailError::Io(message.to_owned())
        }
    }

    /// The message shown to the user.
    pub fn to_string(&self) -> (r: String)
        ensures
            r@ == message(self.deep_view()),
    {
        match self {
            TrailError::NotARepository(p) => text::cat2(
                p,
                " is not inside a Git repository\n  hint: run trail from within a repository or worktree, or pass -C <path>",
            ),
            TrailError::PermissionDenied(p) => text::cat2("permission denied while reading ", p),
            TrailError::BareRepository(p) => text::cat2(
                p,
                " is a bare repository; trail needs a working tree\n  hint: run trail inside a worktree of this repository",
            ),
            TrailError::EmptyRepository =>
                "repository has no commits yet\n  hint: create the first commit, then run trail again".to_owned(),
            TrailError::BaseBranchNotFound(b) => text::cat3(
                "base branch '",
                b,
                "' was not found\n  hint: pass --base <branch> (a local branch or origin/<branch>)",
            ),
            TrailError::NoBaseBranch =>
                "could not detect a base branch (tried main, master and origin/HEAD)\n  hint: pass --base <branch>".to_owned(),
            TrailError::NoMergeBase { base, shallow } => {
                let mut out: String = text::cat3("no common ancestor between HEAD and '", base, "'");
                out.append(
                    if *shallow {
                        " (the repository is a shallow clone, history may be truncated)"
                    } else {
                        ""
                    },
                );
                out.append(
                    "\n  hint: pass --base <branch> that shares history with the current branch",
                );
                out
            },
            TrailError::WorktreeUnavailable(m) => text::cat2("worktree information is unavailable: ", m),
            TrailError::FileNotFound(p) => text::cat2(
                p,
                " is not tracked and does not exist in the working tree",
            ),
            TrailError::NoEditor =>
                "no editor configured\n  hint: set $VISUAL or $EDITOR (for example: export EDITOR=nvim)".to_owned(),
            TrailError::EditorFailed(m) => text::cat3(
                "editor failed: ",
                m,
                "\n  no changes were applied",
            ),
            TrailError::InvalidEdit(m) => text::cat3(
                "invalid trail edit: ",
                m,
                "\n  no changes were applied",
            ),
            TrailError::NoBaseline(m) => text::cat3(
                "cannot resolve baseline: ",
                m,
                "\n  hint: --since accepts push, upstream, base, auto or a revision",
            ),
            TrailError::InvalidSelection(m) => m.clone(),
            TrailError::NotATerminal =>
                "interactive review needs a terminal\n  hint: run `trail review -i` directly, not through a pipe; `trail review` prints text".to_owned(),
            TrailError::SnapshotUnavailable(m) => text::cat2("snapshot unavailable: ", m),
            TrailError::GitCommand { command, stderr } => {
                let mut out: String = text::cat3("git ", command, " failed: ");
                out.append(stderr);
                out
            },
            TrailError::GitNotInstalled =>
                "git executable not found\n  hint: install git and make sure it is on PATH".to_owned(),
            TrailError::Git(m) => text::cat2("git error: ", m),
            TrailError::Io(m) => m.clone(),
        }
    }
}

} // verus!
