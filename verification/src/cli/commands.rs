//! What a command amounts to: the history it looks at, and what it does with
//! it.

use super::{Cli, CliView, Command, CommandView, ReviewArgs, ReviewArgsView};
use crate::data::Dup;
use crate::error::{outcome, TrailError, TrailErrorView};
use crate::git::baseline::{since_of, SinceSpec, SinceSpecView};
use crate::trail::builder::Scope;
use vstd::prelude::*;

verus! {

/// What a review shows.
#[derive(Debug, Clone, PartialEq, Eq)]
pub enum ReviewStep {
    /// Everything, interactively.
    Browse,
    /// Everything.
    All,
    /// One commit, by revision.
    Commit {
        rev: String,
    },
    /// The diff one commit made to a file.
    CommitFile {
        rev: String,
        file: String,
    },
    /// A file as it was committed.
    OpenCommitFile {
        rev: String,
        file: String,
    },
    /// What a selector names.
    Select {
        selector: String,
    },
    /// The diff of a file within what a selector names.
    SelectFile {
        selector: String,
        file: String,
    },
    /// A file at the end of what a selector names.
    OpenFile {
        selector: String,
        file: String,
    },
}

/// What a command does.
#[derive(Debug, Clone, PartialEq, Eq)]
pub enum Step {
    Record {
        stop_after: Option<u64>,
        quiet: bool,
    },
    Sessions,
    Worktrees,
    OpenFile {
        file: String,
        print: bool,
    },
    OpenAt {
        file: String,
        checkpoint: String,
        print: bool,
    },
    /// A review, as [`review_step`] says once there is something to review.
    Review(ReviewArgs),
    Changes,
    Edit {
        from: Option<String>,
        print: bool,
    },
    Trail,
    Status,
    History {
        limit: Option<usize>,
    },
    Diff,
    Inspect {
        file: String,
    },
}

/// What a command line amounts to. Recording, listing and opening the current
/// file look at no history, so they work without a base branch.
#[derive(Debug, Clone, PartialEq, Eq)]
pub struct Plan {
    /// Where the history it looks at starts.
    pub window: Option<SinceSpec>,
    pub step: Step,
}

/// What a [`ReviewStep`] denotes.
#[verifier::ext_equal]
pub enum ReviewStepView {
    Browse,
    All,
    Commit {
        rev: Seq<char>,
    },
    CommitFile {
        rev: Seq<char>,
        file: Seq<char>,
    },
    OpenCommitFile {
        rev: Seq<char>,
        file: Seq<char>,
    },
    Select {
        selector: Seq<char>,
    },
    SelectFile {
        selector: Seq<char>,
        file: Seq<char>,
    },
    OpenFile {
        selector: Seq<char>,
        file: Seq<char>,
    },
}

impl DeepView for ReviewStep {
    type V = ReviewStepView;

    open spec fn deep_view(&self) -> ReviewStepView {
        match *self {
            ReviewStep::Browse => ReviewStepView::Browse,
            ReviewStep::All => ReviewStepView::All,
            ReviewStep::Commit { rev } => ReviewStepView::Commit {
                rev: rev.deep_view(),
            },
            ReviewStep::CommitFile { rev, file } => ReviewStepView::CommitFile {
                rev: rev.deep_view(),
                file: file.deep_view(),
            },
            ReviewStep::OpenCommitFile { rev, file } => ReviewStepView::OpenCommitFile {
                rev: rev.deep_view(),
                file: file.deep_view(),
            },
            ReviewStep::Select { selector } => ReviewStepView::Select {
                selector: selector.deep_view(),
            },
            ReviewStep::SelectFile { selector, file } => ReviewStepView::SelectFile {
                selector: selector.deep_view(),
                file: file.deep_view(),
            },
            ReviewStep::OpenFile { selector, file } => ReviewStepView::OpenFile {
                selector: selector.deep_view(),
                file: file.deep_view(),
            },
        }
    }
}

impl Dup for ReviewStep {
    fn dup(&self) -> (r: ReviewStep) {
        match self {
            ReviewStep::Browse => ReviewStep::Browse,
            ReviewStep::All => ReviewStep::All,
            ReviewStep::Commit { rev } => ReviewStep::Commit {
                rev: rev.dup(),
            },
            ReviewStep::CommitFile { rev, file } => ReviewStep::CommitFile {
                rev: rev.dup(),
                file: file.dup(),
            },
            ReviewStep::OpenCommitFile { rev, file } => ReviewStep::OpenCommitFile {
                rev: rev.dup(),
                file: file.dup(),
            },
            ReviewStep::Select { selector } => ReviewStep::Select {
                selector: selector.dup(),
            },
            ReviewStep::SelectFile { selector, file } => ReviewStep::SelectFile {
                selector: selector.dup(),
                file: file.dup(),
            },
            ReviewStep::OpenFile { selector, file } => ReviewStep::OpenFile {
                selector: selector.dup(),
                file: file.dup(),
            },
        }
    }
}

/// What a [`Step`] denotes.
#[verifier::ext_equal]
pub enum StepView {
    Record {
        stop_after: Option<u64>,
        quiet: bool,
    },
    Sessions,
    Worktrees,
    OpenFile {
        file: Seq<char>,
        print: bool,
    },
    OpenAt {
        file: Seq<char>,
        checkpoint: Seq<char>,
        print: bool,
    },
    Review(ReviewArgsView),
    Changes,
    Edit {
        from: Option<Seq<char>>,
        print: bool,
    },
    Trail,
    Status,
    History {
        limit: Option<usize>,
    },
    Diff,
    Inspect {
        file: Seq<char>,
    },
}

impl DeepView for Step {
    type V = StepView;

    open spec fn deep_view(&self) -> StepView {
        match *self {
            Step::Record { stop_after, quiet } => StepView::Record {
                stop_after: stop_after.deep_view(),
                quiet: quiet.deep_view(),
            },
            Step::Sessions => StepView::Sessions,
            Step::Worktrees => StepView::Worktrees,
            Step::OpenFile { file, print } => StepView::OpenFile {
                file: file.deep_view(),
                print: print.deep_view(),
            },
            Step::OpenAt { file, checkpoint, print } => StepView::OpenAt {
                file: file.deep_view(),
                checkpoint: checkpoint.deep_view(),
                print: print.deep_view(),
            },
            Step::Review(args) => StepView::Review(args.deep_view()),
            Step::Changes => StepView::Changes,
            Step::Edit { from, print } => StepView::Edit {
                from: from.deep_view(),
                print: print.deep_view(),
            },
            Step::Trail => StepView::Trail,
            Step::Status => StepView::Status,
            Step::History { limit } => StepView::History {
                limit: limit.deep_view(),
            },
            Step::Diff => StepView::Diff,
            Step::Inspect { file } => StepView::Inspect {
                file: file.deep_view(),
            },
        }
    }
}

impl Dup for Step {
    fn dup(&self) -> (r: Step) {
        match self {
            Step::Record { stop_after, quiet } => Step::Record {
                stop_after: stop_after.dup(),
                quiet: quiet.dup(),
            },
            Step::Sessions => Step::Sessions,
            Step::Worktrees => Step::Worktrees,
            Step::OpenFile { file, print } => Step::OpenFile {
                file: file.dup(),
                print: print.dup(),
            },
            Step::OpenAt { file, checkpoint, print } => Step::OpenAt {
                file: file.dup(),
                checkpoint: checkpoint.dup(),
                print: print.dup(),
            },
            Step::Review(args) => Step::Review(args.dup()),
            Step::Changes => Step::Changes,
            Step::Edit { from, print } => Step::Edit {
                from: from.dup(),
                print: print.dup(),
            },
            Step::Trail => Step::Trail,
            Step::Status => Step::Status,
            Step::History { limit } => Step::History {
                limit: limit.dup(),
            },
            Step::Diff => Step::Diff,
            Step::Inspect { file } => Step::Inspect {
                file: file.dup(),
            },
        }
    }
}

/// What a [`Plan`] denotes.
#[verifier::ext_equal]
pub struct PlanView {
    pub window: Option<SinceSpecView>,
    pub step: StepView,
}

impl DeepView for Plan {
    type V = PlanView;

    open spec fn deep_view(&self) -> PlanView {
        PlanView {
            window: self.window.deep_view(),
            step: self.step.deep_view(),
        }
    }
}

impl Dup for Plan {
    fn dup(&self) -> (r: Plan) {
        Plan {
            window: self.window.dup(),
            step: self.step.dup(),
        }
    }
}

/// Where the history of a command starts: what `--since` says, or else the
/// command's own default.
pub open spec fn window_of(since: Option<Seq<char>>, default: SinceSpecView) -> SinceSpecView {
    match since {
        Some(_) => since_of(since),
        None => default,
    }
}

/// What a review shows. With `--commit` the only positional is the file.
pub open spec fn review_step_of(a: ReviewArgsView) -> Result<ReviewStepView, TrailErrorView> {
    if a.interactive {
        Ok(ReviewStepView::Browse)
    } else {
        match a.commit {
            Some(rev) => if a.selector is Some && a.file is Some {
                Err(
                    TrailErrorView::InvalidSelection(
                        "--commit takes a file, not a section selector"@,
                    ),
                )
            } else {
                let file = if a.selector is Some {
                    a.selector
                } else {
                    a.file
                };
                match file {
                    None => Ok(ReviewStepView::Commit { rev }),
                    Some(file) => if a.open {
                        Ok(ReviewStepView::OpenCommitFile { rev, file })
                    } else {
                        Ok(ReviewStepView::CommitFile { rev, file })
                    },
                }
            },
            None => match a.selector {
                None => Ok(ReviewStepView::All),
                Some(selector) => match a.file {
                    None => Ok(ReviewStepView::Select { selector }),
                    Some(file) => if a.open {
                        Ok(ReviewStepView::OpenFile { selector, file })
                    } else {
                        Ok(ReviewStepView::SelectFile { selector, file })
                    },
                },
            },
        }
    }
}

pub open spec fn based(cli: CliView, step: StepView) -> PlanView {
    PlanView { window: Some(window_of(cli.since, SinceSpecView::Base)), step }
}

pub open spec fn unwindowed(step: StepView) -> PlanView {
    PlanView { window: None, step }
}

/// What a command line amounts to. `trail changes` defaults to the last push;
/// everything else to the base branch.
pub open spec fn plan_of(cli: CliView) -> PlanView {
    match cli.command {
        Some(CommandView::Start { stop_after, quiet }) => unwindowed(
            StepView::Record { stop_after, quiet },
        ),
        Some(CommandView::Sessions) => unwindowed(StepView::Sessions),
        Some(CommandView::Worktrees) => unwindowed(StepView::Worktrees),
        Some(CommandView::Open { file, at, print }) => match at {
            None => unwindowed(StepView::OpenFile { file, print }),
            Some(checkpoint) => based(cli, StepView::OpenAt { file, checkpoint, print }),
        },
        Some(CommandView::Review(args)) => based(cli, StepView::Review(args)),
        Some(CommandView::Changes) => PlanView {
            window: Some(window_of(cli.since, SinceSpecView::Auto)),
            step: StepView::Changes,
        },
        Some(CommandView::Edit { from, print }) => based(cli, StepView::Edit { from, print }),
        None => based(cli, StepView::Trail),
        Some(CommandView::Status) => based(cli, StepView::Status),
        Some(CommandView::History { limit }) => based(cli, StepView::History { limit }),
        Some(CommandView::Diff) => based(cli, StepView::Diff),
        Some(CommandView::Inspect { file }) => based(cli, StepView::Inspect { file }),
    }
}

/// What a review shows. With `--commit` the only positional is the file.
pub fn review_step(a: &ReviewArgs) -> (r: Result<ReviewStep, TrailError>)
    ensures
        outcome(r) == review_step_of(a.deep_view()),
{
    if a.interactive {
        return Ok(ReviewStep::Browse);
    }
    match &a.commit {
        Some(rev) => {
            if a.selector.is_some() && a.file.is_some() {
                return Err(
                    TrailError::InvalidSelection(
                        "--commit takes a file, not a section selector".to_owned(),
                    ),
                );
            }
            let file: Option<String> = if a.selector.is_some() {
                a.selector.dup()
            } else {
                a.file.dup()
            };
            match file {
                None => Ok(ReviewStep::Commit { rev: rev.dup() }),
                Some(file) => if a.open {
                    Ok(ReviewStep::OpenCommitFile { rev: rev.dup(), file })
                } else {
                    Ok(ReviewStep::CommitFile { rev: rev.dup(), file })
                },
            }
        },
        None => match &a.selector {
            None => Ok(ReviewStep::All),
            Some(selector) => match &a.file {
                None => Ok(ReviewStep::Select { selector: selector.dup() }),
                Some(file) => if a.open {
                    Ok(ReviewStep::OpenFile { selector: selector.dup(), file: file.dup() })
                } else {
                    Ok(ReviewStep::SelectFile { selector: selector.dup(), file: file.dup() })
                },
            },
        },
    }
}

fn window(cli: &Cli, default: SinceSpec) -> (r: SinceSpec)
    ensures
        r.deep_view() == window_of(cli.deep_view().since, default.deep_view()),
{
    match &cli.since {
        Some(value) => SinceSpec::parse(Some(value.as_str())),
        None => default,
    }
}

fn from_base(cli: &Cli, step: Step) -> (r: Plan)
    ensures
        r.deep_view() == based(cli.deep_view(), step.deep_view()),
{
    Plan { window: Some(window(cli, SinceSpec::Base)), step }
}

/// What a command line amounts to.
pub fn dispatch(cli: &Cli) -> (r: Plan)
    ensures
        r.deep_view() == plan_of(cli.deep_view()),
{
    match &cli.command {
        Some(Command::Start { stop_after, quiet }) => Plan {
            window: None,
            step: Step::Record { stop_after: *stop_after, quiet: *quiet },
        },
        Some(Command::Sessions) => Plan { window: None, step: Step::Sessions },
        Some(Command::Worktrees) => Plan { window: None, step: Step::Worktrees },
        Some(Command::Open { file, at, print }) => match at {
            None => Plan {
                window: None,
                step: Step::OpenFile { file: file.dup(), print: *print },
            },
            Some(checkpoint) => from_base(
                cli,
                Step::OpenAt {
                    file: file.dup(),
                    checkpoint: checkpoint.dup(),
                    print: *print,
                },
            ),
        },
        Some(Command::Review(args)) => from_base(cli, Step::Review(args.dup())),
        Some(Command::Changes) => Plan {
            window: Some(window(cli, SinceSpec::Auto)),
            step: Step::Changes,
        },
        Some(Command::Edit { from, print }) => from_base(
            cli,
            Step::Edit { from: from.dup(), print: *print },
        ),
        None => from_base(cli, Step::Trail),
        Some(Command::Status) => from_base(cli, Step::Status),
        Some(Command::History { limit }) => from_base(cli, Step::History { limit: *limit }),
        Some(Command::Diff) => from_base(cli, Step::Diff),
        Some(Command::Inspect { file }) => from_base(cli, Step::Inspect { file: file.dup() }),
    }
}

/// How much history a step shows.
pub fn scope_of(step: &Step) -> (r: Scope)
    ensures
        r == (if step.deep_view() is History {
            Scope::Detailed
        } else {
            Scope::Overview
        }),
{
    match step {
        Step::History { limit: _ } => Scope::Detailed,
        _ => Scope::Overview,
    }
}

/// Recording, listing and opening the current file need no base branch; every
/// other command looks at a window of history.
pub proof fn lemma_windows(cli: CliView)
    ensures
        ({
            let plan = plan_of(cli);
            plan.window is None <==> (plan.step is Record || plan.step is Sessions
                || plan.step is Worktrees || plan.step is OpenFile)
        }),
{
}

/// A command that looks at a window of history starts where `--since` says, and
/// otherwise at the base branch; only `changes` starts at the last push if there
/// is one.
pub proof fn lemma_where_commands_start(cli: CliView)
    ensures
        ({
            let plan = plan_of(cli);
            plan.window is Some ==> {
                &&& cli.since is Some ==> plan.window == Some(since_of(cli.since))
                &&& cli.since is None && cli.command != Some(CommandView::Changes)
                    ==> plan.window == Some(SinceSpecView::Base)
                &&& cli.since is None && cli.command == Some(CommandView::Changes)
                    ==> plan.window == Some(SinceSpecView::Auto)
            }
        }),
        cli.command is None ==> plan_of(cli).step is Trail,
        cli.command == Some(CommandView::Status) ==> plan_of(cli).step is Status,
        cli.command == Some(CommandView::Diff) ==> plan_of(cli).step is Diff,
        cli.command == Some(CommandView::Changes) ==> plan_of(cli).step is Changes,
        cli.command == Some(CommandView::Sessions) ==> plan_of(cli).step is Sessions,
        cli.command == Some(CommandView::Worktrees) ==> plan_of(cli).step is Worktrees,
{
}

/// A review is browsed if that is asked for. Otherwise a commit is named by
/// `--commit` or by a selector, and a file of it by what is left; a selector and
/// a file are too much with `--commit`.
pub proof fn lemma_what_a_review_command_shows(a: ReviewArgsView)
    ensures
        ({
            let r = review_step_of(a);
            &&& a.interactive ==> r == Ok::<_, TrailErrorView>(ReviewStepView::Browse)
            &&& r is Err <==> !a.interactive && a.commit is Some && a.selector is Some
                && a.file is Some
            &&& !a.interactive && a.commit is None ==> match (a.selector, a.file) {
                (None, _) => r == Ok::<_, TrailErrorView>(ReviewStepView::All),
                (Some(selector), None) => r == Ok::<_, TrailErrorView>(
                    ReviewStepView::Select { selector },
                ),
                (Some(selector), Some(file)) => if a.open {
                    r == Ok::<_, TrailErrorView>(ReviewStepView::OpenFile { selector, file })
                } else {
                    r == Ok::<_, TrailErrorView>(ReviewStepView::SelectFile { selector, file })
                },
            }
            &&& !a.interactive && a.commit is Some && a.selector is None && a.file is None ==> r
                == Ok::<_, TrailErrorView>(ReviewStepView::Commit { rev: a.commit->Some_0 })
            &&& !a.interactive && a.commit is Some && (a.selector is None) != (a.file is None) ==> {
                let rev = a.commit->Some_0;
                let file = if a.file is Some {
                    a.file->Some_0
                } else {
                    a.selector->Some_0
                };
                if a.open {
                    r == Ok::<_, TrailErrorView>(ReviewStepView::OpenCommitFile { rev, file })
                } else {
                    r == Ok::<_, TrailErrorView>(ReviewStepView::CommitFile { rev, file })
                }
            }
        }),
{
}

} // verus!
