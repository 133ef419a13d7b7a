//! Text, paths, times, orders, maps, errors and what the command line asks for.

use trail::cli::commands::{dispatch, review_step, scope_of, ReviewStep, Step};
use trail::cli::{Cli, Command, ReviewArgs};
use trail::display::plural;
use trail::display::terminal::{baseline_text, Style};
use trail::error::TrailError;
use trail::git::baseline::{Baseline, BaselineKind, SinceSpec};
use trail::map::{PathMap, TextMap};
use trail::order::{sort, ByPath, ByText};
use trail::path;
use trail::text;
use trail::time::{stamp, Timestamp, Zone};
use trail::trail::builder::Scope;

#[test]
fn text_is_cut_and_joined() {
    assert_eq!(text::trim_of("  a b \u{3000}"), "a b");
    assert_eq!(text::split_of("a,,b", ','), vec!["a", "", "b"]);
    assert_eq!(text::splitn_of("a b c", 2, ' '), vec!["a", "b c"]);
    assert_eq!(text::split_once_of("k=v=w", '='), Some(("k", "v=w")));
    assert_eq!(text::split_once_text_of("a: b: c", ": "), Some(("a", "b: c")));
    assert_eq!(text::lines_of("a\r\nb\n\nc"), vec!["a", "b", "", "c"]);
    assert_eq!(
        text::join_of(&vec!["a".to_string(), "b".to_string()], ", "),
        "a, b"
    );
    assert!(text::contains("permission denied", "denied"));
    assert_eq!(text::strip_prefix_of("./a", "./"), Some("a"));
    assert_eq!(text::strip_suffix_of("a]", "]"), Some("a"));
}

#[test]
fn numbers_are_written_and_read() {
    assert_eq!(text::decimal_of(0), "0");
    assert_eq!(text::decimal_of(u64::MAX), u64::MAX.to_string());
    assert_eq!(text::parse_number("18446744073709551615"), Some(u64::MAX));
    assert_eq!(text::parse_number("18446744073709551616"), None);
    assert_eq!(text::parse_number(""), None);
    assert_eq!(text::parse_number("1x"), None);
    assert_eq!(text::parse_integer("-9223372036854775808"), Some(i64::MIN));
    assert_eq!(text::parse_integer("9223372036854775808"), None);
}

#[test]
fn paths_are_compared_by_their_components() {
    assert!(path::same("a//b/", "a/b"));
    assert!(path::same("a/./b", "a/b"));
    assert!(!path::same("./a", "a"));
    assert!(path::before("a/b", "a-b"));
    assert_eq!(path::join("/r", "a"), "/r/a");
    assert_eq!(path::join("/r", "/a"), "/a");
    assert_eq!(path::normalize("/a/../b/./c"), "/b/c");
    assert_eq!(path::normalize("/.."), "/");
    assert_eq!(
        path::normalize(&path::normalize("x/../../y")),
        path::normalize("x/../../y")
    );
    assert_eq!(path::file_name_of("a/b.rs").as_deref(), Some("b.rs"));
    assert_eq!(path::extension_of("a/b.rs").as_deref(), Some("rs"));
    assert_eq!(path::extension_of(".hidden"), None);
    assert_eq!(path::parent_of("a/b").as_deref(), Some("a"));
    assert!(path::lies_below("/r/a", "/r"));
    assert!(!path::lies_below("/rest", "/r"));
    assert_eq!(path::strip("/r", "/r/a/b"), "a/b");
    assert_eq!(path::relative_to("/r", "/r/src", "lib.rs"), "src/lib.rs");
    assert_eq!(
        path::count_distinct(&vec!["a/b".to_string(), "a//b".to_string(), "c".to_string()]),
        2
    );
}

#[test]
fn times_are_shown_in_a_zone() {
    let t = Timestamp::new(1_700_000_000, 5);
    let tokyo = Zone {
        offsets: vec![(0, 32_400)],
    };
    assert_eq!(tokyo.local(&t).clock(), "07:13");
    assert_eq!(tokyo.local(&t).clock_seconds(), "07:13:20");
    assert_eq!(tokyo.local(&t).date(), "2023-11-15");
    assert_eq!(stamp(&t), "20231114-221320");
    assert!(t.before(&Timestamp::new(1_700_000_000, 6)));
    assert_eq!(t.later(&Timestamp::new(0, 0)), t);
    assert_eq!(t.until(&Timestamp::new(1_700_000_001, 4)), 999_999_999);
    assert_eq!(Timestamp::from_secs(i64::MAX), None);
    assert_eq!(Timestamp::from_secs(-8_334_601_228_801), None);
    assert!(Timestamp::from_secs(-8_334_601_228_800).is_some());
    assert!(Timestamp::from_secs(8_210_266_876_799).is_some());
    assert_eq!(Timestamp::from_secs(8_210_266_876_800), None);
    assert_eq!(Timestamp::from_secs_or_epoch(i64::MAX), Timestamp::new(0, 0));
    assert_eq!(Timestamp::from_secs(7), Some(Timestamp::new(7, 0)));
}

#[test]
fn a_zone_changes_its_offset_over_time() {
    let zone = Zone {
        offsets: vec![(0, 3600), (1_000, 7200)],
    };
    assert_eq!(zone.local(&Timestamp::new(999, 0)).clock(), "01:16");
    assert_eq!(zone.local(&Timestamp::new(1_000, 0)).clock(), "02:16");
}

#[test]
fn sorting_is_stable_and_loses_nothing() {
    let v = |xs: &[&str]| xs.iter().map(|x| x.to_string()).collect::<Vec<String>>();
    assert_eq!(
        sort::<String, ByText>(v(&["b", "a", "b"])),
        v(&["a", "b", "b"])
    );
    assert_eq!(
        sort::<String, ByPath>(v(&["a-b", "a//b", "a/b"])),
        v(&["a//b", "a/b", "a-b"])
    );
}

#[test]
fn maps_keep_one_value_per_key() {
    let mut m: TextMap<u64> = TextMap::new();
    assert!(m.is_empty());
    m.insert("a".to_string(), 1);
    m.insert("a".to_string(), 2);
    assert_eq!(m.get("a"), Some(&2));
    assert_eq!(m.entries().len(), 1);
    m.remove("a");
    assert_eq!(m.get("a"), None);
    let mut p = PathMap::from_entries(vec![("a//b".to_string(), 1u64)]);
    assert_eq!(p.get("a/b"), Some(&1));
    p.insert("a/b".to_string(), 3);
    assert_eq!(p.get("a//b"), Some(&3));
}

#[test]
fn errors_say_what_to_do() {
    let cases: Vec<(TrailError, &str)> = vec![
        (
            TrailError::NotARepository("/x".into()),
            "/x is not inside a Git repository\n  hint: run trail from within a repository or worktree, or pass -C <path>",
        ),
        (
            TrailError::PermissionDenied("/x".into()),
            "permission denied while reading /x",
        ),
        (
            TrailError::BareRepository("/x".into()),
            "/x is a bare repository; trail needs a working tree\n  hint: run trail inside a worktree of this repository",
        ),
        (
            TrailError::EmptyRepository,
            "repository has no commits yet\n  hint: create the first commit, then run trail again",
        ),
        (
            TrailError::NoBaseBranch,
            "could not detect a base branch (tried main, master and origin/HEAD)\n  hint: pass --base <branch>",
        ),
        (
            TrailError::NoMergeBase {
                base: "main".into(),
                shallow: false,
            },
            "no common ancestor between HEAD and 'main'\n  hint: pass --base <branch> that shares history with the current branch",
        ),
        (
            TrailError::FileNotFound("a".into()),
            "a is not tracked and does not exist in the working tree",
        ),
        (
            TrailError::NoEditor,
            "no editor configured\n  hint: set $VISUAL or $EDITOR (for example: export EDITOR=nvim)",
        ),
        (
            TrailError::NotATerminal,
            "interactive review needs a terminal\n  hint: run `trail review -i` directly, not through a pipe; `trail review` prints text",
        ),
        (
            TrailError::GitNotInstalled,
            "git executable not found\n  hint: install git and make sure it is on PATH",
        ),
        (TrailError::Io("broken".into()), "broken"),
        (
            TrailError::from_io(true, "denied", "/x"),
            "permission denied while reading /x",
        ),
        (TrailError::from_io(false, "broken", "/x"), "broken"),
    ];
    for (e, text) in cases {
        assert_eq!(e.to_string(), text);
    }
}

#[test]
fn styles_are_only_used_on_terminals() {
    assert!(Style::detect(true, false, false).enabled);
    assert!(!Style::detect(false, false, false).enabled);
    assert!(!Style::detect(true, true, false).enabled);
    assert!(!Style::detect(true, false, true).enabled);
    assert_eq!(Style { enabled: true }.bold("x"), "\u{1b}[1mx\u{1b}[0m");
    assert_eq!(Style { enabled: false }.dim("x"), "x");
    assert_eq!((plural(0), plural(1), plural(2)), ("s", "", "s"));
}

#[test]
fn baselines_are_described() {
    let mut b = Baseline {
        kind: BaselineKind::LastPush,
        label: "last push to origin/feature".into(),
        commit: "c".into(),
        start: "c".into(),
        short_commit: "ccccccc".into(),
        short_start: "ccccccc".into(),
        explicit: true,
    };
    assert_eq!(baseline_text(&b), "last push to origin/feature (ccccccc)");
    b.start = "a".into();
    b.short_start = "aaaaaaa".into();
    assert_eq!(
        baseline_text(&b),
        "last push to origin/feature (ccccccc, common ancestor aaaaaaa)"
    );
}

fn cli(command: Option<Command>) -> Cli {
    Cli {
        base: None,
        since: None,
        json: false,
        path: None,
        command,
    }
}

#[test]
fn commands_look_at_their_window() {
    let plan = dispatch(&cli(None));
    assert_eq!((plan.window, plan.step), (Some(SinceSpec::Base), Step::Trail));
    let plan = dispatch(&cli(Some(Command::Changes)));
    assert_eq!(plan.window, Some(SinceSpec::Auto));
    let mut asked = cli(Some(Command::Changes));
    asked.since = Some("push".into());
    assert_eq!(dispatch(&asked).window, Some(SinceSpec::Push));
    for command in [
        Command::Sessions,
        Command::Worktrees,
        Command::Start {
            stop_after: None,
            quiet: true,
        },
        Command::Open {
            file: "a".into(),
            at: None,
            print: false,
        },
    ] {
        assert_eq!(dispatch(&cli(Some(command))).window, None);
    }
    assert_eq!(scope_of(&Step::History { limit: None }), Scope::Detailed);
    assert_eq!(scope_of(&Step::Trail), Scope::Overview);
}

fn review(selector: Option<&str>, file: Option<&str>) -> ReviewArgs {
    ReviewArgs {
        selector: selector.map(String::from),
        file: file.map(String::from),
        open: false,
        interactive: false,
        commit: None,
        worktree: None,
    }
}

fn reviewed(args: ReviewArgs) -> Result<ReviewStep, TrailError> {
    match dispatch(&cli(Some(Command::Review(args)))).step {
        Step::Review(args) => review_step(&args),
        other => panic!("{other:?}"),
    }
}

#[test]
fn what_to_review() {
    assert_eq!(reviewed(review(None, None)), Ok(ReviewStep::All));
    assert_eq!(
        reviewed(review(Some("2"), None)),
        Ok(ReviewStep::Select {
            selector: "2".into()
        })
    );
    assert_eq!(
        reviewed(review(Some("2"), Some("a.rs"))),
        Ok(ReviewStep::SelectFile {
            selector: "2".into(),
            file: "a.rs".into()
        })
    );
    let mut args = review(Some("2"), Some("a.rs"));
    args.open = true;
    assert_eq!(
        reviewed(args.clone()),
        Ok(ReviewStep::OpenFile {
            selector: "2".into(),
            file: "a.rs".into()
        })
    );
    args.interactive = true;
    assert_eq!(reviewed(args), Ok(ReviewStep::Browse));
    // With a commit, the only positional is the file.
    let mut args = review(Some("a.rs"), None);
    args.commit = Some("abc".into());
    assert_eq!(
        reviewed(args.clone()),
        Ok(ReviewStep::CommitFile {
            rev: "abc".into(),
            file: "a.rs".into()
        })
    );
    args.file = Some("b.rs".into());
    assert_eq!(
        reviewed(args).unwrap_err().to_string(),
        "--commit takes a file, not a section selector"
    );
    let mut args = review(None, None);
    args.commit = Some("abc".into());
    assert_eq!(
        reviewed(args),
        Ok(ReviewStep::Commit { rev: "abc".into() })
    );
}
