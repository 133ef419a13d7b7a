//! Launching the user's editor.

use trail::edit::editor::{from_words, Editor};
use trail::error::TrailError;

#[test]
fn parses_quoted_arguments() {
    let e = Editor::parse(r#"nvim --cmd "set signcolumn=no" -f"#, "EDITOR")
        .unwrap()
        .unwrap();
    assert_eq!(e.program, "nvim");
    assert_eq!(e.args, vec!["--cmd", "set signcolumn=no", "-f"]);
    let e = Editor::parse("code --wait", "VISUAL").unwrap().unwrap();
    assert_eq!(e.args, vec!["--wait"]);
    assert!(Editor::parse("   ", "EDITOR").unwrap().is_none());
    assert!(Editor::parse(r#"nvim --cmd "unbalanced"#, "EDITOR").is_err());
}

#[test]
fn unbalanced_quotes_are_reported_with_the_variable_and_its_value() {
    let e = Editor::parse("vi \"a", "EDITOR").unwrap_err();
    assert_eq!(
        e.to_string(),
        "editor failed: cannot parse $EDITOR=\"vi \\\"a\": missing closing quote\n  no changes were applied"
    );
}

#[test]
fn words_make_an_editor() {
    assert_eq!(from_words(Vec::new()), None);
    let e = from_words(vec!["vi".to_string(), "-f".to_string()]).unwrap();
    assert_eq!(e.describe(), "vi -f");
    assert_eq!(
        e.cannot_run("no such file").to_string(),
        "editor failed: cannot run vi -f: no such file\n  no changes were applied"
    );
    assert_eq!(
        e.exited_with("exit status: 1").to_string(),
        "editor failed: vi -f exited with exit status: 1\n  no changes were applied"
    );
}

#[test]
fn visual_wins_over_editor_and_the_fallback_comes_last() {
    let e = Editor::resolve(Some("code --wait"), Some("nano"), "vi", true).unwrap();
    assert_eq!(e.program, "code");
    let e = Editor::resolve(Some("  "), Some("nano"), "vi", true).unwrap();
    assert_eq!(e.program, "nano");
    let e = Editor::resolve(None, None, "vi", true).unwrap();
    assert_eq!(e.describe(), "vi");
    assert_eq!(
        Editor::resolve(None, None, "vi", false),
        Err(TrailError::NoEditor)
    );
    assert!(matches!(
        Editor::resolve(Some("'"), Some("nano"), "vi", true),
        Err(TrailError::EditorFailed(_))
    ));
}
