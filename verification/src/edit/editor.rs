//! Launching the user's editor. `$VISUAL`, then `$EDITOR`, then a platform
//! default. The editor runs exactly as the user configured it: no flags, no
//! init files of our own.

use crate::data::Dup;
use crate::error::{outcome, TrailError, TrailErrorView};
use crate::text;
use vstd::prelude::*;

verus! {

#[derive(Debug, Clone, PartialEq, Eq)]
pub struct Editor {
    pub program: String,
    pub args: Vec<String>,
}

/// What a [`Editor`] denotes.
#[verifier::ext_equal]
pub struct EditorView {
    pub program: Seq<char>,
    pub args: Seq<Seq<char>>,
}

impl DeepView for Editor {
    type V = EditorView;

    open spec fn deep_view(&self) -> EditorView {
        EditorView {
            program: self.program.deep_view(),
            args: self.args.deep_view(),
        }
    }
}

impl Dup for Editor {
    fn dup(&self) -> (r: Editor) {
        Editor {
            program: self.program.dup(),
            args: self.args.dup(),
        }
    }
}

/// The words of a command line by shell rules; `None` when a quote is not
/// closed.
pub uninterp spec fn shell_words_of(value: Seq<char>) -> Option<Seq<Seq<char>>>;

/// Splits a command line with `shell_words::split`.
///
/// Claimed of it: the words depend on the text alone, and the only thing that
/// can be wrong with it is a missing closing quote, which is what the message
/// says.
#[verifier::external_body]
fn split_words(value: &str) -> (r: Result<Vec<String>, String>)
    ensures
        match r {
            Ok(words) => shell_words_of(value@) == Some(words.deep_view()),
            Err(m) => shell_words_of(value@) is None && m@ == "missing closing quote"@,
        },
{
    shell_words::split(value).map_err(|e| e.to_string())
}

/// A text in quotes, with what would not be readable escaped.
pub uninterp spec fn quoted(s: Seq<char>) -> Seq<char>;

/// Quotes a text the way `{:?}` formats a `str`.
///
/// Claimed of it: the result depends on the text alone.
#[verifier::external_body]
fn quote(s: &str) -> (r: String)
    ensures
        r@ == quoted(s@),
{
    format!("{s:?}")
}

/// The editor that some words name; the first is the program. No words name
/// none.
pub open spec fn editor_of(words: Seq<Seq<char>>) -> Option<EditorView> {
    if words.len() == 0 {
        None
    } else {
        Some(EditorView { program: words[0], args: words.skip(1) })
    }
}

/// The editor that some words name; the first is the program.
pub fn from_words(words: Vec<String>) -> (r: Option<Editor>)
    ensures
        r.deep_view() == editor_of(words.deep_view()),
{
    let ghost all = words.deep_view();
    let mut words: Vec<String> = words;
    if words.len() == 0 {
        return None;
    }
    let program: String = words.remove(0);
    assert(words.deep_view() =~= all.skip(1));
    assert(program@ == all[0]);
    Some(Editor { program, args: words })
}

/// What the value of a variable names. Unbalanced quotes are an error.
pub open spec fn parsed_editor(value: Seq<char>, var: Seq<char>) -> Result<
    Option<EditorView>,
    TrailErrorView,
> {
    match shell_words_of(value) {
        Some(words) => Ok(editor_of(words)),
        None => Err(
            TrailErrorView::EditorFailed(
                "cannot parse $"@ + var + "="@ + quoted(value) + ": "@ + "missing closing quote"@,
            ),
        ),
    }
}

/// The editor to use: `$VISUAL`, then `$EDITOR`, then the fallback if there is
/// such a program.
pub open spec fn resolved_editor(
    visual: Option<Seq<char>>,
    editor: Option<Seq<char>>,
    fallback: Seq<char>,
    found: bool,
) -> Result<EditorView, TrailErrorView> {
    let first = match visual {
        Some(v) => parsed_editor(v, "VISUAL"@),
        None => Ok(None),
    };
    let second = match editor {
        Some(v) => parsed_editor(v, "EDITOR"@),
        None => Ok(None),
    };
    match first {
        Err(e) => Err(e),
        Ok(Some(e)) => Ok(e),
        Ok(None) => match second {
            Err(e) => Err(e),
            Ok(Some(e)) => Ok(e),
            Ok(None) => if found {
                Ok(EditorView { program: fallback, args: Seq::empty() })
            } else {
                Err(TrailErrorView::NoEditor)
            },
        },
    }
}

impl Editor {
    /// Parse an `$EDITOR`-style value with shell word rules, so quoted
    /// arguments such as `nvim --cmd "set signcolumn=no"` survive. An empty
    /// value means "unset". Unbalanced quotes are an error.
    pub fn parse(value: &str, var: &str) -> (r: Result<Option<Editor>, TrailError>)
        ensures
            outcome(r) == parsed_editor(value@, var@),
    {
        match split_words(value) {
            Ok(words) => Ok(from_words(words)),
            Err(m) => Err(
                TrailError::EditorFailed(
                    text::cat6("cannot parse $", var, "=", &quote(value), ": ", &m),
                ),
            ),
        }
    }

    /// The editor to use, from the values of `$VISUAL` and `$EDITOR`, and a
    /// program to fall back to when it was `found`.
    pub fn resolve(
        visual: Option<&str>,
        editor: Option<&str>,
        fallback: &str,
        found: bool,
    ) -> (r: Result<Editor, TrailError>)
        ensures
            outcome(r) == resolved_editor(
                visual.deep_view(),
                editor.deep_view(),
                fallback@,
                found,
            ),
    {
        match visual {
            Some(v) => match Editor::parse(v, "VISUAL") {
                Err(e) => {
                    return Err(e);
                },
                Ok(Some(e)) => {
                    return Ok(e);
                },
                Ok(None) => {},
            },
            None => {},
        }
        match editor {
            Some(v) => match Editor::parse(v, "EDITOR") {
                Err(e) => {
                    return Err(e);
                },
                Ok(Some(e)) => {
                    return Ok(e);
                },
                Ok(None) => {},
            },
            None => {},
        }
        if found {
            let r = Editor { program: fallback.to_owned(), args: Vec::new() };
            assert(r.deep_view().args =~= Seq::empty());
            Ok(r)
        } else {
            Err(TrailError::NoEditor)
        }
    }

    pub fn describe(&self) -> (r: String)
        ensures
            r@ == described_editor(self.deep_view()),
    {
        let mut words: Vec<String> = vec![self.program.dup()];
        let mut more: Vec<String> = self.args.dup();
        words.append(&mut more);
        assert(words.deep_view() =~= seq![self.program@] + self.args.deep_view());
        text::join_of(&words, " ")
    }

    /// What an editor that could not be run is reported as.
    pub fn cannot_run(&self, error: &str) -> (r: TrailError)
        ensures
            r.deep_view() == TrailErrorView::EditorFailed(
                "cannot run "@ + described_editor(self.deep_view()) + ": "@ + error@,
            ),
    {
        TrailError::EditorFailed(text::cat4("cannot run ", &self.describe(), ": ", error))
    }

    /// What an editor that did not exit well is reported as.
    pub fn exited_with(&self, status: &str) -> (r: TrailError)
        ensures
            r.deep_view() == TrailErrorView::EditorFailed(
                described_editor(self.deep_view()) + " exited with "@ + status@,
            ),
    {
        TrailError::EditorFailed(text::cat3(&self.describe(), " exited with ", status))
    }
}

pub open spec fn described_editor(e: EditorView) -> Seq<char> {
    text::join(seq![e.program] + e.args, " "@)
}

/// The editor is what `$VISUAL` names, or else what `$EDITOR` names, or else the
/// fallback if there is such a program. The first word is the program, the others
/// are its arguments. A variable that names nothing counts as not set, and one
/// that cannot be read is an error, unless an earlier one names an editor.
pub proof fn lemma_which_editor_is_used(
    visual: Option<Seq<char>>,
    editor: Option<Seq<char>>,
    fallback: Seq<char>,
    found: bool,
)
    ensures
        ({
            let r = resolved_editor(visual, editor, fallback, found);
            let broken = |v: Option<Seq<char>>| v is Some && shell_words_of(v->Some_0) is None;
            let names = |v: Option<Seq<char>>|
                v is Some && shell_words_of(v->Some_0) is Some && shell_words_of(
                    v->Some_0,
                )->Some_0.len() > 0;
            let words = |v: Option<Seq<char>>| shell_words_of(v->Some_0)->Some_0;
            &&& broken(visual) ==> r is Err
            &&& names(visual) ==> r is Ok && r->Ok_0.program == words(visual)[0] && r->Ok_0.args
                == words(visual).skip(1)
            &&& !broken(visual) && !names(visual) && broken(editor) ==> r is Err
            &&& !broken(visual) && !names(visual) && names(editor) ==> r is Ok
                && r->Ok_0.program == words(editor)[0] && r->Ok_0.args == words(editor).skip(1)
            &&& !broken(visual) && !names(visual) && !broken(editor) && !names(editor) ==> if found {
                r is Ok && r->Ok_0.program == fallback && r->Ok_0.args.len() == 0
            } else {
                r == Err::<EditorView, TrailErrorView>(TrailErrorView::NoEditor)
            }
        }),
{
}

} // verus!
