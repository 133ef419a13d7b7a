//! `trail review -i`: an interactive review browser.
//!
//! Three levels, one state machine: Development → Files → Diff. The
//! Development pane is a tree of sections (commits, then the working tree)
//! with their checkpoints; Files lists what the selected node changed; Diff
//! shows one file, or a whole node. Wide terminals show all three side by
//! side; narrow ones show the current level only. The state is the same in
//! both, only the layout differs.
//!
//! The browser owns no review logic: it displays a `WorktreeReview` and asks
//! for diffs and for files to be opened through the effects of a key.

use crate::data::Dup;
use crate::display::terminal::number;
use crate::error::{message, TrailError, TrailErrorView};
use crate::review::{
    FileRow, FileRowView, ReviewCheckpoint, ReviewSection, ReviewSectionView, WorktreeReview,
    WorktreeReviewView,
};
use crate::review::select::{DiffTarget, DiffTargetView};
use crate::text;
use vstd::prelude::*;

verus! {

/// Terminals at least this wide get the three-pane layout.
pub const WIDE_LAYOUT_MIN_COLUMNS: u16 = 100;

#[derive(Debug, Clone, Copy, PartialEq, Eq, Structural)]
pub enum Level {
    Development,
    Files,
    Diff,
}

#[derive(Debug, Clone, Copy, PartialEq, Eq, Structural)]
pub enum Key {
    Down,
    Up,
    Enter,
    Back,
    Diff,
    CommitDiff,
    Open,
    Quit,
}

/// A row of the Development tree.
#[derive(Debug, Clone, Copy, PartialEq, Eq, Structural)]
pub enum Node {
    /// Index into `review.sections`.
    Section(usize),
    /// Section index, checkpoint index within it.
    Checkpoint(usize, usize),
}

impl Node {
    pub open spec fn section_index(self) -> usize {
        match self {
            Node::Section(s) => s,
            Node::Checkpoint(s, _) => s,
        }
    }

    pub fn section(self) -> (r: usize)
        ensures
            r == self.section_index(),
    {
        match self {
            Node::Section(s) => s,
            Node::Checkpoint(s, _) => s,
        }
    }
}

/// What to open outside the browser.
#[derive(Debug, Clone, PartialEq, Eq)]
pub enum OpenTarget {
    /// The file as it was at the end of the checkpoint (snapshot).
    Snapshot {
        checkpoint_id: String,
        path: String,
    },
    /// The file as committed (blob of the commit tree).
    CommitFile {
        section: usize,
        path: String,
    },
    /// The file in the working tree.
    WorktreeFile {
        path: String,
    },
}

/// A diff that is asked for.
#[derive(Debug, Clone, PartialEq, Eq)]
pub struct DiffRequest {
    pub target: DiffTarget,
    pub title: String,
    /// Whether it is the diff of the selected file.
    pub of_file: bool,
}

/// What the loop must do after a key was handled.
#[derive(Debug, Clone, PartialEq, Eq)]
pub enum Effect {
    /// Nothing.
    Stay,
    Quit,
    /// Leave the browser, open the target, then come back.
    Open(OpenTarget),
    /// Load the diff and hand it to [`App::show_diff`].
    Load(DiffRequest),
}

#[derive(Debug, Clone, PartialEq, Eq)]
pub struct App {
    pub review: WorktreeReview,
    pub level: Level,
    /// Cursor in the visible tree rows.
    pub cursor: usize,
    /// One flag per section.
    pub expanded: Vec<bool>,
    pub file: usize,
    /// Diff lines of what was last requested, loaded on demand.
    pub diff: Vec<String>,
    pub diff_title: String,
    /// True when the diff belongs to the selected file (Back returns to
    /// Files); false when it belongs to the whole node (Back returns to the
    /// tree).
    pub diff_of_file: bool,
    pub scroll: usize,
    pub status: Option<String>,
}

/// What a [`OpenTarget`] denotes.
#[verifier::ext_equal]
pub enum OpenTargetView {
    Snapshot {
        checkpoint_id: Seq<char>,
        path: Seq<char>,
    },
    CommitFile {
        section: usize,
        path: Seq<char>,
    },
    WorktreeFile {
        path: Seq<char>,
    },
}

impl DeepView for OpenTarget {
    type V = OpenTargetView;

    open spec fn deep_view(&self) -> OpenTargetView {
        match *self {
            OpenTarget::Snapshot { checkpoint_id, path } => OpenTargetView::Snapshot {
                checkpoint_id: checkpoint_id.deep_view(),
                path: path.deep_view(),
            },
            OpenTarget::CommitFile { section, path } => OpenTargetView::CommitFile {
                section: section.deep_view(),
                path: path.deep_view(),
            },
            OpenTarget::WorktreeFile { path } => OpenTargetView::WorktreeFile {
                path: path.deep_view(),
            },
        }
    }
}

impl Dup for OpenTarget {
    fn dup(&self) -> (r: OpenTarget) {
        match self {
            OpenTarget::Snapshot { checkpoint_id, path } => OpenTarget::Snapshot {
                checkpoint_id: checkpoint_id.dup(),
                path: path.dup(),
            },
            OpenTarget::CommitFile { section, path } => OpenTarget::CommitFile {
                section: section.dup(),
                path: path.dup(),
            },
            OpenTarget::WorktreeFile { path } => OpenTarget::WorktreeFile {
                path: path.dup(),
            },
        }
    }
}

/// What a [`DiffRequest`] denotes.
#[verifier::ext_equal]
pub struct DiffRequestView {
    pub target: DiffTargetView,
    pub title: Seq<char>,
    pub of_file: bool,
}

impl DeepView for DiffRequest {
    type V = DiffRequestView;

    open spec fn deep_view(&self) -> DiffRequestView {
        DiffRequestView {
            target: self.target.deep_view(),
            title: self.title.deep_view(),
            of_file: self.of_file.deep_view(),
        }
    }
}

impl Dup for DiffRequest {
    fn dup(&self) -> (r: DiffRequest) {
        DiffRequest {
            target: self.target.dup(),
            title: self.title.dup(),
            of_file: self.of_file.dup(),
        }
    }
}

/// What a [`Effect`] denotes.
#[verifier::ext_equal]
pub enum EffectView {
    Stay,
    Quit,
    Open(OpenTargetView),
    Load(DiffRequestView),
}

impl DeepView for Effect {
    type V = EffectView;

    open spec fn deep_view(&self) -> EffectView {
        match *self {
            Effect::Stay => EffectView::Stay,
            Effect::Quit => EffectView::Quit,
            Effect::Open(x) => EffectView::Open(x.deep_view()),
            Effect::Load(x) => EffectView::Load(x.deep_view()),
        }
    }
}

impl Dup for Effect {
    fn dup(&self) -> (r: Effect) {
        match self {
            Effect::Stay => Effect::Stay,
            Effect::Quit => Effect::Quit,
            Effect::Open(x) => Effect::Open(x.dup()),
            Effect::Load(x) => Effect::Load(x.dup()),
        }
    }
}

/// What a [`App`] denotes.
#[verifier::ext_equal]
pub struct AppView {
    pub review: WorktreeReviewView,
    pub level: Level,
    pub cursor: usize,
    pub expanded: Seq<bool>,
    pub file: usize,
    pub diff: Seq<Seq<char>>,
    pub diff_title: Seq<char>,
    pub diff_of_file: bool,
    pub scroll: usize,
    pub status: Option<Seq<char>>,
}

impl DeepView for App {
    type V = AppView;

    open spec fn deep_view(&self) -> AppView {
        AppView {
            review: self.review.deep_view(),
            level: self.level.deep_view(),
            cursor: self.cursor.deep_view(),
            expanded: self.expanded.deep_view(),
            file: self.file.deep_view(),
            diff: self.diff.deep_view(),
            diff_title: self.diff_title.deep_view(),
            diff_of_file: self.diff_of_file.deep_view(),
            scroll: self.scroll.deep_view(),
            status: self.status.deep_view(),
        }
    }
}

impl Dup for App {
    fn dup(&self) -> (r: App) {
        App {
            review: self.review.dup(),
            level: self.level.dup(),
            cursor: self.cursor.dup(),
            expanded: self.expanded.dup(),
            file: self.file.dup(),
            diff: self.diff.dup(),
            diff_title: self.diff_title.dup(),
            diff_of_file: self.diff_of_file.dup(),
            scroll: self.scroll.dup(),
            status: self.status.dup(),
        }
    }
}

impl DeepView for Level {
    type V = Level;

    open spec fn deep_view(&self) -> Level {
        *self
    }
}

impl Dup for Level {
    fn dup(&self) -> (r: Level) {
        *self
    }
}

impl DeepView for Node {
    type V = Node;

    open spec fn deep_view(&self) -> Node {
        *self
    }
}

// ---------------------------------------------------------------------------
// The tree
/// The rows of the first `k` sections: each section, and below it its
/// checkpoints when it is expanded.
pub open spec fn rows_of(
    sections: Seq<ReviewSectionView>,
    expanded: Seq<bool>,
    k: nat,
) -> Seq<Node>
    decreases k,
{
    if k == 0 {
        Seq::empty()
    } else {
        let i = (k - 1) as usize;
        rows_of(sections, expanded, (k - 1) as nat).push(Node::Section(i)) + (if expanded[k - 1] {
            Seq::new(sections[k - 1].steps().len(), |j: int| Node::Checkpoint(i, j as usize))
        } else {
            Seq::empty()
        })
    }
}

impl AppView {
    /// There is one flag per section.
    pub open spec fn valid(self) -> bool {
        self.expanded.len() == self.review.sections.len()
    }

    /// Visible rows of the tree, in order.
    pub open spec fn tree(self) -> Seq<Node> {
        rows_of(self.review.sections, self.expanded, self.review.sections.len())
    }

    pub open spec fn node(self) -> Option<Node> {
        if self.cursor < self.tree().len() {
            Some(self.tree()[self.cursor as int])
        } else {
            None
        }
    }

    /// Files of the current node.
    pub open spec fn files(self) -> Seq<FileRowView> {
        match self.node() {
            Some(Node::Section(i)) => self.review.sections[i as int].rows(),
            Some(Node::Checkpoint(i, j)) => self.review.sections[i as int].steps()[j as int].rows(),
            None => Seq::empty(),
        }
    }

    pub open spec fn selected_file(self) -> Option<FileRowView> {
        if self.file < self.files().len() {
            Some(self.files()[self.file as int])
        } else {
            None
        }
    }

    /// The diff the current node stands for as a whole.
    pub open spec fn node_diff(self) -> Option<DiffRequestView> {
        match self.node() {
            Some(Node::Section(i)) => match self.review.sections[i as int] {
                ReviewSectionView::Commit(c) => Some(
                    DiffRequestView {
                        target: DiffTargetView::Commit { section: c.number },
                        title: "commit "@ + c.short_id + " "@ + c.summary,
                        of_file: false,
                    },
                ),
                ReviewSectionView::WorkingTree(_) => Some(
                    DiffRequestView {
                        target: DiffTargetView::WorkingTree,
                        title: "working tree"@,
                        of_file: false,
                    },
                ),
            },
            Some(Node::Checkpoint(i, j)) => {
                let cp = self.review.sections[i as int].steps()[j as int];
                Some(
                    DiffRequestView {
                        target: DiffTargetView::Checkpoint { label: cp.label },
                        title: "checkpoint "@ + cp.label + " "@ + cp.shown_title(),
                        of_file: false,
                    },
                )
            },
            None => None,
        }
    }

    /// The diff of the selected file within the current node.
    pub open spec fn file_diff(self) -> Option<DiffRequestView> {
        match (self.selected_file(), self.node()) {
            (Some(row), Some(node)) => Some(
                DiffRequestView {
                    target: match node {
                        Node::Section(i) => match self.review.sections[i as int] {
                            ReviewSectionView::Commit(c) => DiffTargetView::CommitFile {
                                section: c.number,
                                path: row.path,
                            },
                            ReviewSectionView::WorkingTree(_) => DiffTargetView::WorkingTreeFile {
                                path: row.path,
                            },
                        },
                        Node::Checkpoint(i, j) => DiffTargetView::CheckpointFile {
                            label: self.review.sections[i as int].steps()[j as int].label,
                            path: row.path,
                        },
                    },
                    title: row.path,
                    of_file: true,
                },
            ),
            _ => None,
        }
    }

    /// The diff of the commit the current node belongs to, if any.
    pub open spec fn commit_diff(self) -> Option<DiffRequestView> {
        match self.node() {
            Some(node) => match self.review.sections[node.section_index() as int] {
                ReviewSectionView::Commit(c) => Some(
                    DiffRequestView {
                        target: DiffTargetView::Commit { section: c.number },
                        title: "commit "@ + c.short_id + " "@ + c.summary,
                        of_file: false,
                    },
                ),
                ReviewSectionView::WorkingTree(_) => None,
            },
            None => None,
        }
    }

    /// The selected file, to be opened; nothing while the diff of a whole node
    /// is shown.
    pub open spec fn to_open(self) -> Option<OpenTargetView> {
        if !self.diff_of_file && self.level == Level::Diff {
            None
        } else {
            match (self.selected_file(), self.node()) {
                (Some(row), Some(node)) => Some(
                    match node {
                        Node::Section(i) => match self.review.sections[i as int] {
                            ReviewSectionView::Commit(c) => OpenTargetView::CommitFile {
                                section: c.number,
                                path: row.path,
                            },
                            ReviewSectionView::WorkingTree(_) => OpenTargetView::WorktreeFile {
                                path: row.path,
                            },
                        },
                        Node::Checkpoint(i, j) => OpenTargetView::Snapshot {
                            checkpoint_id: self.review.sections[i as int].steps()[j as int].id,
                            path: row.path,
                        },
                    },
                ),
                _ => None,
            }
        }
    }

    pub open spec fn says(self, line: Seq<char>) -> AppView {
        AppView { status: Some(line), ..self }
    }

    /// With the cursor moved by one row, if there is one.
    pub open spec fn cursor_moved(self, down: bool) -> AppView {
        let next = stepped(self.cursor as int, down, self.tree().len() as int);
        if next == self.cursor {
            self
        } else {
            AppView { cursor: next as usize, file: 0, diff: Seq::empty(), ..self }
        }
    }

    /// With another file selected, if there is one.
    pub open spec fn file_moved(self, down: bool) -> AppView {
        let next = stepped(self.file as int, down, self.files().len() as int);
        if next == self.file {
            self
        } else {
            AppView { file: next as usize, diff: Seq::empty(), ..self }
        }
    }

    /// Among the files of the current node, if there are any.
    pub open spec fn among_files(self) -> AppView {
        let n = self.files().len();
        if n == 0 {
            self.says("no files in this selection"@)
        } else {
            AppView {
                file: if self.file < n {
                    self.file
                } else {
                    (n - 1) as usize
                },
                level: Level::Files,
                ..self
            }
        }
    }

    pub open spec fn with_expanded(self, i: int, open: bool) -> AppView {
        AppView { expanded: self.expanded.update(i, open), ..self }
    }

    /// With the cursor on a visible row.
    pub open spec fn clamped(self) -> AppView {
        let n = self.tree().len();
        AppView {
            cursor: if n == 0 {
                0
            } else if self.cursor < n {
                self.cursor
            } else {
                (n - 1) as usize
            },
            ..self
        }
    }

    /// Once a diff was loaded, or could not be.
    pub open spec fn diff_shown(
        self,
        request: DiffRequestView,
        loaded: Result<Seq<char>, TrailErrorView>,
    ) -> AppView {
        match loaded {
            Ok(text) => AppView {
                diff: if text.len() == 0 {
                    seq!["(no diff: snapshot unavailable, binary, or nothing changed)"@]
                } else {
                    text::lines(text)
                },
                diff_title: request.title,
                diff_of_file: request.of_file,
                scroll: 0,
                level: Level::Diff,
                ..self
            },
            Err(e) => self.says(message(e)),
        }
    }
}

/// A position moved by one among `n`, and kept among them.
pub open spec fn stepped(at: int, down: bool, n: int) -> int {
    if n == 0 {
        at
    } else {
        let next = if down {
            at + 1
        } else if at > 0 {
            at - 1
        } else {
            0
        };
        if next < n {
            next
        } else {
            n - 1
        }
    }
}

/// The position of a node among the rows; the start when it is not there.
pub open spec fn row_of(rows: Seq<Node>, node: Node) -> int {
    if rows.contains(node) {
        first_row(rows, node)
    } else {
        0
    }
}

pub open spec fn first_row(rows: Seq<Node>, node: Node) -> int
    decreases rows.len(),
{
    if rows.len() == 0 || rows[0] == node {
        0
    } else {
        1 + first_row(rows.drop_first(), node)
    }
}

/// A diff to load; or else what to say.
pub open spec fn loading(a: AppView, request: Option<DiffRequestView>, or: Seq<char>) -> (
    AppView,
    EffectView,
) {
    match request {
        Some(r) => (a, EffectView::Load(r)),
        None => (a.says(or), EffectView::Stay),
    }
}

pub open spec fn opening(a: AppView) -> (AppView, EffectView) {
    match a.to_open() {
        Some(t) => (a, EffectView::Open(t)),
        None => (a.says("select a file first (Enter)"@), EffectView::Stay),
    }
}

/// What a key does.
pub open spec fn pressed(app: AppView, key: Key) -> (AppView, EffectView) {
    let a = AppView { status: None, ..app };
    match (a.level, key) {
        (_, Key::Quit) => (a, EffectView::Quit),
        (_, Key::CommitDiff) => loading(
            a,
            a.commit_diff(),
            "the working tree has no commit diff yet"@,
        ),
        (Level::Development, Key::Down) => (a.cursor_moved(true), EffectView::Stay),
        (Level::Development, Key::Up) => (a.cursor_moved(false), EffectView::Stay),
        (Level::Development, Key::Enter) => match a.node() {
            Some(Node::Section(i)) => if !a.expanded[i as int] {
                (a.with_expanded(i as int, true), EffectView::Stay)
            } else {
                (a.among_files(), EffectView::Stay)
            },
            Some(_) => (a.among_files(), EffectView::Stay),
            None => (a.says("nothing to review"@), EffectView::Stay),
        },
        (Level::Development, Key::Back) => match a.node() {
            Some(Node::Checkpoint(i, _)) => (
                AppView { cursor: row_of(a.tree(), Node::Section(i)) as usize, ..a },
                EffectView::Stay,
            ),
            Some(Node::Section(i)) => if a.expanded[i as int] {
                (a.with_expanded(i as int, false).clamped(), EffectView::Stay)
            } else {
                (a, EffectView::Quit)
            },
            None => (a, EffectView::Quit),
        },
        (Level::Development, Key::Diff) => loading(a, a.node_diff(), "nothing to review"@),
        (Level::Development, Key::Open) => (
            a.says("select a file first (Enter)"@),
            EffectView::Stay,
        ),
        (Level::Files, Key::Down) => (a.file_moved(true), EffectView::Stay),
        (Level::Files, Key::Up) => (a.file_moved(false), EffectView::Stay),
        (Level::Files, Key::Enter) => loading(a, a.file_diff(), "no file selected"@),
        (Level::Files, Key::Diff) => loading(a, a.file_diff(), "no file selected"@),
        (Level::Files, Key::Back) => (AppView { level: Level::Development, ..a }, EffectView::Stay),
        (Level::Files, Key::Open) => opening(a),
        (Level::Diff, Key::Open) => opening(a),
        (Level::Diff, Key::Down) => if a.scroll + 1 < a.diff.len() {
            (AppView { scroll: (a.scroll + 1) as usize, ..a }, EffectView::Stay)
        } else {
            (a, EffectView::Stay)
        },
        (Level::Diff, Key::Up) => (
            AppView {
                scroll: if a.scroll > 0 {
                    (a.scroll - 1) as usize
                } else {
                    0
                },
                ..a
            },
            EffectView::Stay,
        ),
        (Level::Diff, Key::Back) => (
            AppView {
                level: if a.diff_of_file {
                    Level::Files
                } else {
                    Level::Development
                },
                ..a
            },
            EffectView::Stay,
        ),
        (Level::Diff, Key::Enter) => (a, EffectView::Stay),
        (Level::Diff, Key::Diff) => (a, EffectView::Stay),
    }
}

proof fn lemma_rows_valid(sections: Seq<ReviewSectionView>, expanded: Seq<bool>, k: nat)
    requires
        k <= sections.len() == expanded.len(),
        sections.len() <= usize::MAX,
        forall|i: int| 0 <= i < sections.len() ==> (#[trigger] sections[i]).steps().len()
            <= usize::MAX,
    ensures
        forall|m: int|
            0 <= m < rows_of(sections, expanded, k).len() ==> row_valid(
                sections,
                expanded,
                #[trigger] rows_of(sections, expanded, k)[m],
                k as int,
            ),
        forall|i: int| 0 <= i < k ==> #[trigger] has_section(rows_of(sections, expanded, k), i),
    decreases k,
{
    if k > 0 {
        lemma_rows_valid(sections, expanded, (k - 1) as nat);
        let before = rows_of(sections, expanded, (k - 1) as nat);
        let rows = rows_of(sections, expanded, k);
        assert(sections[k - 1].steps().len() <= usize::MAX);
        assert forall|m: int| 0 <= m < rows.len() implies row_valid(
            sections,
            expanded,
            #[trigger] rows[m],
            k as int,
        ) by {
            if m < before.len() {
                assert(rows[m] == before[m]);
                assert(row_valid(sections, expanded, before[m], k - 1));
            }
        }
        assert forall|i: int| 0 <= i < k implies #[trigger] has_section(rows, i) by {
            if i < k - 1 {
                assert(has_section(before, i));
                let m = choose|m: int| 0 <= m < before.len() && before[m] == Node::Section(
                    i as usize,
                );
                assert(rows[m] == before[m]);
            } else {
                assert(rows[before.len() as int] == Node::Section(i as usize));
            }
        }
    }
}

/// The rows show a section.
pub open spec fn has_section(rows: Seq<Node>, i: int) -> bool {
    rows.contains(Node::Section(i as usize))
}

/// A row of an existing section or of a checkpoint in an expanded one.
pub open spec fn row_valid(
    sections: Seq<ReviewSectionView>,
    expanded: Seq<bool>,
    node: Node,
    k: int,
) -> bool {
    match node {
        Node::Section(i) => i < k,
        Node::Checkpoint(i, j) => i < k && expanded[i as int] && j < sections[i as int].steps().len(),
    }
}

impl App {
    pub fn new(review: WorktreeReview) -> (r: App)
        ensures
            r.deep_view() == (AppView {
                review: review.deep_view(),
                level: Level::Development,
                cursor: 0,
                expanded: Seq::new(review.deep_view().sections.len(), |i: int| true),
                file: 0,
                diff: Seq::empty(),
                diff_title: Seq::empty(),
                diff_of_file: false,
                scroll: 0,
                status: None,
            }),
            r.deep_view().sound(),
    {
        let n: usize = review.sections.len();
        let mut expanded: Vec<bool> = Vec::new();
        let mut k: usize = 0;
        while k < n
            invariant
                k <= n,
                k == expanded.len(),
                forall|i: int| 0 <= i < k ==> expanded@[i] == true,
            decreases n - k,
        {
            expanded.push(true);
            k += 1;
        }
        let ghost rv = review.deep_view();
        let r = App {
            review,
            level: Level::Development,
            cursor: 0,
            expanded,
            file: 0,
            diff: Vec::new(),
            diff_title: String::new(),
            diff_of_file: false,
            scroll: 0,
            status: None,
        };
        assert(r.deep_view().expanded =~= Seq::new(rv.sections.len(), |i: int| true));
        assert(r.deep_view().diff =~= Seq::empty());
        assert(r.deep_view().diff_title =~= Seq::empty());
        proof {
            let v = r.deep_view();
            if v.review.sections.len() > 0 {
                lemma_section_rows(v.review.sections, v.expanded);
            }
        }
        r
    }

    /// Visible rows of the tree, in order.
    pub fn nodes(&self) -> (r: Vec<Node>)
        requires
            self.deep_view().valid(),
        ensures
            r@ == self.deep_view().tree(),
            forall|m: int|
                0 <= m < r.len() ==> row_valid(
                    self.deep_view().review.sections,
                    self.deep_view().expanded,
                    #[trigger] r@[m],
                    self.review.sections.len() as int,
                ),
            forall|i: int|
                0 <= i < self.review.sections.len() ==> #[trigger] has_section(r@, i),
    {
        let ghost ss = self.review.sections.deep_view();
        let ghost ex = self.expanded.deep_view();
        let mut out: Vec<Node> = Vec::new();
        let mut i: usize = 0;
        assert(out@ =~= rows_of(ss, ex, 0));
        while i < self.review.sections.len()
            invariant
                i <= self.review.sections.len(),
                ss == self.review.sections.deep_view(),
                ex == self.expanded.deep_view(),
                ss.len() == ex.len(),
                out@ == rows_of(ss, ex, i as nat),
            decreases self.review.sections.len() - i,
        {
            let ghost before = out@;
            let section: &ReviewSection = &self.review.sections[i];
            assert(ss[i as int] == section.deep_view());
            assert(ex[i as int] == self.expanded@[i as int]);
            out.push(Node::Section(i));
            let ghost own = before.push(Node::Section(i));
            if self.expanded[i] {
                let n: usize = section.checkpoints().len();
                let ghost steps = Seq::new(
                    section.deep_view().steps().len(),
                    |j: int| Node::Checkpoint(i, j as usize),
                );
                let mut j: usize = 0;
                assert(own + steps.take(0) =~= own);
                while j < n
                    invariant
                        j <= n,
                        n == steps.len(),
                        steps == Seq::new(
                            section.deep_view().steps().len(),
                            |j: int| Node::Checkpoint(i, j as usize),
                        ),
                        out@ == own + steps.take(j as int),
                    decreases n - j,
                {
                    out.push(Node::Checkpoint(i, j));
                    assert(out@ =~= own + steps.take(j + 1));
                    j += 1;
                }
                assert(steps.take(n as int) =~= steps);
            } else {
                assert(own + Seq::<Node>::empty() =~= own);
            }
            i += 1;
        }
        proof {
            assert forall|i: int| 0 <= i < ss.len() implies (#[trigger] ss[i]).steps().len()
                <= usize::MAX by {
                self.review.sections[i].lemma_steps_len();
            }
            lemma_rows_valid(ss, ex, ss.len());
        }
        out
    }

    pub fn current_node(&self) -> (r: Option<Node>)
        requires
            self.deep_view().valid(),
        ensures
            r == self.deep_view().node(),
            r is Some ==> row_valid(
                self.deep_view().review.sections,
                self.deep_view().expanded,
                r->Some_0,
                self.review.sections.len() as int,
            ),
    {
        let rows: Vec<Node> = self.nodes();
        if self.cursor < rows.len() {
            Some(rows[self.cursor])
        } else {
            None
        }
    }

    /// Files of the current node.
    pub fn file_rows(&self) -> (r: Vec<FileRow>)
        requires
            self.deep_view().valid(),
        ensures
            r.deep_view() == self.deep_view().files(),
    {
        match self.current_node() {
            Some(Node::Section(i)) => {
                assert(self.review.sections.deep_view()[i as int]
                    == self.review.sections[i as int].deep_view());
                self.review.sections[i].file_rows()
            },
            Some(Node::Checkpoint(i, j)) => {
                let section: &ReviewSection = &self.review.sections[i];
                assert(self.review.sections.deep_view()[i as int] == section.deep_view());
                let cps: &Vec<ReviewCheckpoint> = section.checkpoints();
                assert(cps.deep_view()[j as int] == cps[j as int].deep_view());
                cps[j].file_rows()
            },
            None => {
                let r: Vec<FileRow> = Vec::new();
                assert(r.deep_view() =~= Seq::empty());
                r
            },
        }
    }

    pub fn current_file(&self) -> (r: Option<FileRow>)
        requires
            self.deep_view().valid(),
        ensures
            r.deep_view() == self.deep_view().selected_file(),
    {
        let rows: Vec<FileRow> = self.file_rows();
        assert(rows.deep_view().len() == rows.len());
        if self.file < rows.len() {
            assert(rows.deep_view()[self.file as int] == rows[self.file as int].deep_view());
            Some(rows[self.file].dup())
        } else {
            None
        }
    }

    /// The diff the current node stands for as a whole.
    fn node_diff_target(&self) -> (r: Option<DiffRequest>)
        requires
            self.deep_view().valid(),
        ensures
            r.deep_view() == self.deep_view().node_diff(),
    {
        match self.current_node() {
            Some(Node::Section(i)) => {
                assert(self.review.sections.deep_view()[i as int]
                    == self.review.sections[i as int].deep_view());
                match &self.review.sections[i] {
                    ReviewSection::Commit(c) => Some(
                        DiffRequest {
                            target: DiffTarget::Commit { section: c.number },
                            title: text::cat4("commit ", &c.short_id, " ", &c.summary),
                            of_file: false,
                        },
                    ),
                    ReviewSection::WorkingTree(_) => Some(
                        DiffRequest {
                            target: DiffTarget::WorkingTree,
                            title: "working tree".to_owned(),
                            of_file: false,
                        },
                    ),
                }
            },
            Some(Node::Checkpoint(i, j)) => {
                let section: &ReviewSection = &self.review.sections[i];
                assert(self.review.sections.deep_view()[i as int] == section.deep_view());
                let cps: &Vec<ReviewCheckpoint> = section.checkpoints();
                assert(cps.deep_view()[j as int] == cps[j as int].deep_view());
                let cp: &ReviewCheckpoint = &cps[j];
                Some(
                    DiffRequest {
                        target: DiffTarget::Checkpoint { label: cp.label.dup() },
                        title: text::cat4("checkpoint ", &cp.label, " ", &cp.display_title()),
                        of_file: false,
                    },
                )
            },
            None => None,
        }
    }

    /// The diff of the selected file within the current node.
    fn file_diff_target(&self) -> (r: Option<DiffRequest>)
        requires
            self.deep_view().valid(),
        ensures
            r.deep_view() == self.deep_view().file_diff(),
    {
        let row: FileRow = match self.current_file() {
            Some(row) => row,
            None => {
                return None;
            },
        };
        let target: DiffTarget = match self.current_node() {
            Some(Node::Section(i)) => {
                assert(self.review.sections.deep_view()[i as int]
                    == self.review.sections[i as int].deep_view());
                match &self.review.sections[i] {
                    ReviewSection::Commit(c) => DiffTarget::CommitFile {
                        section: c.number,
                        path: row.path.dup(),
                    },
                    ReviewSection::WorkingTree(_) => DiffTarget::WorkingTreeFile {
                        path: row.path.dup(),
                    },
                }
            },
            Some(Node::Checkpoint(i, j)) => {
                let section: &ReviewSection = &self.review.sections[i];
                assert(self.review.sections.deep_view()[i as int] == section.deep_view());
                let cps: &Vec<ReviewCheckpoint> = section.checkpoints();
                assert(cps.deep_view()[j as int] == cps[j as int].deep_view());
                DiffTarget::CheckpointFile { label: cps[j].label.dup(), path: row.path.dup() }
            },
            None => {
                return None;
            },
        };
        Some(DiffRequest { target, title: row.path, of_file: true })
    }

    /// The diff of the commit the current node belongs to, if any.
    fn commit_diff_target(&self) -> (r: Option<DiffRequest>)
        requires
            self.deep_view().valid(),
        ensures
            r.deep_view() == self.deep_view().commit_diff(),
    {
        match self.current_node() {
            Some(node) => {
                let i: usize = node.section();
                assert(self.review.sections.deep_view()[i as int]
                    == self.review.sections[i as int].deep_view());
                match &self.review.sections[i] {
                    ReviewSection::Commit(c) => Some(
                        DiffRequest {
                            target: DiffTarget::Commit { section: c.number },
                            title: text::cat4("commit ", &c.short_id, " ", &c.summary),
                            of_file: false,
                        },
                    ),
                    ReviewSection::WorkingTree(_) => None,
                }
            },
            None => None,
        }
    }

    fn open_target(&self) -> (r: Option<OpenTarget>)
        requires
            self.deep_view().valid(),
        ensures
            r.deep_view() == self.deep_view().to_open(),
    {
        if !self.diff_of_file && self.level == Level::Diff {
            return None;
        }
        let row: FileRow = match self.current_file() {
            Some(row) => row,
            None => {
                return None;
            },
        };
        match self.current_node() {
            Some(Node::Section(i)) => {
                assert(self.review.sections.deep_view()[i as int]
                    == self.review.sections[i as int].deep_view());
                match &self.review.sections[i] {
                    ReviewSection::Commit(c) => Some(
                        OpenTarget::CommitFile { section: c.number, path: row.path },
                    ),
                    ReviewSection::WorkingTree(_) => Some(
                        OpenTarget::WorktreeFile { path: row.path },
                    ),
                }
            },
            Some(Node::Checkpoint(i, j)) => {
                let section: &ReviewSection = &self.review.sections[i];
                assert(self.review.sections.deep_view()[i as int] == section.deep_view());
                let cps: &Vec<ReviewCheckpoint> = section.checkpoints();
                assert(cps.deep_view()[j as int] == cps[j as int].deep_view());
                Some(OpenTarget::Snapshot { checkpoint_id: cps[j].id.dup(), path: row.path })
            },
            None => None,
        }
    }

    fn say(&mut self, line: &str)
        ensures
            final(self).deep_view() == old(self).deep_view().says(line@),
    {
        let ghost was = self.deep_view();
        self.status = Some(line.to_owned());
        assert(self.deep_view() =~= was.says(line@));
    }

    fn move_cursor(&mut self, down: bool)
        requires
            old(self).deep_view().valid(),
        ensures
            final(self).deep_view() == old(self).deep_view().cursor_moved(down),
    {
        let ghost was = self.deep_view();
        let n: usize = self.nodes().len();
        let next: usize = step(self.cursor, down, n);
        if next != self.cursor {
            self.cursor = next;
            self.file = 0;
            self.diff = Vec::new();
            assert(self.deep_view().diff =~= Seq::empty());
        }
        assert(self.deep_view() =~= was.cursor_moved(down));
    }

    /// Keep the cursor on a visible row after the tree changed shape.
    fn clamp_cursor(&mut self)
        requires
            old(self).deep_view().valid(),
        ensures
            final(self).deep_view() == old(self).deep_view().clamped(),
    {
        let ghost was = self.deep_view();
        let n: usize = self.nodes().len();
        if n == 0 {
            self.cursor = 0;
        } else if self.cursor >= n {
            self.cursor = n - 1;
        }
        assert(self.deep_view() =~= was.clamped());
    }

    fn move_file(&mut self, down: bool)
        requires
            old(self).deep_view().valid(),
        ensures
            final(self).deep_view() == old(self).deep_view().file_moved(down),
    {
        let ghost was = self.deep_view();
        let rows: Vec<FileRow> = self.file_rows();
        assert(rows.deep_view().len() == rows.len());
        let next: usize = step(self.file, down, rows.len());
        if next != self.file {
            self.file = next;
            self.diff = Vec::new();
            assert(self.deep_view().diff =~= Seq::empty());
        }
        assert(self.deep_view() =~= was.file_moved(down));
    }

    fn enter_files(&mut self)
        requires
            old(self).deep_view().valid(),
        ensures
            final(self).deep_view() == old(self).deep_view().among_files(),
    {
        let ghost was = self.deep_view();
        let rows: Vec<FileRow> = self.file_rows();
        let n: usize = rows.len();
        assert(rows.deep_view().len() == n);
        if n == 0 {
            self.say("no files in this selection");
            return;
        }
        if self.file >= n {
            self.file = n - 1;
        }
        self.level = Level::Files;
        assert(self.deep_view() =~= was.among_files());
    }

    fn set_expanded(&mut self, i: usize, open: bool)
        requires
            old(self).deep_view().valid(),
            i < old(self).expanded.len(),
        ensures
            final(self).deep_view() == old(self).deep_view().with_expanded(i as int, open),
    {
        let ghost was = self.deep_view();
        self.expanded[i] = open;
        assert(self.expanded.deep_view() =~= was.expanded.update(i as int, open));
        assert(self.deep_view() =~= was.with_expanded(i as int, open));
    }

    fn load(&mut self, request: Option<DiffRequest>, or: &str) -> (r: Effect)
        ensures
            (final(self).deep_view(), r.deep_view()) == loading(
                old(self).deep_view(),
                request.deep_view(),
                or@,
            ),
    {
        match request {
            Some(r) => Effect::Load(r),
            None => {
                self.say(or);
                Effect::Stay
            },
        }
    }

    fn open(&mut self) -> (r: Effect)
        requires
            old(self).deep_view().valid(),
        ensures
            (final(self).deep_view(), r.deep_view()) == opening(old(self).deep_view()),
    {
        match self.open_target() {
            Some(t) => Effect::Open(t),
            None => {
                self.say("select a file first (Enter)");
                Effect::Stay
            },
        }
    }

    fn go_back(&mut self) -> (r: Effect)
        requires
            old(self).deep_view().valid(),
            old(self).level == Level::Development,
            old(self).status is None,
        ensures
            (final(self).deep_view(), r.deep_view()) == pressed(old(self).deep_view(), Key::Back),
    {
        let ghost a = self.deep_view();
        assert((AppView { status: None, ..a }) =~= a);
        match self.current_node() {
            Some(Node::Checkpoint(i, _)) => {
                let rows: Vec<Node> = self.nodes();
                let ghost target = Node::Section(i);
                let mut k: usize = 0;
                assert(rows@.skip(0) =~= rows@);
                assert(has_section(rows@, i as int));
                while k < rows.len() && rows[k] != Node::Section(i)
                    invariant
                        k <= rows.len(),
                        target == Node::Section(i),
                        first_row(rows@, target) == k + first_row(rows@.skip(k as int), target),
                    decreases rows.len() - k,
                {
                    assert(rows@.skip(k as int).drop_first() =~= rows@.skip(k + 1));
                    k += 1;
                }
                proof {
                    lemma_first_row(rows@, target);
                    if k < rows.len() {
                        assert(rows@.skip(k as int)[0] == target);
                    } else {
                        assert(rows@.skip(k as int) =~= Seq::empty());
                    }
                }
                self.cursor = k;
                assert(self.deep_view() =~= pressed(a, Key::Back).0);
                Effect::Stay
            },
            Some(Node::Section(i)) => {
                assert(a.expanded[i as int] == self.expanded@[i as int]);
                if self.expanded[i] {
                    self.set_expanded(i, false);
                    self.clamp_cursor();
                    Effect::Stay
                } else {
                    Effect::Quit
                }
            },
            None => Effect::Quit,
        }
    }

    /// Advance the state machine. A diff is only asked for when one is
    /// requested, so browsing stays cheap.
    pub fn handle(&mut self, key: Key) -> (r: Effect)
        requires
            old(self).deep_view().valid(),
        ensures
            (final(self).deep_view(), r.deep_view()) == pressed(old(self).deep_view(), key),
    {
        let ghost app = self.deep_view();
        self.status = None;
        let ghost a = self.deep_view();
        assert(a =~= (AppView { status: None, ..app }));
        match (self.level, key) {
            (_, Key::Quit) => Effect::Quit,
            (_, Key::CommitDiff) => {
                let request: Option<DiffRequest> = self.commit_diff_target();
                self.load(request, "the working tree has no commit diff yet")
            },
            (Level::Development, Key::Down) => {
                self.move_cursor(true);
                Effect::Stay
            },
            (Level::Development, Key::Up) => {
                self.move_cursor(false);
                Effect::Stay
            },
            (Level::Development, Key::Enter) => {
                match self.current_node() {
                    Some(Node::Section(i)) => {
                        assert(a.expanded[i as int] == self.expanded@[i as int]);
                        if !self.expanded[i] {
                            self.set_expanded(i, true);
                        } else {
                            self.enter_files();
                        }
                    },
                    Some(_) => {
                        self.enter_files();
                    },
                    None => {
                        self.say("nothing to review");
                    },
                }
                Effect::Stay
            },
            (Level::Development, Key::Back) => {
                assert((AppView { status: None, ..a }) =~= a);
                self.go_back()
            },
            (Level::Development, Key::Diff) => {
                let request: Option<DiffRequest> = self.node_diff_target();
                self.load(request, "nothing to review")
            },
            (Level::Development, Key::Open) => {
                self.say("select a file first (Enter)");
                Effect::Stay
            },
            (Level::Files, Key::Down) => {
                self.move_file(true);
                Effect::Stay
            },
            (Level::Files, Key::Up) => {
                self.move_file(false);
                Effect::Stay
            },
            (Level::Files, Key::Enter) => {
                let request: Option<DiffRequest> = self.file_diff_target();
                self.load(request, "no file selected")
            },
            (Level::Files, Key::Diff) => {
                let request: Option<DiffRequest> = self.file_diff_target();
                self.load(request, "no file selected")
            },
            (Level::Files, Key::Back) => {
                self.level = Level::Development;
                assert(self.deep_view() =~= pressed(app, key).0);
                Effect::Stay
            },
            (Level::Files, Key::Open) => self.open(),
            (Level::Diff, Key::Open) => self.open(),
            (Level::Diff, Key::Down) => {
                assert(a.diff.len() == self.diff.len());
                if self.diff.len() > 1 && self.scroll < self.diff.len() - 1 {
                    self.scroll = self.scroll + 1;
                }
                assert(self.deep_view() =~= pressed(app, key).0);
                Effect::Stay
            },
            (Level::Diff, Key::Up) => {
                if self.scroll > 0 {
                    self.scroll = self.scroll - 1;
                }
                assert(self.deep_view() =~= pressed(app, key).0);
                Effect::Stay
            },
            (Level::Diff, Key::Back) => {
                self.level = if self.diff_of_file {
                    Level::Files
                } else {
                    Level::Development
                };
                assert(self.deep_view() =~= pressed(app, key).0);
                Effect::Stay
            },
            (Level::Diff, Key::Enter) => Effect::Stay,
            (Level::Diff, Key::Diff) => Effect::Stay,
        }
    }

    /// Takes in a diff that was asked for, or why it could not be loaded.
    pub fn show_diff(&mut self, request: &DiffRequest, loaded: Result<String, TrailError>)
        ensures
            final(self).deep_view() == old(self).deep_view().diff_shown(
                request.deep_view(),
                crate::error::outcome(loaded),
            ),
    {
        let ghost was = self.deep_view();
        match loaded {
            Ok(text) => {
                let lines: Vec<String> = if text.as_str().unicode_len() == 0 {
                    let only: Vec<String> = vec![
                        "(no diff: snapshot unavailable, binary, or nothing changed)".to_owned(),
                    ];
                    assert(only.deep_view() =~= seq![
                        "(no diff: snapshot unavailable, binary, or nothing changed)"@,
                    ]);
                    only
                } else {
                    text::lines_of(&text)
                };
                self.diff = lines;
                self.diff_title = request.title.dup();
                self.diff_of_file = request.of_file;
                self.scroll = 0;
                self.level = Level::Diff;
                assert(self.deep_view() =~= was.diff_shown(
                    request.deep_view(),
                    Ok::<Seq<char>, TrailErrorView>(text@),
                ));
            },
            Err(e) => self.say(&e.to_string()),
        }
    }
}

proof fn lemma_first_row(rows: Seq<Node>, node: Node)
    ensures
        0 <= first_row(rows, node) <= rows.len(),
        rows.contains(node) ==> first_row(rows, node) < rows.len() && rows[first_row(rows, node)]
            == node,
    decreases rows.len(),
{
    if rows.len() > 0 && rows[0] != node {
        let rest = rows.drop_first();
        lemma_first_row(rest, node);
        if rows.contains(node) {
            let i = choose|i: int| 0 <= i < rows.len() && rows[i] == node;
            assert(rest[i - 1] == node);
        }
    }
}

fn step(at: usize, down: bool, n: usize) -> (r: usize)
    ensures
        r == stepped(at as int, down, n as int),
{
    if n == 0 {
        at
    } else if down {
        if at < n - 1 {
            at + 1
        } else {
            n - 1
        }
    } else {
        let next: usize = if at > 0 {
            at - 1
        } else {
            0
        };
        if next < n {
            next
        } else {
            n - 1
        }
    }
}

// ---------------------------------------------------------------------------
// What holds in every state
impl AppView {
    /// The cursor is on a visible row, the selected file is one of the node's,
    /// and the diff is scrolled to one of its lines.
    pub open spec fn sound(self) -> bool {
        &&& self.valid()
        &&& self.cursor < self.tree().len() || (self.tree().len() == 0 && self.cursor == 0)
        &&& (self.level == Level::Files || (self.level == Level::Diff && self.diff_of_file))
            ==> self.file < self.files().len()
        &&& self.level == Level::Diff ==> self.scroll < self.diff.len()
    }

    /// Sections and checkpoints can be counted.
    spec fn countable(self) -> bool {
        &&& self.review.sections.len() <= usize::MAX
        &&& forall|i: int|
            0 <= i < self.review.sections.len() ==> (
            #[trigger] self.review.sections[i]).steps().len() <= usize::MAX
    }
}

proof fn lemma_countable(app: App)
    ensures
        app.deep_view().countable(),
{
    let sections = app.review.sections;
    assert(sections.deep_view().len() == sections.len());
    assert forall|i: int| 0 <= i < sections.deep_view().len() implies (
    #[trigger] sections.deep_view()[i]).steps().len() <= usize::MAX by {
        assert(sections.deep_view()[i] == sections@[i].deep_view());
        match sections@[i] {
            ReviewSection::Commit(c) => {
                assert(c.checkpoints.deep_view().len() == c.checkpoints.len());
            },
            ReviewSection::WorkingTree(w) => {
                assert(w.checkpoints.deep_view().len() == w.checkpoints.len());
            },
        }
    }
}

proof fn lemma_rows_grow(
    sections: Seq<ReviewSectionView>,
    expanded: Seq<bool>,
    i: int,
    k: nat,
)
    requires
        k <= sections.len() == expanded.len(),
        0 <= i < expanded.len(),
        !expanded[i],
    ensures
        rows_of(sections, expanded, k).len() <= rows_of(
            sections,
            expanded.update(i, true),
            k,
        ).len(),
    decreases k,
{
    if k > 0 {
        lemma_rows_grow(sections, expanded, i, (k - 1) as nat);
    }
}

proof fn lemma_some_lines(text: Seq<char>)
    requires
        text.len() > 0,
    ensures
        text::lines(text).len() > 0,
{
}

proof fn lemma_section_rows(sections: Seq<ReviewSectionView>, expanded: Seq<bool>)
    requires
        sections.len() == expanded.len(),
        sections.len() > 0,
    ensures
        rows_of(sections, expanded, sections.len()).len() > 0,
{
}

/// The row of a checkpoint stands below that of its section.
proof fn lemma_section_above(
    sections: Seq<ReviewSectionView>,
    expanded: Seq<bool>,
    k: nat,
    m: int,
) -> (n: int)
    requires
        k <= sections.len() == expanded.len(),
        0 <= m < rows_of(sections, expanded, k).len(),
    ensures
        0 <= n <= m,
        rows_of(sections, expanded, k)[n] == Node::Section(
            rows_of(sections, expanded, k)[m].section_index(),
        ),
    decreases k,
{
    let before = rows_of(sections, expanded, (k - 1) as nat);
    let rows = rows_of(sections, expanded, k);
    if m < before.len() {
        let n = lemma_section_above(sections, expanded, (k - 1) as nat, m);
        assert(rows[m] == before[m]);
        assert(rows[n] == before[n]);
        n
    } else {
        before.len() as int
    }
}

proof fn lemma_first_is_first(rows: Seq<Node>, n: int)
    requires
        0 <= n < rows.len(),
    ensures
        first_row(rows, rows[n]) <= n,
    decreases rows.len(),
{
    if rows[0] != rows[n] {
        assert(rows.drop_first()[n - 1] == rows[n]);
        lemma_first_is_first(rows.drop_first(), n - 1);
    }
}

/// The row of the section above a visible row can be told by its number.
proof fn lemma_above_cursor(a: AppView)
    requires
        a.sound(),
        a.countable(),
        a.node() is Some,
    ensures
        ({
            let i = a.node()->Some_0.section_index();
            let at = row_of(a.tree(), Node::Section(i));
            &&& i < a.review.sections.len()
            &&& 0 <= at <= a.cursor
            &&& a.tree()[at] == Node::Section(i)
        }),
{
    let n = a.review.sections.len();
    let i = a.node()->Some_0.section_index();
    lemma_rows_valid(a.review.sections, a.expanded, n);
    assert(row_valid(a.review.sections, a.expanded, a.tree()[a.cursor as int], n as int));
    let m = lemma_section_above(a.review.sections, a.expanded, n, a.cursor as int);
    assert(a.tree().contains(Node::Section(i))) by {
        assert(a.tree()[m] == Node::Section(i));
    }
    lemma_first_row(a.tree(), Node::Section(i));
    lemma_first_is_first(a.tree(), m);
}

proof fn lemma_pressed_sound(a: AppView, key: Key)
    requires
        a.sound(),
        a.countable(),
    ensures
        pressed(a, key).0.sound(),
        pressed(a, key).0.review == a.review,
{
    let b = AppView { status: None, ..a };
    let after = pressed(a, key).0;
    let n = a.review.sections.len();
    assert(b.tree() == a.tree());
    assert(b.files() == a.files());
    if a.node() is Some {
        lemma_above_cursor(a);
    }
    match (a.level, key) {
        (Level::Development, Key::Enter) => match b.node() {
            Some(Node::Section(i)) => {
                if !b.expanded[i as int] {
                    lemma_rows_grow(a.review.sections, a.expanded, i as int, n);
                    assert(after.expanded =~= a.expanded.update(i as int, true));
                }
            },
            _ => {},
        },
        (Level::Development, Key::Back) => match b.node() {
            Some(Node::Section(i)) => {
                if b.expanded[i as int] {
                    lemma_section_rows(a.review.sections, a.expanded.update(i as int, false));
                }
            },
            _ => {},
        },
        _ => {},
    }
}

proof fn lemma_shown_sound(
    a: AppView,
    request: DiffRequestView,
    loaded: Result<Seq<char>, TrailErrorView>,
)
    requires
        a.sound(),
        request.of_file ==> a.file < a.files().len(),
    ensures
        a.diff_shown(request, loaded).sound(),
        a.diff_shown(request, loaded).review == a.review,
{
    let after = a.diff_shown(request, loaded);
    assert(after.tree() == a.tree());
    assert(after.files() == a.files());
    match loaded {
        Ok(text) => {
            if text.len() > 0 {
                lemma_some_lines(text);
            }
        },
        Err(_) => {},
    }
}

/// The state once a key was handled, with the diff that it asks for, if any,
/// taken in.
pub open spec fn handled(
    a: AppView,
    key: Key,
    loaded: Result<Seq<char>, TrailErrorView>,
) -> AppView {
    let (after, effect) = pressed(a, key);
    match effect {
        EffectView::Load(request) => after.diff_shown(request, loaded),
        _ => after,
    }
}

/// Every key leads from a sound state to a sound state, whatever comes of the
/// diff that it asks for, and never changes the review. Quit always quits.
pub proof fn lemma_keys_keep_sound(
    app: App,
    key: Key,
    loaded: Result<Seq<char>, TrailErrorView>,
)
    requires
        app.deep_view().sound(),
    ensures
        pressed(app.deep_view(), key).0.sound(),
        handled(app.deep_view(), key, loaded).sound(),
        handled(app.deep_view(), key, loaded).review == app.deep_view().review,
        key == Key::Quit ==> pressed(app.deep_view(), key).1 == EffectView::Quit,
{
    let a = app.deep_view();
    let b = AppView { status: None, ..a };
    lemma_countable(app);
    lemma_pressed_sound(a, key);
    assert(b.files() == a.files());
    match pressed(a, key).1 {
        EffectView::Load(request) => lemma_shown_sound(pressed(a, key).0, request, loaded),
        _ => {},
    }
}

/// Back leads out: from a diff to the files or the tree, from the files to the
/// tree, and on the tree from a checkpoint to its section, from an expanded
/// section to a collapsed one, and from there out of the browser.
pub proof fn lemma_back_leads_out(app: App)
    requires
        app.deep_view().sound(),
    ensures
        ({
            let a = app.deep_view();
            let (after, effect) = pressed(a, Key::Back);
            match a.level {
                Level::Diff => after.level == (if a.diff_of_file {
                    Level::Files
                } else {
                    Level::Development
                }) && effect is Stay,
                Level::Files => after.level == Level::Development && effect is Stay,
                Level::Development => match a.node() {
                    Some(Node::Checkpoint(i, _)) => after.node() == Some(Node::Section(i))
                        && effect is Stay,
                    Some(Node::Section(i)) => if a.expanded[i as int] {
                        !after.expanded[i as int] && effect is Stay
                    } else {
                        effect is Quit
                    },
                    None => effect is Quit,
                },
            }
        }),
{
    let a = app.deep_view();
    let b = AppView { status: None, ..a };
    assert(b.tree() == a.tree());
    lemma_countable(app);
    if a.level == Level::Development && a.node() is Some {
        lemma_above_cursor(a);
        assert(pressed(a, Key::Back).0.tree() == a.tree() || a.node()->Some_0 is Section);
    }
}

} // verus!
