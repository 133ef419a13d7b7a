//! The repository: HEAD, base branch resolution and paths in it.

use super::worktree::{WorktreeInfo, WorktreeInfoView, WorktreeKind};
use crate::data::Dup;
use crate::error::{outcome, TrailError, TrailErrorView};
use crate::path;
use crate::text;
use vstd::prelude::*;

verus! {

/// State of HEAD as far as trail cares.
#[derive(Debug, Clone, PartialEq, Eq)]
pub enum HeadState {
    Branch {
        name: String,
    },
    Detached {
        short_id: String,
    },
}

/// A resolved base branch: the name we show and the commit it points to.
#[derive(Debug, Clone, PartialEq, Eq)]
pub struct BaseRef {
    pub name: String,
    pub id: String,
    /// Best common ancestor of HEAD and the base; every "since branching" query
    /// starts here.
    pub merge_base: String,
    /// True when `--base` was passed explicitly.
    pub explicit: bool,
}

/// What a [`HeadState`] denotes.
#[verifier::ext_equal]
pub enum HeadStateView {
    Branch {
        name: Seq<char>,
    },
    Detached {
        short_id: Seq<char>,
    },
}

impl DeepView for HeadState {
    type V = HeadStateView;

    open spec fn deep_view(&self) -> HeadStateView {
        match *self {
            HeadState::Branch { name } => HeadStateView::Branch {
                name: name.deep_view(),
            },
            HeadState::Detached { short_id } => HeadStateView::Detached {
                short_id: short_id.deep_view(),
            },
        }
    }
}

impl Dup for HeadState {
    fn dup(&self) -> (r: HeadState) {
        match self {
            HeadState::Branch { name } => HeadState::Branch {
                name: name.dup(),
            },
            HeadState::Detached { short_id } => HeadState::Detached {
                short_id: short_id.dup(),
            },
        }
    }
}

/// What a [`BaseRef`] denotes.
#[verifier::ext_equal]
pub struct BaseRefView {
    pub name: Seq<char>,
    pub id: Seq<char>,
    pub merge_base: Seq<char>,
    pub explicit: bool,
}

impl DeepView for BaseRef {
    type V = BaseRefView;

    open spec fn deep_view(&self) -> BaseRefView {
        BaseRefView {
            name: self.name.deep_view(),
            id: self.id.deep_view(),
            merge_base: self.merge_base.deep_view(),
            explicit: self.explicit.deep_view(),
        }
    }
}

impl Dup for BaseRef {
    fn dup(&self) -> (r: BaseRef) {
        BaseRef {
            name: self.name.dup(),
            id: self.id.dup(),
            merge_base: self.merge_base.dup(),
            explicit: self.explicit.dup(),
        }
    }
}

impl HeadStateView {
    /// Branch name, `None` on a detached HEAD.
    pub open spec fn branch(self) -> Option<Seq<char>> {
        match self {
            HeadStateView::Branch { name } => Some(name),
            HeadStateView::Detached { short_id } => None,
        }
    }

    pub open spec fn label_text(self) -> Seq<char> {
        match self {
            HeadStateView::Branch { name } => name,
            HeadStateView::Detached { short_id } => "(detached HEAD at "@ + short_id + ")"@,
        }
    }
}

impl HeadState {
    /// Branch name, `None` on a detached HEAD.
    pub fn branch_name(&self) -> (r: Option<&str>)
        ensures
            r.deep_view() == self.deep_view().branch(),
    {
        match self {
            HeadState::Branch { name } => Some(name),
            HeadState::Detached { short_id: _ } => None,
        }
    }

    pub fn label(&self) -> (r: String)
        ensures
            r@ == self.deep_view().label_text(),
    {
        match self {
            HeadState::Branch { name } => name.clone(),
            HeadState::Detached { short_id } => text::cat3("(detached HEAD at ", short_id, ")"),
        }
    }
}

/// A repository, seen from one of its worktrees.
#[derive(Debug, Clone, PartialEq, Eq)]
pub struct Repo {
    pub name: String,
    pub worktree: WorktreeInfo,
    pub head: HeadState,
    pub head_id: String,
    pub is_shallow: bool,
    /// False for a worktree that was removed: there is no working tree to read.
    pub live: bool,
}

/// What a [`Repo`] denotes.
#[verifier::ext_equal]
pub struct RepoView {
    pub name: Seq<char>,
    pub worktree: WorktreeInfoView,
    pub head: HeadStateView,
    pub head_id: Seq<char>,
    pub is_shallow: bool,
    pub live: bool,
}

impl DeepView for Repo {
    type V = RepoView;

    open spec fn deep_view(&self) -> RepoView {
        RepoView {
            name: self.name.deep_view(),
            worktree: self.worktree.deep_view(),
            head: self.head.deep_view(),
            head_id: self.head_id.deep_view(),
            is_shallow: self.is_shallow.deep_view(),
            live: self.live.deep_view(),
        }
    }
}

impl Dup for Repo {
    fn dup(&self) -> (r: Repo) {
        Repo {
            name: self.name.dup(),
            worktree: self.worktree.dup(),
            head: self.head.dup(),
            head_id: self.head_id.dup(),
            is_shallow: self.is_shallow.dup(),
            live: self.live.dup(),
        }
    }
}

/// `s` without every `suffix` at its end.
pub open spec fn without_suffixes(s: Seq<char>, suffix: Seq<char>) -> Seq<char>
    decreases s.len(),
{
    if suffix.len() > 0 && suffix.is_suffix_of(s) {
        without_suffixes(s.take(s.len() - suffix.len()), suffix)
    } else {
        s
    }
}

/// The name of the repository with a shared git dir: `<repo>/.git` and
/// `<repo>.git` are both `<repo>`.
pub open spec fn repo_name_of(common_dir: Seq<char>) -> Seq<char> {
    let dir = if path::file_name(common_dir) == Some(".git"@) {
        match path::parent(common_dir) {
            Some(p) => p,
            None => common_dir,
        }
    } else {
        common_dir
    };
    match path::file_name(dir) {
        Some(name) => without_suffixes(name, ".git"@),
        None => "repository"@,
    }
}

fn strip_suffixes(s: &str, suffix: &str) -> (r: String)
    ensures
        r@ == without_suffixes(s@, suffix@),
{
    let mut rest: String = s.to_owned();
    let m: usize = suffix.unicode_len();
    while m > 0 && text::ends_with(&rest, suffix)
        invariant
            m == suffix@.len(),
            without_suffixes(s@, suffix@) == without_suffixes(rest@, suffix@),
        decreases rest@.len(),
    {
        let n: usize = rest.as_str().unicode_len();
        let ghost was = rest@;
        let shorter: String = rest.as_str().substring_char(0, n - m).to_owned();
        assert(shorter@ =~= was.take(n - m));
        rest = shorter;
    }
    rest
}

/// The name of the repository with a shared git dir.
pub fn repo_name(common_dir: &str) -> (r: String)
    ensures
        r@ == repo_name_of(common_dir@),
{
    let is_git: bool = match path::file_name_of(common_dir) {
        Some(n) => text::same(&n, ".git"),
        None => false,
    };
    let dir: String = if is_git {
        match path::parent_of(common_dir) {
            Some(p) => p,
            None => common_dir.to_owned(),
        }
    } else {
        common_dir.to_owned()
    };
    match path::file_name_of(&dir) {
        Some(name) => strip_suffixes(&name, ".git"),
        None => "repository".to_owned(),
    }
}

/// What a repository that could not be opened is reported as; `debug` is the
/// failure in full.
pub fn discover_failure(start: &str, debug: &str) -> (r: TrailError)
    ensures
        r.deep_view() == (if text::holds(debug@, "PermissionDenied"@) {
            TrailErrorView::PermissionDenied(start@)
        } else {
            TrailErrorView::NotARepository(start@)
        }),
{
    if text::contains(debug, "PermissionDenied") {
        TrailError::PermissionDenied(start.to_owned())
    } else {
        TrailError::NotARepository(start.to_owned())
    }
}

/// What HEAD is, from what a repository says of it: the commit it points to
/// (none before the first one), and the branch, which a detached HEAD lacks.
pub open spec fn head_of(
    unborn: bool,
    id: Option<Seq<char>>,
    detached: bool,
    short_id: Seq<char>,
    branch: Option<Seq<char>>,
) -> Result<(HeadStateView, Seq<char>), TrailErrorView> {
    match id {
        Some(id) if !unborn => Ok(
            (
                if detached {
                    HeadStateView::Detached { short_id }
                } else {
                    HeadStateView::Branch {
                        name: match branch {
                            Some(name) => name,
                            None => "HEAD"@,
                        },
                    }
                },
                id,
            ),
        ),
        _ => Err(TrailErrorView::EmptyRepository),
    }
}

impl HeadState {
    /// What HEAD is, and the commit it points to.
    pub fn read(
        unborn: bool,
        id: Option<String>,
        detached: bool,
        short_id: String,
        branch: Option<String>,
    ) -> (r: Result<(HeadState, String), TrailError>)
        ensures
            outcome(r) == head_of(
                unborn,
                id.deep_view(),
                detached,
                short_id@,
                branch.deep_view(),
            ),
    {
        match id {
            Some(id) => {
                if unborn {
                    return Err(TrailError::EmptyRepository);
                }
                let head: HeadState = if detached {
                    HeadState::Detached { short_id }
                } else {
                    HeadState::Branch {
                        name: match branch {
                            Some(name) => name,
                            None => "HEAD".to_owned(),
                        },
                    }
                };
                Ok((head, id))
            },
            None => Err(TrailError::EmptyRepository),
        }
    }
}

/// The id of a worktree inside the trail store: that of the linked worktree,
/// or `main`.
pub open spec fn worktree_id_of(w: WorktreeInfoView) -> Seq<char> {
    match w.id {
        Some(id) => id,
        None => "main"@,
    }
}

/// A repository seen from a worktree that was removed.
pub open spec fn removed_repo(
    repo: RepoView,
    id: Seq<char>,
    root: Seq<char>,
    branch: Option<Seq<char>>,
    head_id: Seq<char>,
    short_id: Seq<char>,
) -> RepoView {
    RepoView {
        worktree: WorktreeInfoView {
            root,
            kind: WorktreeKind::Linked,
            id: Some(id),
            ..repo.worktree
        },
        head: match branch {
            Some(name) => HeadStateView::Branch { name },
            None => HeadStateView::Detached { short_id },
        },
        head_id,
        live: false,
        ..repo
    }
}

impl Repo {
    /// The repository that `worktree` belongs to, with HEAD where it is.
    pub fn new(
        worktree: WorktreeInfo,
        head: HeadState,
        head_id: String,
        is_shallow: bool,
    ) -> (r: Repo)
        ensures
            r.deep_view() == (RepoView {
                name: repo_name_of(worktree.deep_view().common_dir),
                worktree: worktree.deep_view(),
                head: head.deep_view(),
                head_id: head_id@,
                is_shallow,
                live: true,
            }),
    {
        let name: String = repo_name(&worktree.common_dir);
        Repo { name, worktree, head, head_id, is_shallow, live: true }
    }

    pub fn workdir(&self) -> (r: &str)
        ensures
            r@ == self.deep_view().worktree.root,
    {
        &self.worktree.root
    }

    /// Identifier of the worktree inside the trail store.
    pub fn worktree_id(&self) -> (r: String)
        ensures
            r@ == worktree_id_of(self.deep_view().worktree),
    {
        match &self.worktree.id {
            Some(id) => id.dup(),
            None => "main".to_owned(),
        }
    }

    /// Turn a user supplied path into a repository-relative, slash separated path.
    /// A path outside the worktree as given is taken as relative to the
    /// repository root.
    pub fn relative_path(&self, cwd: &str, file: &str) -> (r: Result<String, TrailError>)
        ensures
            outcome(r) == Ok::<Seq<char>, TrailErrorView>(
                path::relative(self.deep_view().worktree.root, cwd@, file@),
            ),
    {
        Ok(path::relative_to(&self.worktree.root, cwd, file))
    }

    /// This repository seen from a worktree that was removed, as its sessions
    /// remember it.
    pub fn for_removed_worktree(
        &self,
        id: &str,
        root: &str,
        branch: Option<&str>,
        head_id: String,
        short_id: String,
    ) -> (r: Repo)
        ensures
            r.deep_view() == removed_repo(
                self.deep_view(),
                id@,
                root@,
                branch.deep_view(),
                head_id@,
                short_id@,
            ),
    {
        let worktree = WorktreeInfo {
            root: root.to_owned(),
            git_dir: self.worktree.git_dir.dup(),
            common_dir: self.worktree.common_dir.dup(),
            kind: WorktreeKind::Linked,
            id: Some(id.to_owned()),
            sibling_count: self.worktree.sibling_count,
        };
        let head: HeadState = match branch {
            Some(name) => HeadState::Branch { name: name.to_owned() },
            None => HeadState::Detached { short_id },
        };
        let r = Repo {
            name: self.name.dup(),
            worktree,
            head,
            head_id,
            is_shallow: self.is_shallow,
            live: false,
        };
        assert(r.deep_view() =~= removed_repo(
            self.deep_view(),
            id@,
            root@,
            branch.deep_view(),
            head_id@,
            short_id@,
        ));
        r
    }
}

// ---------------------------------------------------------------------------
// The base branch
/// The references `name` may mean, in order, each with the name to show:
/// a local branch, a remote one, one of `origin`, any reference.
pub open spec fn candidates(name: Seq<char>) -> Seq<(Seq<char>, Seq<char>)> {
    seq![
        ("refs/heads/"@ + name, name),
        ("refs/remotes/"@ + name, name),
        ("refs/remotes/origin/"@ + name, "origin/"@ + name),
        (name, name),
    ]
}

/// The references `name` may mean, in order, each with the name to show.
pub fn branch_candidates(name: &str) -> (r: Vec<(String, String)>)
    ensures
        r.deep_view() == candidates(name@),
{
    let r: Vec<(String, String)> = vec![
        (text::cat2("refs/heads/", name), name.to_owned()),
        (text::cat2("refs/remotes/", name), name.to_owned()),
        (text::cat2("refs/remotes/origin/", name), text::cat2("origin/", name)),
        (name.to_owned(), name.to_owned()),
    ];
    assert(r.deep_view() =~= candidates(name@));
    r
}

/// The references to look for as the base branch, in order. The first one that
/// exists is the base; when none does and nothing was asked for, the remote
/// default branch is left to try.
pub open spec fn base_references(explicit: Option<Seq<char>>) -> Seq<(Seq<char>, Seq<char>)> {
    match explicit {
        Some(name) => candidates(name),
        None => candidates("main"@) + candidates("master"@),
    }
}

/// The references to look for as the base branch, in order.
pub fn base_lookups(explicit: Option<&str>) -> (r: Vec<(String, String)>)
    ensures
        r.deep_view() == base_references(explicit.deep_view()),
{
    match explicit {
        Some(name) => branch_candidates(name),
        None => {
            let mut r: Vec<(String, String)> = branch_candidates("main");
            let ghost first = r.deep_view();
            let mut more: Vec<(String, String)> = branch_candidates("master");
            let ghost second = more.deep_view();
            r.append(&mut more);
            assert(r.deep_view() =~= first + second);
            r
        },
    }
}

/// The first of some references that exists: the name to show and its commit.
/// `ids` are their commits, as far as they were looked up.
pub open spec fn first_existing(
    references: Seq<(Seq<char>, Seq<char>)>,
    ids: Seq<Option<Seq<char>>>,
) -> Option<(Seq<char>, Seq<char>)>
    decreases references.len(),
{
    if references.len() == 0 || ids.len() == 0 {
        None
    } else {
        match ids[0] {
            Some(id) => Some((references[0].1, id)),
            None => first_existing(references.drop_first(), ids.drop_first()),
        }
    }
}

/// The first of some references that exists: the name to show and its commit.
pub fn first_found(references: &Vec<(String, String)>, ids: &Vec<Option<String>>) -> (r: Option<
    (String, String),
>)
    ensures
        r.deep_view() == first_existing(references.deep_view(), ids.deep_view()),
{
    let ghost refs = references.deep_view();
    let ghost all = ids.deep_view();
    let mut k: usize = 0;
    assert(refs.skip(0) =~= refs);
    assert(all.skip(0) =~= all);
    while k < references.len() && k < ids.len()
        invariant
            k <= references.len(),
            k <= ids.len(),
            refs == references.deep_view(),
            all == ids.deep_view(),
            first_existing(refs, all) == first_existing(refs.skip(k as int), all.skip(k as int)),
        decreases references.len() - k,
    {
        assert(all.skip(k as int)[0] == ids[k as int].deep_view());
        assert(refs.skip(k as int)[0] == (references[k as int].0@, references[k as int].1@));
        match &ids[k] {
            Some(id) => {
                return Some((references[k].1.dup(), id.dup()));
            },
            None => {},
        }
        assert(refs.skip(k as int).drop_first() =~= refs.skip(k + 1));
        assert(all.skip(k as int).drop_first() =~= all.skip(k + 1));
        k += 1;
    }
    None
}

/// The base: what was found among the references to look for, or else, when
/// nothing was asked for, the remote default branch.
pub open spec fn base_found(
    explicit: Option<Seq<char>>,
    listed: Option<(Seq<char>, Seq<char>)>,
    remote: Option<(Seq<char>, Seq<char>)>,
) -> Option<(Seq<char>, Seq<char>)> {
    match (listed, explicit) {
        (Some(found), _) => Some(found),
        (None, None) => remote,
        (None, Some(_)) => None,
    }
}

/// Which branch is the base: `listed` is the first of [`base_lookups`] that
/// exists, `remote` the remote default branch.
pub fn found_base(
    explicit: Option<&str>,
    listed: Option<(String, String)>,
    remote: Option<(String, String)>,
) -> (r: Option<(String, String)>)
    ensures
        r.deep_view() == base_found(
            explicit.deep_view(),
            listed.deep_view(),
            remote.deep_view(),
        ),
{
    match listed {
        Some(found) => Some(found),
        None => match explicit {
            None => remote,
            Some(_) => None,
        },
    }
}

proof fn lemma_existing_concat(
    a: Seq<(Seq<char>, Seq<char>)>,
    b: Seq<(Seq<char>, Seq<char>)>,
    x: Seq<Option<Seq<char>>>,
    y: Seq<Option<Seq<char>>>,
)
    requires
        a.len() == x.len(),
    ensures
        first_existing(a + b, x + y) == (match first_existing(a, x) {
            Some(found) => Some(found),
            None => first_existing(b, y),
        }),
    decreases a.len(),
{
    if a.len() == 0 {
        assert(a + b =~= b);
        assert(x + y =~= y);
    } else {
        lemma_existing_concat(a.drop_first(), b, x.drop_first(), y);
        assert((a + b).drop_first() =~= a.drop_first() + b);
        assert((x + y).drop_first() =~= x.drop_first() + y);
        if b.len() == 0 && y.len() == 0 {
            assert(a + b =~= a);
        }
    }
}

/// When nothing was asked for the base is `main`, then `master`, then the remote
/// default branch; when a branch was asked for it is that one or none.
pub proof fn lemma_base_order(
    main: Seq<Option<Seq<char>>>,
    master: Seq<Option<Seq<char>>>,
    remote: Option<(Seq<char>, Seq<char>)>,
    name: Seq<char>,
    named: Seq<Option<Seq<char>>>,
)
    requires
        main.len() == candidates("main"@).len(),
    ensures
        base_found(None, first_existing(base_references(None), main + master), remote) == (
        match first_existing(candidates("main"@), main) {
            Some(found) => Some(found),
            None => match first_existing(candidates("master"@), master) {
                Some(found) => Some(found),
                None => remote,
            },
        }),
        base_found(Some(name), first_existing(base_references(Some(name)), named), remote)
            == first_existing(candidates(name), named),
{
    lemma_existing_concat(candidates("main"@), candidates("master"@), main, master);
}

/// The base branch, from the reference that was found (its name and commit)
/// and the best common ancestor with HEAD.
pub open spec fn resolved_base(
    explicit: Option<Seq<char>>,
    found: Option<(Seq<char>, Seq<char>)>,
    merge_base: Option<Seq<char>>,
    shallow: bool,
) -> Result<BaseRefView, TrailErrorView> {
    match (found, merge_base) {
        (None, _) => match explicit {
            Some(name) => Err(TrailErrorView::BaseBranchNotFound(name)),
            None => Err(TrailErrorView::NoBaseBranch),
        },
        (Some((name, _)), None) => Err(TrailErrorView::NoMergeBase { base: name, shallow }),
        (Some((name, id)), Some(merge_base)) => Ok(
            BaseRefView { name, id, merge_base, explicit: explicit is Some },
        ),
    }
}

impl Repo {
    /// Resolve the base branch.
    ///
    /// Priority: explicit `--base`, then `main`, `master`, then the remote
    /// default branch recorded in `refs/remotes/origin/HEAD`: `found` is the first
    /// of those that exists, `merge_base` its best common ancestor with HEAD.
    pub fn resolve_base(
        &self,
        explicit: Option<&str>,
        found: Option<(String, String)>,
        merge_base: Option<String>,
    ) -> (r: Result<BaseRef, TrailError>)
        ensures
            outcome(r) == resolved_base(
                explicit.deep_view(),
                found.deep_view(),
                merge_base.deep_view(),
                self.deep_view().is_shallow,
            ),
    {
        match found {
            None => match explicit {
                Some(name) => Err(TrailError::BaseBranchNotFound(name.to_owned())),
                None => Err(TrailError::NoBaseBranch),
            },
            Some((name, id)) => match merge_base {
                None => Err(TrailError::NoMergeBase { base: name, shallow: self.is_shallow }),
                Some(merge_base) => Ok(
                    BaseRef { name, id, merge_base, explicit: explicit.is_some() },
                ),
            },
        }
    }
}

} // verus!
