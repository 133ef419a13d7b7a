//! Worktree awareness.
//!
//! A linked worktree has a `.git` *file* pointing at `<common>/.git/worktrees/<id>`.
//! This module only records what was learned about it, so the rest of the
//! program never has to care whether it runs in the main worktree or a linked
//! one.

use crate::data::{Dup, Same};
use crate::error::{outcome, TrailError, TrailErrorView};
use crate::path;
use crate::text;
use vstd::prelude::*;

verus! {

#[derive(Debug, Clone, Copy, PartialEq, Eq, Structural)]
pub enum WorktreeKind {
    /// The worktree that owns the `.git` directory.
    Main,
    /// A worktree created with `git worktree add`.
    Linked,
}

#[derive(Debug, Clone, PartialEq, Eq)]
pub struct WorktreeInfo {
    /// Root of the working tree we are operating on.
    pub root: String,
    /// Private git dir of this worktree (`.git` or `.git/worktrees/<id>`).
    pub git_dir: String,
    /// Shared git dir (`.git` of the main worktree).
    pub common_dir: String,
    pub kind: WorktreeKind,
    /// Identifier of a linked worktree (the directory name under `.git/worktrees`).
    pub id: Option<String>,
    /// Number of *other* worktrees attached to the same repository.
    pub sibling_count: usize,
}

impl DeepView for WorktreeKind {
    type V = WorktreeKind;

    open spec fn deep_view(&self) -> WorktreeKind {
        *self
    }
}

impl Dup for WorktreeKind {
    fn dup(&self) -> (r: WorktreeKind) {
        *self
    }
}

impl Same for WorktreeKind {
    fn same(&self, other: &WorktreeKind) -> (r: bool) {
        *self == *other
    }
}

/// What a [`WorktreeInfo`] denotes.
#[verifier::ext_equal]
pub struct WorktreeInfoView {
    pub root: Seq<char>,
    pub git_dir: Seq<char>,
    pub common_dir: Seq<char>,
    pub kind: WorktreeKind,
    pub id: Option<Seq<char>>,
    pub sibling_count: usize,
}

impl DeepView for WorktreeInfo {
    type V = WorktreeInfoView;

    open spec fn deep_view(&self) -> WorktreeInfoView {
        WorktreeInfoView {
            root: self.root.deep_view(),
            git_dir: self.git_dir.deep_view(),
            common_dir: self.common_dir.deep_view(),
            kind: self.kind.deep_view(),
            id: self.id.deep_view(),
            sibling_count: self.sibling_count.deep_view(),
        }
    }
}

impl Dup for WorktreeInfo {
    fn dup(&self) -> (r: WorktreeInfo) {
        WorktreeInfo {
            root: self.root.dup(),
            git_dir: self.git_dir.dup(),
            common_dir: self.common_dir.dup(),
            kind: self.kind.dup(),
            id: self.id.dup(),
            sibling_count: self.sibling_count.dup(),
        }
    }
}

/// How many of some worktrees are not the one named `id`.
pub open spec fn others(ids: Seq<Seq<char>>, id: Option<Seq<char>>) -> nat
    decreases ids.len(),
{
    if ids.len() == 0 {
        0
    } else {
        others(ids.drop_last(), id) + if Some(ids.last()) != id {
            1nat
        } else {
            0nat
        }
    }
}

/// What is known about the worktree of a repository.
///
/// `root` and `main` are missing in a repository without a working tree, `ids`
/// are the linked worktrees, or what went wrong listing them.
pub open spec fn described(
    root: Option<Seq<char>>,
    git_dir: Seq<char>,
    common_dir: Seq<char>,
    main: Option<bool>,
    id: Option<Seq<char>>,
    ids: Result<Seq<Seq<char>>, Seq<char>>,
) -> Result<WorktreeInfoView, TrailErrorView> {
    match (root, main, ids) {
        (None, _, _) => Err(TrailErrorView::BareRepository(git_dir)),
        (Some(_), None, _) => Err(
            TrailErrorView::WorktreeUnavailable("gix reported no worktree"@),
        ),
        (Some(_), Some(_), Err(m)) => Err(
            TrailErrorView::WorktreeUnavailable("cannot list worktrees: "@ + m),
        ),
        (Some(root), Some(main), Ok(ids)) => Ok(
            WorktreeInfoView {
                root,
                git_dir,
                common_dir: path::normalized(common_dir),
                kind: if main {
                    WorktreeKind::Main
                } else {
                    WorktreeKind::Linked
                },
                id,
                sibling_count: (others(ids, id) + if main {
                    0nat
                } else {
                    1nat
                }) as usize,
            },
        ),
    }
}

pub open spec fn listed(ids: Result<Vec<String>, String>) -> Result<Seq<Seq<char>>, Seq<char>> {
    match ids {
        Ok(v) => Ok(v.deep_view()),
        Err(m) => Err(m@),
    }
}

impl WorktreeInfo {
    /// Records what a repository says about its worktree: where it is, whether
    /// it is the main one, and which linked ones there are.
    pub fn from_repo(
        root: Option<String>,
        git_dir: String,
        common_dir: &str,
        main: Option<bool>,
        id: Option<String>,
        ids: Result<Vec<String>, String>,
    ) -> (r: Result<WorktreeInfo, TrailError>)
        requires
            ids is Ok ==> ids->Ok_0.len() < usize::MAX,
        ensures
            outcome(r) == described(
                root.deep_view(),
                git_dir@,
                common_dir@,
                main,
                id.deep_view(),
                listed(ids),
            ),
    {
        let root: String = match root {
            Some(root) => root,
            None => {
                return Err(TrailError::BareRepository(git_dir));
            },
        };
        let main: bool = match main {
            Some(main) => main,
            None => {
                return Err(
                    TrailError::WorktreeUnavailable("gix reported no worktree".to_owned()),
                );
            },
        };
        let ids: Vec<String> = match ids {
            Ok(ids) => ids,
            Err(m) => {
                return Err(
                    TrailError::WorktreeUnavailable(text::cat2("cannot list worktrees: ", &m)),
                );
            },
        };
        let ghost all = ids.deep_view();
        let mut count: usize = 0;
        let mut k: usize = 0;
        assert(all.take(0) =~= Seq::empty());
        while k < ids.len()
            invariant
                k <= ids.len() < usize::MAX,
                all == ids.deep_view(),
                count <= k,
                count == others(all.take(k as int), id.deep_view()),
            decreases ids.len() - k,
        {
            proof {
                assert(all.take(k + 1).drop_last() =~= all.take(k as int));
                assert(all.take(k + 1).last() == ids[k as int]@);
            }
            let own: bool = match &id {
                Some(id) => text::same(id, &ids[k]),
                None => false,
            };
            if !own {
                count = count + 1;
            }
            k += 1;
        }
        assert(all.take(k as int) =~= all);
        Ok(
            WorktreeInfo {
                root,
                git_dir,
                common_dir: path::normalize(common_dir),
                kind: if main {
                    WorktreeKind::Main
                } else {
                    WorktreeKind::Linked
                },
                id,
                sibling_count: if main {
                    count
                } else {
                    count + 1
                },
            },
        )
    }
}

} // verus!
