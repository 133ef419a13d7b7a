//! Baselines: where a trail starts.
//!
//! The base branch answers "what will this PR contain". A baseline answers
//! "what happened since X", where X may be the last push, the upstream
//! branch, the base branch or any commit. Baselines are pure view filters:
//! they never change what is recorded, only how far back a command looks.

use super::repository::{BaseRef, BaseRefView, Repo};
use crate::data::{Dup, Same};
use crate::error::{outcome, TrailError, TrailErrorView};
use crate::text;
use vstd::prelude::*;

verus! {

#[derive(Debug, Clone, Copy, PartialEq, Eq, Structural)]
pub enum BaselineKind {
    /// The commit most recently pushed from this branch (from the reflog of
    /// its remote-tracking ref).
    LastPush,
    /// The current tip of the remote-tracking branch.
    Upstream,
    /// The merge base with the base branch (`main` unless `--base`).
    BaseBranch,
    /// An explicit revision given with `--since <rev>`.
    Commit,
}

#[derive(Debug, Clone, PartialEq, Eq)]
pub struct Baseline {
    pub kind: BaselineKind,
    /// Human label: "last push", "upstream origin/feature", "base main", ...
    pub label: String,
    /// The commit the baseline names.
    pub commit: String,
    /// Where the trail actually starts: the merge base of `commit` and HEAD,
    /// which differs from `commit` after a rebase or amend.
    pub start: String,
    pub short_commit: String,
    pub short_start: String,
    /// True when `--since` was given.
    pub explicit: bool,
}

/// Selector accepted by `--since`.
#[derive(Debug, Clone, PartialEq, Eq)]
pub enum SinceSpec {
    Push,
    Upstream,
    Base,
    Auto,
    Rev(String),
}

impl DeepView for BaselineKind {
    type V = BaselineKind;

    open spec fn deep_view(&self) -> BaselineKind {
        *self
    }
}

impl Dup for BaselineKind {
    fn dup(&self) -> (r: BaselineKind) {
        *self
    }
}

impl Same for BaselineKind {
    fn same(&self, other: &BaselineKind) -> (r: bool) {
        *self == *other
    }
}

/// What a [`Baseline`] denotes.
#[verifier::ext_equal]
pub struct BaselineView {
    pub kind: BaselineKind,
    pub label: Seq<char>,
    pub commit: Seq<char>,
    pub start: Seq<char>,
    pub short_commit: Seq<char>,
    pub short_start: Seq<char>,
    pub explicit: bool,
}

impl DeepView for Baseline {
    type V = BaselineView;

    open spec fn deep_view(&self) -> BaselineView {
        BaselineView {
            kind: self.kind.deep_view(),
            label: self.label.deep_view(),
            commit: self.commit.deep_view(),
            start: self.start.deep_view(),
            short_commit: self.short_commit.deep_view(),
            short_start: self.short_start.deep_view(),
            explicit: self.explicit.deep_view(),
        }
    }
}

impl Dup for Baseline {
    fn dup(&self) -> (r: Baseline) {
        Baseline {
            kind: self.kind.dup(),
            label: self.label.dup(),
            commit: self.commit.dup(),
            start: self.start.dup(),
            short_commit: self.short_commit.dup(),
            short_start: self.short_start.dup(),
            explicit: self.explicit.dup(),
        }
    }
}

/// What a [`SinceSpec`] denotes.
#[verifier::ext_equal]
pub enum SinceSpecView {
    Push,
    Upstream,
    Base,
    Auto,
    Rev(Seq<char>),
}

impl DeepView for SinceSpec {
    type V = SinceSpecView;

    open spec fn deep_view(&self) -> SinceSpecView {
        match *self {
            SinceSpec::Push => SinceSpecView::Push,
            SinceSpec::Upstream => SinceSpecView::Upstream,
            SinceSpec::Base => SinceSpecView::Base,
            SinceSpec::Auto => SinceSpecView::Auto,
            SinceSpec::Rev(x) => SinceSpecView::Rev(x.deep_view()),
        }
    }
}

impl Dup for SinceSpec {
    fn dup(&self) -> (r: SinceSpec) {
        match self {
            SinceSpec::Push => SinceSpec::Push,
            SinceSpec::Upstream => SinceSpec::Upstream,
            SinceSpec::Base => SinceSpec::Base,
            SinceSpec::Auto => SinceSpec::Auto,
            SinceSpec::Rev(x) => SinceSpec::Rev(x.dup()),
        }
    }
}

/// What `--since` asks for.
pub open spec fn since_of(value: Option<Seq<char>>) -> SinceSpecView {
    match value {
        None => SinceSpecView::Base,
        Some(v) => {
            let v = text::trim(v);
            if v == "auto"@ {
                SinceSpecView::Auto
            } else if v == "push"@ || v == "last-push"@ {
                SinceSpecView::Push
            } else if v == "upstream"@ || v == "@{upstream}"@ || v == "@{u}"@ {
                SinceSpecView::Upstream
            } else if v == "base"@ {
                SinceSpecView::Base
            } else {
                SinceSpecView::Rev(v)
            }
        },
    }
}

impl SinceSpec {
    pub fn parse(value: Option<&str>) -> (r: SinceSpec)
        ensures
            r.deep_view() == since_of(value.deep_view()),
    {
        match value {
            None => SinceSpec::Base,
            Some(v) => {
                let v: &str = text::trim_of(v);
                if text::same(v, "auto") {
                    SinceSpec::Auto
                } else if text::same(v, "push") || text::same(v, "last-push") {
                    SinceSpec::Push
                } else if text::same(v, "upstream") || text::same(v, "@{upstream}") || text::same(
                    v,
                    "@{u}",
                ) {
                    SinceSpec::Upstream
                } else if text::same(v, "base") {
                    SinceSpec::Base
                } else {
                    SinceSpec::Rev(v.to_owned())
                }
            },
        }
    }
}

/// What a baseline names: its kind, its label and its commit.
#[derive(Debug, Clone, PartialEq, Eq)]
pub struct Anchor {
    pub kind: BaselineKind,
    pub label: String,
    pub commit: String,
}

/// What a [`Anchor`] denotes.
#[verifier::ext_equal]
pub struct AnchorView {
    pub kind: BaselineKind,
    pub label: Seq<char>,
    pub commit: Seq<char>,
}

impl DeepView for Anchor {
    type V = AnchorView;

    open spec fn deep_view(&self) -> AnchorView {
        AnchorView {
            kind: self.kind.deep_view(),
            label: self.label.deep_view(),
            commit: self.commit.deep_view(),
        }
    }
}

impl Dup for Anchor {
    fn dup(&self) -> (r: Anchor) {
        Anchor {
            kind: self.kind.dup(),
            label: self.label.dup(),
            commit: self.commit.dup(),
        }
    }
}

/// `update by push` entries of a remote-tracking reflog are pushes.
pub open spec fn is_push(message: Seq<u8>) -> bool {
    seq![117u8, 112, 100, 97, 116, 101, 32, 98, 121, 32, 112, 117, 115, 104].is_prefix_of(message)
}

/// The commit of the first push among reflog entries, given newest first.
pub open spec fn newest_push(entries: Seq<(Seq<u8>, Seq<char>)>) -> Option<Seq<char>>
    decreases entries.len(),
{
    if entries.len() == 0 {
        None
    } else if is_push(entries[0].0) {
        Some(entries[0].1)
    } else {
        newest_push(entries.drop_first())
    }
}

fn push_message(message: &Vec<u8>) -> (r: bool)
    ensures
        r == is_push(message.deep_view()),
{
    let want: Vec<u8> = vec![117, 112, 100, 97, 116, 101, 32, 98, 121, 32, 112, 117, 115, 104];
    let ghost head = seq![117u8, 112, 100, 97, 116, 101, 32, 98, 121, 32, 112, 117, 115, 104];
    assert(want@ =~= head);
    let ghost m = message.deep_view();
    if message.len() < want.len() {
        return false;
    }
    let mut k: usize = 0;
    while k < want.len()
        invariant
            k <= want.len() <= message.len(),
            want@ == head,
            head == seq![117u8, 112, 100, 97, 116, 101, 32, 98, 121, 32, 112, 117, 115, 104],
            m == message.deep_view(),
            forall|i: int| 0 <= i < k ==> m[i] == head[i],
        decreases want.len() - k,
    {
        assert(m[k as int] == message@[k as int]);
        if message[k] != want[k] {
            assert(m.subrange(0, head.len() as int)[k as int] != head[k as int]);
            return false;
        }
        k += 1;
    }
    assert(m.subrange(0, head.len() as int) =~= head);
    true
}

/// Newest `update by push` entry in a remote-tracking ref's reflog, whose
/// messages and commits are given newest first.
pub fn last_push(entries: &Vec<(Vec<u8>, String)>) -> (r: Option<String>)
    ensures
        r.deep_view() == newest_push(entries.deep_view()),
{
    let ghost all = entries.deep_view();
    let mut k: usize = 0;
    assert(all.skip(0) =~= all);
    while k < entries.len()
        invariant
            k <= entries.len(),
            all == entries.deep_view(),
            newest_push(all) == newest_push(all.skip(k as int)),
        decreases entries.len() - k,
    {
        assert(all.skip(k as int)[0] == all[k as int]);
        assert(all[k as int] == (entries[k as int].0.deep_view(), entries[k as int].1@));
        if push_message(&entries[k].0) {
            return Some(entries[k].1.dup());
        }
        assert(all.skip(k as int).drop_first() =~= all.skip(k + 1));
        k += 1;
    }
    None
}

pub open spec fn base_anchor(base: BaseRefView) -> AnchorView {
    AnchorView { kind: BaselineKind::BaseBranch, label: "base "@ + base.name, commit: base.id }
}

pub open spec fn push_anchor(label: Seq<char>, commit: Seq<char>) -> AnchorView {
    AnchorView { kind: BaselineKind::LastPush, label: "last push to "@ + label, commit }
}

pub open spec fn upstream_anchor(label: Seq<char>, commit: Seq<char>) -> AnchorView {
    AnchorView { kind: BaselineKind::Upstream, label: "upstream "@ + label, commit }
}

/// What `--since` names, given the remote-tracking branch, its tip and the last
/// push to it, and the revision asked for (its commit and short id).
///
/// `auto` takes the last push, then the upstream, then the base branch.
pub open spec fn anchored(
    spec_: SinceSpecView,
    base: BaseRefView,
    pushed: Option<(Seq<char>, Seq<char>)>,
    upstream: Option<(Seq<char>, Seq<char>)>,
    rev: Option<(Seq<char>, Seq<char>)>,
) -> Result<AnchorView, TrailErrorView> {
    match spec_ {
        SinceSpecView::Auto => match (pushed, upstream) {
            (Some((label, commit)), _) => Ok(push_anchor(label, commit)),
            (None, Some((label, commit))) => Ok(upstream_anchor(label, commit)),
            (None, None) => Ok(base_anchor(base)),
        },
        SinceSpecView::Push => match pushed {
            Some((label, commit)) => Ok(push_anchor(label, commit)),
            None => Err(
                TrailErrorView::NoBaseline("no push of this branch is recorded in the reflog"@),
            ),
        },
        SinceSpecView::Upstream => match upstream {
            Some((label, commit)) => Ok(upstream_anchor(label, commit)),
            None => Err(TrailErrorView::NoBaseline("this branch has no upstream"@)),
        },
        SinceSpecView::Base => Ok(base_anchor(base)),
        SinceSpecView::Rev(name) => match rev {
            Some((commit, short)) => Ok(
                AnchorView { kind: BaselineKind::Commit, label: "commit "@ + short, commit },
            ),
            None => Err(TrailErrorView::NoBaseline("'"@ + name + "' is not a known revision"@)),
        },
    }
}

/// What `--since` names. `pushed` and `upstream` are the remote-tracking branch
/// with the commit last pushed to it and with its tip, `rev` is the revision
/// asked for with its short id.
pub fn anchor(
    since: &SinceSpec,
    base: &BaseRef,
    pushed: Option<(String, String)>,
    upstream: Option<(String, String)>,
    rev: Option<(String, String)>,
) -> (r: Result<Anchor, TrailError>)
    ensures
        outcome(r) == anchored(
            since.deep_view(),
            base.deep_view(),
            pushed.deep_view(),
            upstream.deep_view(),
            rev.deep_view(),
        ),
{
    match since {
        SinceSpec::Auto => match pushed {
            Some((label, commit)) => Ok(at_push(&label, commit)),
            None => match upstream {
                Some((label, commit)) => Ok(at_upstream(&label, commit)),
                None => Ok(base_branch(base)),
            },
        },
        SinceSpec::Push => match pushed {
            Some((label, commit)) => Ok(at_push(&label, commit)),
            None => Err(
                TrailError::NoBaseline(
                    "no push of this branch is recorded in the reflog".to_owned(),
                ),
            ),
        },
        SinceSpec::Upstream => match upstream {
            Some((label, commit)) => Ok(at_upstream(&label, commit)),
            None => Err(TrailError::NoBaseline("this branch has no upstream".to_owned())),
        },
        SinceSpec::Base => Ok(base_branch(base)),
        SinceSpec::Rev(name) => match rev {
            Some((commit, short)) => Ok(
                Anchor {
                    kind: BaselineKind::Commit,
                    label: text::cat2("commit ", &short),
                    commit,
                },
            ),
            None => Err(
                TrailError::NoBaseline(text::cat3("'", name, "' is not a known revision")),
            ),
        },
    }
}

fn at_push(label: &str, commit: String) -> (r: Anchor)
    ensures
        r.deep_view() == push_anchor(label@, commit@),
{
    Anchor { kind: BaselineKind::LastPush, label: text::cat2("last push to ", label), commit }
}

fn at_upstream(label: &str, commit: String) -> (r: Anchor)
    ensures
        r.deep_view() == upstream_anchor(label@, commit@),
{
    Anchor { kind: BaselineKind::Upstream, label: text::cat2("upstream ", label), commit }
}

fn base_branch(base: &BaseRef) -> (r: Anchor)
    ensures
        r.deep_view() == base_anchor(base.deep_view()),
{
    Anchor {
        kind: BaselineKind::BaseBranch,
        label: text::cat2("base ", &base.name),
        commit: base.id.dup(),
    }
}

/// Whether `--since` asked for something other than the default.
pub open spec fn asked_for(since: SinceSpecView) -> bool {
    !(since is Base || since is Auto)
}

/// A baseline: what was named, and where the trail starts, which is its best
/// common ancestor with HEAD.
pub open spec fn resolved(
    since: SinceSpecView,
    anchor: AnchorView,
    start: Option<(Seq<char>, Seq<char>)>,
    short_commit: Seq<char>,
) -> Result<BaselineView, TrailErrorView> {
    match start {
        Some((start, short_start)) => Ok(
            BaselineView {
                kind: anchor.kind,
                label: anchor.label,
                commit: anchor.commit,
                start,
                short_commit,
                short_start,
                explicit: asked_for(since),
            },
        ),
        None => Err(
            TrailErrorView::NoBaseline(
                anchor.label + " ("@ + short_commit + ") shares no history with HEAD"@,
            ),
        ),
    }
}

impl Repo {
    /// Resolve the baseline for this run: `start` is the best common ancestor of
    /// HEAD and what was named, with its short id.
    pub fn resolve_baseline(
        &self,
        since: &SinceSpec,
        anchor: Anchor,
        start: Option<(String, String)>,
        short_commit: String,
    ) -> (r: Result<Baseline, TrailError>)
        ensures
            outcome(r) == resolved(
                since.deep_view(),
                anchor.deep_view(),
                start.deep_view(),
                short_commit@,
            ),
    {
        let explicit: bool = match since {
            SinceSpec::Base => false,
            SinceSpec::Auto => false,
            _ => true,
        };
        match start {
            Some((start, short_start)) => Ok(
                Baseline {
                    kind: anchor.kind,
                    label: anchor.label,
                    commit: anchor.commit,
                    start,
                    short_commit,
                    short_start,
                    explicit,
                },
            ),
            None => Err(
                TrailError::NoBaseline(
                    text::cat4(&anchor.label, " (", &short_commit, ") shares no history with HEAD"),
                ),
            ),
        }
    }
}

} // verus!
