//! What holds of what is read from git.

use super::baseline::{
    anchored, is_push, newest_push, resolved, since_of, AnchorView, BaselineKind, SinceSpecView,
};
use super::diff::{counted_lines, untracked_stats_of, StatusEntryView};
use super::history::{
    files_among, oldest_first, reflog_entry, reflog_since, reflog_time, ReflogLineView,
    TreeChangeView, WalkedCommitView,
};
use super::repository::{base_found, candidates, first_existing, resolved_base, BaseRefView};
use crate::choice::{lemma_selects_last, lemma_selects_none, selects};
use crate::error::TrailErrorView;
use crate::review::diff::line_count_before;
use crate::text;
use crate::time::{earlier, Timestamp};
use vstd::prelude::*;

verus! {

// ---------------------------------------------------------------------------
// Baselines
/// A reflog message says `update by push`.
pub open spec fn says_push(message: Seq<u8>) -> bool {
    &&& message.len() >= 14
    &&& message.take(14) == seq![
        117u8,
        112,
        100,
        97,
        116,
        101,
        32,
        98,
        121,
        32,
        112,
        117,
        115,
        104,
    ]
}

/// The last push is the first entry of a reflog, given newest first, that says
/// so: its commit.
pub proof fn lemma_last_push_is_the_newest(entries: Seq<(Seq<u8>, Seq<char>)>)
    ensures
        match newest_push(entries) {
            Some(commit) => exists|i: int| {
                &&& 0 <= i < entries.len()
                &&& says_push((#[trigger] entries[i]).0)
                &&& entries[i].1 == commit
                &&& forall|j: int| 0 <= j < i ==> !says_push((#[trigger] entries[j]).0)
            },
            None => forall|j: int| 0 <= j < entries.len() ==> !says_push((#[trigger] entries[j]).0),
        },
    decreases entries.len(),
{
    let head = seq![117u8, 112, 100, 97, 116, 101, 32, 98, 121, 32, 112, 117, 115, 104];
    assert forall|m: Seq<u8>| is_push(m) == #[trigger] says_push(m) by {
        if m.len() >= 14 {
            assert(m.take(14) =~= m.subrange(0, 14));
        }
    }
    if entries.len() > 0 {
        let rest = entries.drop_first();
        lemma_last_push_is_the_newest(rest);
        if is_push(entries[0].0) {
            assert(says_push(entries[0].0));
        } else {
            assert(!says_push(entries[0].0));
            match newest_push(rest) {
                Some(commit) => {
                    let i = choose|i: int| {
                        &&& 0 <= i < rest.len()
                        &&& says_push((#[trigger] rest[i]).0)
                        &&& rest[i].1 == commit
                        &&& forall|j: int| 0 <= j < i ==> !says_push((#[trigger] rest[j]).0)
                    };
                    assert forall|j: int| 0 <= j < i + 1 implies !says_push(
                        (#[trigger] entries[j]).0,
                    ) by {
                        if j > 0 {
                            assert(rest[j - 1] == entries[j]);
                        }
                    }
                    assert(entries[i + 1] == rest[i]);
                },
                None => {
                    assert forall|j: int| 0 <= j < entries.len() implies !says_push(
                        (#[trigger] entries[j]).0,
                    ) by {
                        if j > 0 {
                            assert(rest[j - 1] == entries[j]);
                        }
                    }
                },
            }
        }
    }
}

/// What `--since` names: the commit last pushed, the tip of the upstream branch,
/// the base branch or a revision, and an error where there is none. `auto` is
/// the first of push, upstream and base that there is.
pub proof fn lemma_what_since_names(
    base: BaseRefView,
    pushed: Option<(Seq<char>, Seq<char>)>,
    upstream: Option<(Seq<char>, Seq<char>)>,
    rev: Option<(Seq<char>, Seq<char>)>,
    name: Seq<char>,
)
    ensures
        ({
            let of = |s: SinceSpecView| anchored(s, base, pushed, upstream, rev);
            let push = of(SinceSpecView::Push);
            let up = of(SinceSpecView::Upstream);
            let at_base = of(SinceSpecView::Base);
            let at_rev = of(SinceSpecView::Rev(name));
            &&& push is Ok <==> pushed is Some
            &&& push is Ok ==> push->Ok_0.commit == pushed->Some_0.1 && push->Ok_0.kind
                == BaselineKind::LastPush && push->Ok_0.label == "last push to "@
                + pushed->Some_0.0
            &&& up is Ok <==> upstream is Some
            &&& up is Ok ==> up->Ok_0.commit == upstream->Some_0.1 && up->Ok_0.kind
                == BaselineKind::Upstream && up->Ok_0.label == "upstream "@ + upstream->Some_0.0
            &&& at_base is Ok
            &&& at_base->Ok_0.commit == base.id
            &&& at_base->Ok_0.kind == BaselineKind::BaseBranch
            &&& at_base->Ok_0.label == "base "@ + base.name
            &&& at_rev is Ok <==> rev is Some
            &&& at_rev is Ok ==> at_rev->Ok_0.commit == rev->Some_0.0 && at_rev->Ok_0.kind
                == BaselineKind::Commit && at_rev->Ok_0.label == "commit "@ + rev->Some_0.1
            &&& push is Err ==> push->Err_0 is NoBaseline
            &&& up is Err ==> up->Err_0 is NoBaseline
            &&& at_rev is Err ==> at_rev->Err_0 is NoBaseline
            &&& of(SinceSpecView::Auto) == (if push is Ok {
                push
            } else if up is Ok {
                up
            } else {
                at_base
            })
        }),
{
}

/// A baseline is what was named, and the trail starts at its common ancestor
/// with HEAD; it was asked for unless it is the base branch or `auto`. Without a
/// common ancestor there is none.
pub proof fn lemma_trails_start_at_common_ancestors(
    since: SinceSpecView,
    anchor: AnchorView,
    start: Option<(Seq<char>, Seq<char>)>,
    short_commit: Seq<char>,
)
    ensures
        ({
            let r = resolved(since, anchor, start, short_commit);
            &&& r is Ok <==> start is Some
            &&& r is Ok ==> {
                let b = r->Ok_0;
                &&& b.kind == anchor.kind
                &&& b.label == anchor.label
                &&& b.commit == anchor.commit
                &&& b.short_commit == short_commit
                &&& b.start == start->Some_0.0
                &&& b.short_start == start->Some_0.1
                &&& b.explicit <==> since is Push || since is Upstream || since is Rev
            }
            &&& r is Err ==> r->Err_0 is NoBaseline
        }),
{
}

/// `push` and `last-push`, `upstream`, `@{upstream}` and `@{u}`, `base` and
/// `auto` are what they say, the base is the default, and anything else is a
/// revision.
pub proof fn lemma_since_words(v: Seq<char>)
    requires
        text::trim(v) == v,
    ensures
        since_of(None) is Base,
        since_of(Some(v)) is Auto <==> v == "auto"@,
        since_of(Some(v)) is Push <==> v == "push"@ || v == "last-push"@,
        since_of(Some(v)) is Upstream <==> v == "upstream"@ || v == "@{upstream}"@ || v == "@{u}"@,
        since_of(Some(v)) is Base <==> v == "base"@,
        since_of(Some(v)) is Rev ==> since_of(Some(v)) == SinceSpecView::Rev(v),
{
    reveal_strlit("auto");
    reveal_strlit("push");
    reveal_strlit("last-push");
    reveal_strlit("upstream");
    reveal_strlit("@{upstream}");
    reveal_strlit("@{u}");
    reveal_strlit("base");
    assert("auto"@[0] == 'a' && "push"@[0] == 'p' && "last-push"@[0] == 'l' && "upstream"@[0]
        == 'u' && "@{upstream}"@[0] == '@' && "@{u}"@[0] == '@' && "base"@[0] == 'b');
}

// ---------------------------------------------------------------------------
// The base branch
/// A name may mean a local branch, a remote one, one of `origin`, or any
/// reference, in this order; a branch of `origin` is shown as such.
pub proof fn lemma_what_a_name_may_mean(name: Seq<char>)
    ensures
        candidates(name).len() == 4,
        candidates(name)[0] == ("refs/heads/"@ + name, name),
        candidates(name)[1] == ("refs/remotes/"@ + name, name),
        candidates(name)[2] == ("refs/remotes/origin/"@ + name, "origin/"@ + name),
        candidates(name)[3] == (name, name),
{
}

/// Of some references the first that exists is taken: the name to show, and its
/// commit.
pub proof fn lemma_the_first_reference_is_taken(
    references: Seq<(Seq<char>, Seq<char>)>,
    ids: Seq<Option<Seq<char>>>,
)
    requires
        references.len() == ids.len(),
    ensures
        match first_existing(references, ids) {
            Some((name, id)) => exists|i: int| {
                &&& 0 <= i < ids.len()
                &&& #[trigger] ids[i] == Some(id)
                &&& references[i].1 == name
                &&& forall|j: int| 0 <= j < i ==> #[trigger] ids[j] is None
            },
            None => forall|j: int| 0 <= j < ids.len() ==> #[trigger] ids[j] is None,
        },
    decreases ids.len(),
{
    if ids.len() > 0 && ids[0] is None {
        let more = references.drop_first();
        let rest = ids.drop_first();
        lemma_the_first_reference_is_taken(more, rest);
        match first_existing(more, rest) {
            Some((name, id)) => {
                let i = choose|i: int| {
                    &&& 0 <= i < rest.len()
                    &&& #[trigger] rest[i] == Some(id)
                    &&& more[i].1 == name
                    &&& forall|j: int| 0 <= j < i ==> #[trigger] rest[j] is None
                };
                assert forall|j: int| 0 <= j < i + 1 implies #[trigger] ids[j] is None by {
                    if j > 0 {
                        assert(rest[j - 1] == ids[j]);
                    }
                }
                assert(ids[i + 1] == rest[i]);
                assert(references[i + 1] == more[i]);
            },
            None => {
                assert forall|j: int| 0 <= j < ids.len() implies #[trigger] ids[j] is None by {
                    if j > 0 {
                        assert(rest[j - 1] == ids[j]);
                    }
                }
            },
        }
    }
}

/// The base branch is what was found, with its common ancestor with HEAD. If
/// nothing was found the error says whether a branch was asked for; if there is
/// no common ancestor it says so.
pub proof fn lemma_what_the_base_is(
    explicit: Option<Seq<char>>,
    listed: Option<(Seq<char>, Seq<char>)>,
    remote: Option<(Seq<char>, Seq<char>)>,
    merge_base: Option<Seq<char>>,
    shallow: bool,
)
    ensures
        ({
            let found = base_found(explicit, listed, remote);
            let r = resolved_base(explicit, found, merge_base, shallow);
            &&& listed is Some ==> found == listed
            &&& listed is None && explicit is None ==> found == remote
            &&& listed is None && explicit is Some ==> found is None
            &&& found is None && explicit is Some ==> r == Err::<BaseRefView, TrailErrorView>(
                TrailErrorView::BaseBranchNotFound(explicit->Some_0),
            )
            &&& found is None && explicit is None ==> r == Err::<BaseRefView, TrailErrorView>(
                TrailErrorView::NoBaseBranch,
            )
            &&& found is Some && merge_base is None ==> r == Err::<BaseRefView, TrailErrorView>(
                TrailErrorView::NoMergeBase { base: found->Some_0.0, shallow },
            )
            &&& found is Some && merge_base is Some ==> {
                &&& r is Ok
                &&& r->Ok_0.name == found->Some_0.0
                &&& r->Ok_0.id == found->Some_0.1
                &&& r->Ok_0.merge_base == merge_base->Some_0
                &&& r->Ok_0.explicit == (explicit is Some)
            }
        }),
{
}

// ---------------------------------------------------------------------------
// The reflog
/// The reflog is read from its newest line back to the first one older than
/// asked, and listed oldest first: `n` lines.
pub open spec fn reaches(lines: Seq<ReflogLineView>, since: Timestamp, n: int) -> bool {
    &&& 0 <= n <= lines.len()
    &&& forall|i: int| 0 <= i < n ==> !earlier(reflog_time(#[trigger] lines[i]), since)
    &&& n < lines.len() ==> earlier(reflog_time(lines[n]), since)
}

/// The movements of HEAD since a point in time, oldest first, each with where it
/// went and what the reflog says of it.
pub proof fn lemma_reflog_is_read_back(lines: Seq<ReflogLineView>, since: Timestamp)
    ensures
        reaches(lines, since, reflog_since(lines, since).len() as int),
        forall|i: int|
            0 <= i < reflog_since(lines, since).len() ==> {
                let line = lines[reflog_since(lines, since).len() - 1 - i];
                let e = #[trigger] reflog_since(lines, since)[i];
                &&& e.time == reflog_time(line)
                &&& e.previous_id == line.previous_id
                &&& e.new_id == line.new_id
                &&& line.message == e.action + ": "@ + e.message || (line.message == e.action
                    && e.message.len() == 0)
            },
    decreases lines.len(),
{
    let all = reflog_since(lines, since);
    if lines.len() > 0 && !earlier(reflog_time(lines[0]), since) {
        let rest = lines.drop_first();
        lemma_reflog_is_read_back(rest, since);
        let before = reflog_since(rest, since);
        let n = before.len() as int;
        assert forall|i: int| 0 <= i < n + 1 implies !earlier(
            reflog_time(#[trigger] lines[i]),
            since,
        ) by {
            if i > 0 {
                assert(rest[i - 1] == lines[i]);
            }
        }
        if n + 1 < lines.len() {
            assert(rest[n] == lines[n + 1]);
        }
        lemma_entry_message(lines[0]);
        assert forall|i: int| 0 <= i < all.len() implies {
            let line = lines[all.len() - 1 - i];
            let e = #[trigger] all[i];
            &&& e.time == reflog_time(line)
            &&& e.previous_id == line.previous_id
            &&& e.new_id == line.new_id
            &&& line.message == e.action + ": "@ + e.message || (line.message == e.action
                && e.message.len() == 0)
        } by {
            if i < n {
                assert(all[i] == before[i]);
                assert(rest[n - 1 - i] == lines[n - i]);
            }
        }
    }
}

proof fn lemma_entry_message(line: ReflogLineView)
    ensures
        ({
            let e = reflog_entry(line);
            line.message == e.action + ": "@ + e.message || (line.message == e.action
                && e.message.len() == 0)
        }),
{
    reveal_strlit(": ");
    match text::split_once_text(line.message, ": "@) {
        Some((a, d)) => {
            text::lemma_split_once_text(line.message, ": "@);
        },
        None => {},
    }
}

// ---------------------------------------------------------------------------
// Commits
proof fn lemma_files_among(changes: Seq<TreeChangeView>) -> (kept: Seq<TreeChangeView>)
    ensures
        selects(changes, |c: TreeChangeView| !c.is_tree, kept),
        files_among(changes) == kept.map_values(|c: TreeChangeView| c.file),
    decreases changes.len(),
{
    let pred = |c: TreeChangeView| !c.is_tree;
    let f = |c: TreeChangeView| c.file;
    if changes.len() == 0 {
        assert(changes =~= Seq::empty());
        lemma_selects_none(pred);
        let none = Seq::<TreeChangeView>::empty();
        assert(files_among(changes) =~= none.map_values(f));
        none
    } else {
        let before = lemma_files_among(changes.drop_last());
        lemma_selects_last(changes, pred, before);
        if changes.last().is_tree {
            before
        } else {
            let more = before.push(changes.last());
            assert(more.map_values(f) =~= before.map_values(f).push(changes.last().file));
            more
        }
    }
}

/// Commits are listed in reverse of how they were walked, one for each: its id,
/// its times, how many parents it has and which is the first, and every file
/// that differs from it, directories left out.
pub proof fn lemma_commits_are_listed_oldest_first(walked: Seq<WalkedCommitView>, i: int) -> (kept:
    Seq<TreeChangeView>)
    requires
        0 <= i < walked.len(),
        walked[i].parents.len() <= usize::MAX,
    ensures
        oldest_first(walked).len() == walked.len(),
        ({
            let w = walked[i];
            let c = oldest_first(walked)[walked.len() - 1 - i];
            &&& c.id == w.id
            &&& w.short_id is Some ==> c.short_id == w.short_id->Some_0
            &&& w.subject is Some ==> c.summary == w.subject->Some_0
            &&& w.author is Some ==> c.author == w.author->Some_0
            &&& c.parent_count == w.parents.len()
            &&& w.parents.len() > 0 ==> c.first_parent == Some(w.parents[0])
            &&& w.parents.len() == 0 ==> c.first_parent is None
            &&& selects(w.changes, |c: TreeChangeView| !c.is_tree, kept)
            &&& c.files.len() == kept.len()
            &&& forall|k: int|
                0 <= k < kept.len() ==> #[trigger] c.files[k] == kept[k].file
        }),
{
    lemma_files_among(walked[i].changes)
}

// ---------------------------------------------------------------------------
// Untracked files
/// The number of line feeds in some content.
pub open spec fn feeds(data: Seq<u8>) -> nat {
    data.filter(|b: u8| b == 10).len()
}

proof fn lemma_feeds(data: Seq<u8>)
    ensures
        line_count_before(data) == feeds(data),
    decreases data.len(),
{
    reveal(Seq::filter);
    if data.len() > 0 {
        lemma_feeds(data.drop_last());
    }
}

/// Content has as many lines as line feeds, and one more if it does not end in
/// one; none if it is empty. Binary content, which has a zero byte near its
/// start, and content that could not be read are not counted.
pub proof fn lemma_lines_are_counted(data: Seq<u8>)
    requires
        data.len() < u64::MAX,
    ensures
        counted_lines(None) is None,
        ({
            let binary = exists|i: int| 0 <= i < data.len() && i < 8192 && #[trigger] data[i] == 0;
            &&& binary ==> counted_lines(Some(data)) is None
            &&& !binary ==> counted_lines(Some(data)) == Some(
                (feeds(data) + (if data.len() > 0 && data.last() != 10 {
                    1nat
                } else {
                    0nat
                })) as u64,
            )
        }),
{
    lemma_feeds(data);
    reveal(Seq::filter);
    if data.len() > 0 {
        lemma_feeds(data.drop_last());
    }
}

/// Every untracked file is counted as added, and no other: all its lines are
/// additions.
pub proof fn lemma_untracked_files_are_additions(
    entries: Seq<StatusEntryView>,
    contents: Map<Seq<char>, Seq<u8>>,
) -> (kept: Seq<StatusEntryView>)
    ensures
        selects(entries, |e: StatusEntryView| e.untracked, kept),
        untracked_stats_of(entries, contents).len() == kept.len(),
        forall|i: int|
            0 <= i < kept.len() ==> {
                let s = #[trigger] untracked_stats_of(entries, contents)[i];
                &&& s.path == kept[i].path
                &&& s.old_path is None
                &&& s.deletions == Some(0u64)
                &&& contents.dom().contains(s.path) ==> s.additions == counted_lines(
                    Some(contents[s.path]),
                )
                &&& !contents.dom().contains(s.path) ==> s.additions is None
            },
    decreases entries.len(),
{
    let pred = |e: StatusEntryView| e.untracked;
    if entries.len() == 0 {
        assert(entries =~= Seq::empty());
        lemma_selects_none(pred);
        Seq::empty()
    } else {
        let before = lemma_untracked_files_are_additions(entries.drop_last(), contents);
        lemma_selects_last(entries, pred, before);
        if entries.last().untracked {
            before.push(entries.last())
        } else {
            before
        }
    }
}

} // verus!
