//! Which commit a checkpoint was work towards.
//!
//! A checkpoint describes how something was made, a commit what was
//! confirmed. To show both, every checkpoint is attached to the commit that
//! followed it, or to the working tree when nothing was committed yet. The
//! rules, in order:
//!
//! 1. **Recorded**: the recorder saw HEAD move from `a` to `b` right after
//!    the checkpoint, and `b` is a reviewed commit whose first parent is `a`.
//!    That movement was a commit, not a checkout or reset.
//! 2. **Inferred, by author time**: HEAD moved to a commit that is no longer
//!    on the branch (amend, rebase). The rewritten commit keeps its author
//!    time, so a reviewed commit with the same author time is the same work.
//!    A movement onto a commit that is still on the branch is a checkout or
//!    reset and gets no such treatment.
//! 3. **Inferred, by time**: nothing usable was recorded (the recorder was
//!    stopped, or the movement was a checkout). The first reviewed commit
//!    created after the checkpoint ended is assumed to contain it.
//! 4. Otherwise the checkpoint is still uncommitted: working tree.
//!
//! Git facts are never invented: a commit without checkpoints simply has
//! none, and a checkpoint without a usable movement is never attached to a
//! commit older than itself.

use super::event::Attachment;
use crate::data::{Dup, Same};
use crate::git::history::{CommitIdentity, CommitIdentityView, CommitInfo, CommitInfoView};
use crate::recorder::checkpoint::{CommitBoundary, CommitBoundaryView};
use crate::text;
use crate::time::{earlier, Timestamp};
use vstd::prelude::*;

verus! {

/// The first commit that `pred` holds of.
pub open spec fn first_commit(
    commits: Seq<CommitInfoView>,
    pred: spec_fn(CommitInfoView) -> bool,
) -> Option<CommitInfoView>
    decreases commits.len(),
{
    if commits.len() == 0 {
        None
    } else if pred(commits[0]) {
        Some(commits[0])
    } else {
        first_commit(commits.drop_first(), pred)
    }
}

/// The movement of HEAD was the making of this commit.
pub open spec fn made_by(c: CommitInfoView, b: CommitBoundaryView) -> bool {
    c.id == b.to_head && c.first_parent == Some(b.from_head)
}

pub open spec fn has_commit(commits: Seq<CommitInfoView>, id: Seq<char>) -> bool {
    exists|i: int| 0 <= i < commits.len() && (#[trigger] commits[i]).id == id
}

/// The commits authored at one moment.
pub open spec fn authored_at(commits: Seq<CommitInfoView>, t: Timestamp) -> Seq<CommitInfoView>
    decreases commits.len(),
{
    if commits.len() == 0 {
        Seq::empty()
    } else if commits.last().author_time == t {
        authored_at(commits.drop_last(), t).push(commits.last())
    } else {
        authored_at(commits.drop_last(), t)
    }
}

/// The reviewed commit that `original` was rewritten to. Author time is what a
/// rewrite preserves; when several commits share the same second, the
/// summary and then the first parent tell them apart.
pub open spec fn rewrite_of(
    commits: Seq<CommitInfoView>,
    original: CommitIdentityView,
) -> Option<CommitInfoView> {
    let same = authored_at(commits, original.author_time);
    if same.len() == 0 {
        None
    } else if same.len() == 1 {
        Some(same[0])
    } else {
        match first_commit(same, |c: CommitInfoView| c.summary == original.summary) {
            Some(c) => Some(c),
            None => first_commit(
                same,
                |c: CommitInfoView| c.first_parent == original.first_parent,
            ),
        }
    }
}

/// The next commit in time.
pub open spec fn next_commit(commits: Seq<CommitInfoView>, ended_at: Timestamp) -> Option<
    CommitInfoView,
> {
    first_commit(commits, |c: CommitInfoView| !earlier(c.time, ended_at))
}

/// The commit a checkpoint belongs to by the movement the recorder saw, and how
/// that is known. `original` is the commit HEAD moved to, when it is still
/// known.
pub open spec fn attached_by_movement(
    commits: Seq<CommitInfoView>,
    b: CommitBoundaryView,
    original: Option<CommitIdentityView>,
) -> Option<(CommitInfoView, Attachment)> {
    match first_commit(commits, |c: CommitInfoView| made_by(c, b)) {
        Some(c) => Some((c, Attachment::Recorded)),
        None => if has_commit(commits, b.to_head) {
            None
        } else {
            match original {
                Some(original) => match rewrite_of(commits, original) {
                    Some(c) => Some((c, Attachment::Inferred)),
                    None => None,
                },
                None => None,
            }
        },
    }
}

/// The commit a checkpoint belongs to, and how that is known; nothing for the
/// working tree.
pub open spec fn attached(
    commits: Seq<CommitInfoView>,
    boundary: Option<CommitBoundaryView>,
    ended_at: Timestamp,
    original: Option<CommitIdentityView>,
) -> Option<(CommitInfoView, Attachment)> {
    let moved = match boundary {
        Some(b) => attached_by_movement(commits, b, original),
        None => None,
    };
    match moved {
        Some(found) => Some(found),
        None => match next_commit(commits, ended_at) {
            Some(c) => Some((c, Attachment::Inferred)),
            None => None,
        },
    }
}

/// An attachment as the id of the commit and how it is known.
pub open spec fn as_ids(found: Option<(CommitInfoView, Attachment)>) -> (
    Option<Seq<char>>,
    Option<Attachment>,
) {
    match found {
        Some((c, how)) => (Some(c.id), Some(how)),
        None => (None, None),
    }
}

fn find_made<'a>(commits: &'a Vec<CommitInfo>, b: &CommitBoundary) -> (r: Option<&'a CommitInfo>)
    ensures
        r.deep_view() == first_commit(
            commits.deep_view(),
            |c: CommitInfoView| made_by(c, b.deep_view()),
        ),
{
    let ghost all = commits.deep_view();
    let ghost pred = |c: CommitInfoView| made_by(c, b.deep_view());
    let mut k: usize = 0;
    assert(all.skip(0) =~= all);
    while k < commits.len()
        invariant
            k <= commits.len(),
            all == commits.deep_view(),
            pred == (|c: CommitInfoView| made_by(c, b.deep_view())),
            first_commit(all, pred) == first_commit(all.skip(k as int), pred),
        decreases commits.len() - k,
    {
        assert(all.skip(k as int)[0] == commits[k as int].deep_view());
        let child: bool = match &commits[k].first_parent {
            Some(p) => text::same(p, &b.from_head),
            None => false,
        };
        if text::same(&commits[k].id, &b.to_head) && child {
            return Some(&commits[k]);
        }
        assert(all.skip(k as int).drop_first() =~= all.skip(k + 1));
        k += 1;
    }
    None
}

fn known(commits: &Vec<CommitInfo>, id: &str) -> (r: bool)
    ensures
        r == has_commit(commits.deep_view(), id@),
{
    let ghost all = commits.deep_view();
    let mut k: usize = 0;
    while k < commits.len()
        invariant
            k <= commits.len(),
            all == commits.deep_view(),
            forall|i: int| 0 <= i < k ==> (#[trigger] all[i]).id != id@,
        decreases commits.len() - k,
    {
        assert(all[k as int].id == commits[k as int].id@);
        if text::same(&commits[k].id, id) {
            return true;
        }
        k += 1;
    }
    false
}

/// The reviewed commit that `original` was rewritten to.
fn rewritten(commits: &Vec<CommitInfo>, original: &CommitIdentity) -> (r: Option<CommitInfo>)
    ensures
        r.deep_view() == rewrite_of(commits.deep_view(), original.deep_view()),
{
    let ghost all = commits.deep_view();
    let ghost o = original.deep_view();
    let mut same: Vec<CommitInfo> = Vec::new();
    let mut k: usize = 0;
    assert(same.deep_view() =~= authored_at(all.take(0), o.author_time));
    while k < commits.len()
        invariant
            k <= commits.len(),
            all == commits.deep_view(),
            o == original.deep_view(),
            same.deep_view() == authored_at(all.take(k as int), o.author_time),
        decreases commits.len() - k,
    {
        let ghost was = same.deep_view();
        proof {
            assert(all.take(k + 1).drop_last() =~= all.take(k as int));
            assert(all.take(k + 1).last() == commits[k as int].deep_view());
        }
        if commits[k].author_time.same(&original.author_time) {
            same.push(commits[k].dup());
            assert(same.deep_view() =~= was.push(all[k as int]));
        }
        k += 1;
    }
    assert(all.take(k as int) =~= all);
    let ghost ss = same.deep_view();
    if same.len() == 0 {
        return None;
    }
    if same.len() == 1 {
        assert(ss[0] == same[0].deep_view());
        return Some(same[0].dup());
    }
    let ghost by_summary = |c: CommitInfoView| c.summary == o.summary;
    let mut k: usize = 0;
    assert(ss.skip(0) =~= ss);
    while k < same.len()
        invariant
            k <= same.len(),
            same.len() > 1,
            o == original.deep_view(),
            ss == same.deep_view(),
            ss == authored_at(commits.deep_view(), o.author_time),
            by_summary == (|c: CommitInfoView| c.summary == o.summary),
            first_commit(ss, by_summary) == first_commit(ss.skip(k as int), by_summary),
        decreases same.len() - k,
    {
        assert(ss.skip(k as int)[0] == same[k as int].deep_view());
        if text::same(&same[k].summary, &original.summary) {
            return Some(same[k].dup());
        }
        assert(ss.skip(k as int).drop_first() =~= ss.skip(k + 1));
        k += 1;
    }
    let ghost by_parent = |c: CommitInfoView| c.first_parent == o.first_parent;
    let mut k: usize = 0;
    while k < same.len()
        invariant
            k <= same.len(),
            same.len() > 1,
            o == original.deep_view(),
            ss == same.deep_view(),
            ss == authored_at(commits.deep_view(), o.author_time),
            first_commit(ss, |c: CommitInfoView| c.summary == o.summary) is None,
            by_parent == (|c: CommitInfoView| c.first_parent == o.first_parent),
            first_commit(ss, by_parent) == first_commit(ss.skip(k as int), by_parent),
        decreases same.len() - k,
    {
        assert(ss.skip(k as int)[0] == same[k as int].deep_view());
        if same[k].first_parent.same(&original.first_parent) {
            return Some(same[k].dup());
        }
        assert(ss.skip(k as int).drop_first() =~= ss.skip(k + 1));
        k += 1;
    }
    None
}

fn find_next<'a>(commits: &'a Vec<CommitInfo>, ended_at: &Timestamp) -> (r: Option<&'a CommitInfo>)
    ensures
        r.deep_view() == next_commit(commits.deep_view(), *ended_at),
{
    let ghost all = commits.deep_view();
    let ghost pred = |c: CommitInfoView| !earlier(c.time, *ended_at);
    let mut k: usize = 0;
    assert(all.skip(0) =~= all);
    while k < commits.len()
        invariant
            k <= commits.len(),
            all == commits.deep_view(),
            pred == (|c: CommitInfoView| !earlier(c.time, *ended_at)),
            first_commit(all, pred) == first_commit(all.skip(k as int), pred),
        decreases commits.len() - k,
    {
        assert(all.skip(k as int)[0] == commits[k as int].deep_view());
        if !commits[k].time.before(ended_at) {
            return Some(&commits[k]);
        }
        assert(all.skip(k as int).drop_first() =~= all.skip(k + 1));
        k += 1;
    }
    None
}

/// The commit (by id) a checkpoint belongs to, and how sure we are.
/// `(None, None)` means "working tree". `original` is what is known of the
/// commit HEAD moved to, when it still exists.
pub fn attach(
    commits: &Vec<CommitInfo>,
    boundary: Option<&CommitBoundary>,
    ended_at: Timestamp,
    original: Option<&CommitIdentity>,
) -> (r: (Option<String>, Option<Attachment>))
    ensures
        r.deep_view() == as_ids(
            attached(
                commits.deep_view(),
                boundary.deep_view(),
                ended_at,
                original.deep_view(),
            ),
        ),
{
    match boundary {
        Some(b) => {
            // A commit the recorder watched being made.
            match find_made(commits, b) {
                Some(c) => {
                    return (Some(c.id.dup()), Some(Attachment::Recorded));
                },
                None => {},
            }
            // The same work, rewritten since. A movement onto a commit that
            // is itself reviewed was a checkout or reset, not a rewrite.
            if !known(commits, &b.to_head) {
                match original {
                    Some(o) => match rewritten(commits, o) {
                        Some(c) => {
                            return (Some(c.id.dup()), Some(Attachment::Inferred));
                        },
                        None => {},
                    },
                    None => {},
                }
            }
        },
        None => {},
    }
    // The next commit in time.
    match find_next(commits, &ended_at) {
        Some(c) => (Some(c.id.dup()), Some(Attachment::Inferred)),
        None => (None, None),
    }
}

// ---------------------------------------------------------------------------
// What holds of every attachment
spec fn is_first(
    commits: Seq<CommitInfoView>,
    pred: spec_fn(CommitInfoView) -> bool,
    i: int,
) -> bool {
    &&& 0 <= i < commits.len()
    &&& pred(commits[i])
    &&& forall|j: int| 0 <= j < i ==> !pred(#[trigger] commits[j])
}

proof fn lemma_first_commit(
    commits: Seq<CommitInfoView>,
    pred: spec_fn(CommitInfoView) -> bool,
)
    ensures
        first_commit(commits, pred) is Some ==> commits.contains(
            first_commit(commits, pred)->Some_0,
        ) && pred(first_commit(commits, pred)->Some_0),
        first_commit(commits, pred) is None ==> forall|i: int|
            0 <= i < commits.len() ==> !pred(#[trigger] commits[i]),
        first_commit(commits, pred) is Some ==> exists|i: int|
            is_first(commits, pred, i) && commits[i] == first_commit(commits, pred)->Some_0,
    decreases commits.len(),
{
    if commits.len() > 0 {
        if pred(commits[0]) {
            assert(commits.contains(commits[0]));
            assert(is_first(commits, pred, 0));
        } else {
            let rest = commits.drop_first();
            lemma_first_commit(rest, pred);
            match first_commit(rest, pred) {
                Some(c) => {
                    let i = choose|i: int| is_first(rest, pred, i) && rest[i] == c;
                    assert(commits[i + 1] == c);
                    assert forall|j: int| 0 <= j < i + 1 implies !pred(#[trigger] commits[j]) by {
                        if j > 0 {
                            assert(rest[j - 1] == commits[j]);
                        }
                    }
                    assert(is_first(commits, pred, i + 1));
                },
                None => {
                    assert forall|i: int| 0 <= i < commits.len() implies !pred(
                        #[trigger] commits[i],
                    ) by {
                        if i > 0 {
                            assert(rest[i - 1] == commits[i]);
                        }
                    }
                },
            }
        }
    }
}

proof fn lemma_authored_at(commits: Seq<CommitInfoView>, t: Timestamp)
    ensures
        forall|i: int|
            0 <= i < authored_at(commits, t).len() ==> commits.contains(
                #[trigger] authored_at(commits, t)[i],
            ) && authored_at(commits, t)[i].author_time == t,
        forall|i: int|
            0 <= i < commits.len() && (#[trigger] commits[i]).author_time == t ==> authored_at(
                commits,
                t,
            ).contains(commits[i]),
        forall|i: int, j: int|
            0 <= i < j < commits.len() && (#[trigger] commits[i]).author_time == t && (
            #[trigger] commits[j]).author_time == t ==> authored_at(commits, t).len() > 1,
    decreases commits.len(),
{
    if commits.len() > 0 {
        let rest = commits.drop_last();
        lemma_authored_at(rest, t);
        let a = authored_at(commits, t);
        assert forall|i: int| 0 <= i < a.len() implies commits.contains(#[trigger] a[i])
            && a[i].author_time == t by {
            if i < authored_at(rest, t).len() {
                assert(a[i] == authored_at(rest, t)[i]);
                let m = choose|m: int| 0 <= m < rest.len() && rest[m] == a[i];
                assert(commits[m] == a[i]);
            } else {
                assert(commits[commits.len() - 1] == a[i]);
            }
        }
        let before = authored_at(rest, t);
        assert forall|i: int|
            0 <= i < commits.len() && (#[trigger] commits[i]).author_time == t implies a.contains(
            commits[i],
        ) by {
            if i < rest.len() {
                assert(rest[i] == commits[i]);
                let m = choose|m: int| 0 <= m < before.len() && before[m] == rest[i];
                assert(a[m] == commits[i]);
            } else {
                assert(a[a.len() - 1] == commits[i]);
            }
        }
        assert forall|i: int, j: int|
            0 <= i < j < commits.len() && (#[trigger] commits[i]).author_time == t && (
            #[trigger] commits[j]).author_time == t implies a.len() > 1 by {
            assert(rest[i] == commits[i]);
            assert(before.contains(rest[i]));
            if j < rest.len() {
                assert(rest[j] == commits[j]);
            }
        }
    }
}

/// A checkpoint is only ever attached to a commit under review.
pub proof fn lemma_attached_to_reviewed(
    commits: Seq<CommitInfoView>,
    boundary: Option<CommitBoundaryView>,
    ended_at: Timestamp,
    original: Option<CommitIdentityView>,
)
    ensures
        attached(commits, boundary, ended_at, original) is Some ==> commits.contains(
            attached(commits, boundary, ended_at, original)->Some_0.0,
        ),
{
    lemma_first_commit(commits, |c: CommitInfoView| !earlier(c.time, ended_at));
    match boundary {
        Some(b) => {
            lemma_first_commit(commits, |c: CommitInfoView| made_by(c, b));
            match original {
                Some(o) => {
                    let same = authored_at(commits, o.author_time);
                    lemma_authored_at(commits, o.author_time);
                    lemma_first_commit(same, |c: CommitInfoView| c.summary == o.summary);
                    lemma_first_commit(same, |c: CommitInfoView| c.first_parent == o.first_parent);
                    match rewrite_of(commits, o) {
                        Some(c) => {
                            assert(same.contains(c)) by {
                                if same.len() == 1 {
                                    assert(same[0] == c);
                                }
                            }
                            let i = choose|i: int| 0 <= i < same.len() && same[i] == c;
                            assert(commits.contains(same[i]));
                        },
                        None => {},
                    }
                },
                None => {},
            }
        },
        None => {},
    }
}

/// Without a usable movement, a checkpoint is never attached to a commit older
/// than itself, and to none at all only when every commit is older.
pub proof fn lemma_never_attached_to_older(
    commits: Seq<CommitInfoView>,
    ended_at: Timestamp,
    original: Option<CommitIdentityView>,
)
    ensures
        match attached(commits, None, ended_at, original) {
            Some((c, how)) => !earlier(c.time, ended_at) && how == Attachment::Inferred,
            None => forall|i: int|
                0 <= i < commits.len() ==> earlier((#[trigger] commits[i]).time, ended_at),
        },
{
    lemma_first_commit(commits, |c: CommitInfoView| !earlier(c.time, ended_at));
}

/// A checkout or reset onto a commit under review does not claim the
/// checkpoint: it is attached by time alone, as if no movement had been seen.
pub proof fn lemma_checkout_claims_nothing(
    commits: Seq<CommitInfoView>,
    b: CommitBoundaryView,
    ended_at: Timestamp,
    original: Option<CommitIdentityView>,
)
    requires
        has_commit(commits, b.to_head),
        forall|i: int| 0 <= i < commits.len() ==> !made_by(#[trigger] commits[i], b),
    ensures
        attached(commits, Some(b), ended_at, original) == attached(
            commits,
            None,
            ended_at,
            original,
        ),
{
    let pred = |c: CommitInfoView| made_by(c, b);
    lemma_first_commit(commits, pred);
    match first_commit(commits, pred) {
        Some(c) => {
            let i = choose|i: int| 0 <= i < commits.len() && commits[i] == c;
            assert(!made_by(commits[i], b));
        },
        None => {},
    }
}

/// A commit the recorder watched being made is always recognised.
pub proof fn lemma_recorded_commit_wins(
    commits: Seq<CommitInfoView>,
    b: CommitBoundaryView,
    ended_at: Timestamp,
    original: Option<CommitIdentityView>,
    i: int,
)
    requires
        0 <= i < commits.len(),
        made_by(commits[i], b),
    ensures
        ({
            let found = attached(commits, Some(b), ended_at, original);
            found is Some && found->Some_0.1 == Attachment::Recorded && found->Some_0.0.id
                == b.to_head
        }),
{
    lemma_first_commit(commits, |c: CommitInfoView| made_by(c, b));
}

/// The next commit in time: of the commits made no earlier than the work ended,
/// the one that comes first, and none when there is no such commit.
pub open spec fn is_next(
    commits: Seq<CommitInfoView>,
    ended_at: Timestamp,
    found: (Option<Seq<char>>, Option<Attachment>),
) -> bool {
    match found {
        (Some(id), Some(how)) => how == Attachment::Inferred && exists|i: int| {
            &&& 0 <= i < commits.len()
            &&& (#[trigger] commits[i]).id == id
            &&& !(commits[i].time.secs < ended_at.secs || (commits[i].time.secs == ended_at.secs
                && commits[i].time.nanos < ended_at.nanos))
            &&& forall|j: int|
                0 <= j < i ==> ((#[trigger] commits[j]).time.secs < ended_at.secs || (
                commits[j].time.secs == ended_at.secs && commits[j].time.nanos < ended_at.nanos))
        },
        (None, None) => forall|j: int|
            0 <= j < commits.len() ==> ((#[trigger] commits[j]).time.secs < ended_at.secs || (
            commits[j].time.secs == ended_at.secs && commits[j].time.nanos < ended_at.nanos)),
        _ => false,
    }
}

/// Work that no movement of HEAD followed belongs to the next commit in time.
pub proof fn lemma_unmoved_work_goes_to_the_next_commit(
    commits: Seq<CommitInfoView>,
    ended_at: Timestamp,
    original: Option<CommitIdentityView>,
)
    ensures
        is_next(commits, ended_at, as_ids(attached(commits, None, ended_at, original))),
{
    let pred = |c: CommitInfoView| !earlier(c.time, ended_at);
    lemma_first_commit(commits, pred);
    match first_commit(commits, pred) {
        Some(c) => {
            let i = choose|i: int| is_first(commits, pred, i) && commits[i] == c;
            assert(commits[i].id == c.id);
            assert forall|j: int| 0 <= j < i implies earlier(
                (#[trigger] commits[j]).time,
                ended_at,
            ) by {
                assert(!pred(commits[j]));
            }
        },
        None => {
            assert forall|j: int| 0 <= j < commits.len() implies earlier(
                (#[trigger] commits[j]).time,
                ended_at,
            ) by {
                assert(!pred(commits[j]));
            }
        },
    }
}

/// Work that HEAD moved after, when the commit it moved to is under review.
/// If its first parent is where HEAD was, the work was recorded towards it. If
/// no commit under review is both, the movement was a checkout or reset and the
/// work belongs to the next commit in time.
pub proof fn lemma_movements_onto_reviewed_commits(
    commits: Seq<CommitInfoView>,
    b: CommitBoundaryView,
    ended_at: Timestamp,
    original: Option<CommitIdentityView>,
)
    requires
        exists|i: int| 0 <= i < commits.len() && (#[trigger] commits[i]).id == b.to_head,
    ensures
        ({
            let found = as_ids(attached(commits, Some(b), ended_at, original));
            if exists|i: int|
                0 <= i < commits.len() && (#[trigger] commits[i]).id == b.to_head
                    && commits[i].first_parent == Some(b.from_head) {
                found == (Some(b.to_head), Some(Attachment::Recorded))
            } else {
                is_next(commits, ended_at, found)
            }
        }),
{
    let pred = |c: CommitInfoView| made_by(c, b);
    lemma_first_commit(commits, pred);
    lemma_unmoved_work_goes_to_the_next_commit(commits, ended_at, original);
    if exists|i: int|
        0 <= i < commits.len() && (#[trigger] commits[i]).id == b.to_head
            && commits[i].first_parent == Some(b.from_head) {
        let i = choose|i: int|
            0 <= i < commits.len() && (#[trigger] commits[i]).id == b.to_head
                && commits[i].first_parent == Some(b.from_head);
        assert(pred(commits[i]));
    } else {
        match first_commit(commits, pred) {
            Some(c) => {
                let i = choose|i: int| 0 <= i < commits.len() && commits[i] == c;
                assert(commits[i].id == b.to_head);
            },
            None => {},
        }
    }
}

/// Work that HEAD moved after, when the commit it moved to is not under review
/// and is no longer known: it belongs to the next commit in time.
pub proof fn lemma_lost_commits_claim_nothing(
    commits: Seq<CommitInfoView>,
    b: CommitBoundaryView,
    ended_at: Timestamp,
)
    requires
        forall|i: int| 0 <= i < commits.len() ==> (#[trigger] commits[i]).id != b.to_head,
    ensures
        is_next(commits, ended_at, as_ids(attached(commits, Some(b), ended_at, None))),
{
    let pred = |c: CommitInfoView| made_by(c, b);
    lemma_first_commit(commits, pred);
    lemma_unmoved_work_goes_to_the_next_commit(commits, ended_at, None);
    match first_commit(commits, pred) {
        Some(c) => {
            let i = choose|i: int| 0 <= i < commits.len() && commits[i] == c;
            assert(commits[i].id != b.to_head);
        },
        None => {},
    }
}

/// Work that HEAD moved after, when the commit it moved to is known and no
/// longer under review: it was rewritten. A rewrite keeps the author time, so
/// the work belongs to a commit with that author time: to the only one; of
/// several, to the first with the same summary; of several with other
/// summaries, to the first with the same first parent. Where none of them is
/// the rewritten one, the work belongs to the next commit in time.
#[verifier::rlimit(40)]
pub proof fn lemma_rewritten_commits_keep_their_work(
    commits: Seq<CommitInfoView>,
    b: CommitBoundaryView,
    ended_at: Timestamp,
    o: CommitIdentityView,
)
    requires
        forall|i: int| 0 <= i < commits.len() ==> (#[trigger] commits[i]).id != b.to_head,
    ensures
        ({
            let found = as_ids(attached(commits, Some(b), ended_at, Some(o)));
            let theirs = |i: int|
                0 <= i < commits.len() && commits[i].author_time == o.author_time;
            let named = |i: int| theirs(i) && commits[i].summary == o.summary;
            let based = |i: int| theirs(i) && commits[i].first_parent == o.first_parent;
            &&& forall|i: int|
                #[trigger] theirs(i) && (forall|j: int| #[trigger] theirs(j) ==> j == i) ==> found
                    == (Some(commits[i].id), Some(Attachment::Inferred))
            &&& forall|i: int, j: int|
                #[trigger] theirs(i) && #[trigger] theirs(j) && i != j && (exists|k: int|
                    #[trigger] named(k)) ==> exists|k: int|
                    #[trigger] named(k) && (forall|m: int| #[trigger] named(m) ==> k <= m) && found
                        == (Some(commits[k].id), Some(Attachment::Inferred))
            &&& forall|i: int, j: int|
                #[trigger] theirs(i) && #[trigger] theirs(j) && i != j && !(exists|k: int|
                    #[trigger] named(k)) && (exists|k: int| #[trigger] based(k)) ==> exists|k: int|
                    #[trigger] based(k) && (forall|m: int| #[trigger] based(m) ==> k <= m) && found
                        == (Some(commits[k].id), Some(Attachment::Inferred))
            &&& forall|i: int, j: int|
                #[trigger] theirs(i) && #[trigger] theirs(j) && i != j && !(exists|k: int|
                    #[trigger] named(k)) && !(exists|k: int| #[trigger] based(k)) ==> is_next(
                    commits,
                    ended_at,
                    found,
                )
            &&& !(exists|i: int| #[trigger] theirs(i)) ==> is_next(commits, ended_at, found)
        }),
{
    let pred = |c: CommitInfoView| made_by(c, b);
    lemma_first_commit(commits, pred);
    lemma_unmoved_work_goes_to_the_next_commit(commits, ended_at, Some(o));
    match first_commit(commits, pred) {
        Some(c) => {
            let i = choose|i: int| 0 <= i < commits.len() && commits[i] == c;
            assert(commits[i].id != b.to_head);
        },
        None => {},
    }
    if has_commit(commits, b.to_head) {
        let i = choose|i: int| 0 <= i < commits.len() && (#[trigger] commits[i]).id == b.to_head;
        assert(commits[i].id != b.to_head);
    }
    let found = as_ids(attached(commits, Some(b), ended_at, Some(o)));
    let same = authored_at(commits, o.author_time);
    lemma_authored_at(commits, o.author_time);
    let theirs = |i: int| 0 <= i < commits.len() && commits[i].author_time == o.author_time;
    let named = |i: int| theirs(i) && commits[i].summary == o.summary;
    let based = |i: int| theirs(i) && commits[i].first_parent == o.first_parent;
    assert forall|i: int|
        #[trigger] theirs(i) && (forall|j: int| #[trigger] theirs(j) ==> j == i) implies found == (
        Some(commits[i].id),
        Some(Attachment::Inferred),
    ) by {
        assert forall|j: int|
            0 <= j < commits.len() && (#[trigger] commits[j]).author_time
                == o.author_time implies j == i by {
            assert(theirs(j));
        }
        lemma_authored_once(commits, o.author_time, i);
        assert(same.contains(commits[i]));
    }
    assert forall|i: int, j: int|
        #[trigger] theirs(i) && #[trigger] theirs(j) && i != j implies same.len() > 1 by {
        if i < j {
            assert(commits[i].author_time == o.author_time);
            assert(commits[j].author_time == o.author_time);
        } else {
            assert(commits[j].author_time == o.author_time);
            assert(commits[i].author_time == o.author_time);
        }
    }
    let by_name = |c: CommitInfoView| c.summary == o.summary;
    let by_base = |c: CommitInfoView| c.first_parent == o.first_parent;
    lemma_first_authored(commits, o.author_time, by_name);
    lemma_first_authored(commits, o.author_time, by_base);
    if same.len() > 1 {
        match first_commit(same, by_name) {
            Some(c) => {
                let k = choose|k: int| first_authored(commits, o.author_time, by_name, k)
                    && commits[k] == c;
                assert(named(k));
                assert forall|m: int| #[trigger] named(m) implies k <= m by {}
            },
            None => {
                assert forall|k: int| !(#[trigger] named(k)) by {}
                match first_commit(same, by_base) {
                    Some(c) => {
                        let k = choose|k: int| first_authored(commits, o.author_time, by_base, k)
                            && commits[k] == c;
                        assert(based(k));
                        assert forall|m: int| #[trigger] based(m) implies k <= m by {}
                    },
                    None => {
                        assert forall|k: int| !(#[trigger] based(k)) by {}
                    },
                }
            },
        }
    }
    if !(exists|i: int| #[trigger] theirs(i)) {
        if same.len() > 0 {
            assert(commits.contains(same[0]));
            let i = choose|i: int| 0 <= i < commits.len() && commits[i] == same[0];
            assert(theirs(i));
        }
    }
}

spec fn first_authored(
    commits: Seq<CommitInfoView>,
    t: Timestamp,
    pred: spec_fn(CommitInfoView) -> bool,
    k: int,
) -> bool {
    &&& 0 <= k < commits.len()
    &&& commits[k].author_time == t
    &&& pred(commits[k])
    &&& forall|m: int|
        0 <= m < commits.len() && (#[trigger] commits[m]).author_time == t && pred(commits[m])
            ==> k <= m
}

proof fn lemma_first_pushed(
    some: Seq<CommitInfoView>,
    c: CommitInfoView,
    pred: spec_fn(CommitInfoView) -> bool,
)
    ensures
        first_commit(some.push(c), pred) == (match first_commit(some, pred) {
            Some(x) => Some(x),
            None => if pred(c) {
                Some(c)
            } else {
                None
            },
        }),
    decreases some.len(),
{
    if some.len() > 0 {
        assert(some.push(c).drop_first() =~= some.drop_first().push(c));
        assert(some.push(c)[0] == some[0]);
        lemma_first_pushed(some.drop_first(), c, pred);
    } else {
        reveal_with_fuel(first_commit, 2);
        assert(some.push(c).drop_first() =~= Seq::empty());
        assert(some.push(c)[0] == c);
    }
}

proof fn lemma_first_authored(
    commits: Seq<CommitInfoView>,
    t: Timestamp,
    pred: spec_fn(CommitInfoView) -> bool,
)
    ensures
        match first_commit(authored_at(commits, t), pred) {
            Some(c) => exists|k: int| first_authored(commits, t, pred, k) && commits[k] == c,
            None => forall|m: int|
                0 <= m < commits.len() && (#[trigger] commits[m]).author_time == t ==> !pred(
                    commits[m],
                ),
        },
    decreases commits.len(),
{
    if commits.len() > 0 {
        let rest = commits.drop_last();
        let last = commits.last();
        let n = rest.len() as int;
        lemma_first_authored(rest, t, pred);
        if last.author_time == t {
            lemma_first_pushed(authored_at(rest, t), last, pred);
        }
        assert forall|m: int| 0 <= m < n implies rest[m] == #[trigger] commits[m] by {}
        match first_commit(authored_at(rest, t), pred) {
            Some(c) => {
                let k = choose|k: int| first_authored(rest, t, pred, k) && rest[k] == c;
                assert forall|m: int|
                    0 <= m < commits.len() && (#[trigger] commits[m]).author_time == t && pred(
                        commits[m],
                    ) implies k <= m by {
                    if m < n {
                        assert(rest[m] == commits[m]);
                    }
                }
                assert(first_authored(commits, t, pred, k) && commits[k] == c);
            },
            None => {
                assert forall|m: int|
                    0 <= m < n && (#[trigger] commits[m]).author_time == t implies !pred(
                    commits[m],
                ) by {
                    assert(rest[m] == commits[m]);
                }
                if last.author_time == t && pred(last) {
                    assert(first_authored(commits, t, pred, n) && commits[n] == last);
                }
            },
        }
    }
}

proof fn lemma_authored_once(commits: Seq<CommitInfoView>, t: Timestamp, i: int)
    requires
        0 <= i < commits.len(),
        commits[i].author_time == t,
        forall|j: int|
            0 <= j < commits.len() && (#[trigger] commits[j]).author_time == t ==> j == i,
    ensures
        authored_at(commits, t) == seq![commits[i]],
    decreases commits.len(),
{
    let rest = commits.drop_last();
    assert forall|j: int| 0 <= j < rest.len() implies rest[j] == #[trigger] commits[j] by {}
    if i < rest.len() {
        lemma_authored_once(rest, t, i);
        assert(commits[commits.len() - 1].author_time != t);
    } else {
        lemma_authored_none(rest, t);
        assert(authored_at(commits, t) =~= seq![commits[i]]);
    }
}

proof fn lemma_authored_none(commits: Seq<CommitInfoView>, t: Timestamp)
    requires
        forall|j: int| 0 <= j < commits.len() ==> (#[trigger] commits[j]).author_time != t,
    ensures
        authored_at(commits, t) == Seq::<CommitInfoView>::empty(),
    decreases commits.len(),
{
    if commits.len() > 0 {
        let rest = commits.drop_last();
        assert forall|j: int| 0 <= j < rest.len() implies (#[trigger] rest[j]).author_time != t by {
            assert(rest[j] == commits[j]);
        }
        lemma_authored_none(rest, t);
        assert(commits[commits.len() - 1].author_time != t);
    }
}

} // verus!
