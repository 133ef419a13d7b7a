//! What is known of worktrees, and which one a selector names.

use super::worktrees::{
    chosen_worktree, existing_matches, is_existing, last_head_of, last_movement, lemma_recorded_ids,
    lemma_remembered, lemma_removed, matches_by, names_existing, recorded_ids, remembered,
    removed_entries, removed_entry, removed_head_of, removed_matches, removed_of, worktree_list,
    worktree_matches, ExistingWorktreeView, RecordedView, RemovedTipView, WorktreeChoiceView,
};
use crate::choice::{lemma_selects_last, lemma_selects_none, selects, sum_of};
use crate::error::TrailErrorView;
use crate::git::worktree::WorktreeKind;
use crate::recorder::checkpoint::checkpoints_of;
use crate::recorder::store::{RecordView, SessionFileView};
use crate::text;
use vstd::prelude::*;

verus! {

// ---------------------------------------------------------------------------
// What sessions remember
/// Where HEAD went last in a session: the last movement that was recorded, or
/// else where it was when recording started.
pub open spec fn went_to(s: SessionFileView, head: Option<Seq<char>>) -> bool {
    if exists|i: int| 0 <= i < s.records.len() && #[trigger] s.records[i] is Commit {
        exists|i: int| {
            &&& 0 <= i < s.records.len()
            &&& #[trigger] s.records[i] is Commit
            &&& head == Some(s.records[i]->to_head)
            &&& forall|j: int| i < j < s.records.len() ==> !(#[trigger] s.records[j] is Commit)
        }
    } else {
        head == s.header.start_head
    }
}

proof fn lemma_last_movement(records: Seq<RecordView>)
    ensures
        match last_movement(records) {
            Some(h) => exists|i: int| {
                &&& 0 <= i < records.len()
                &&& #[trigger] records[i] is Commit
                &&& Some(h) == Some(records[i]->to_head)
                &&& forall|j: int| i < j < records.len() ==> !(#[trigger] records[j] is Commit)
            },
            None => forall|i: int| 0 <= i < records.len() ==> !(#[trigger] records[i] is Commit),
        },
    decreases records.len(),
{
    if records.len() > 0 {
        let rest = records.drop_last();
        let n = rest.len() as int;
        lemma_last_movement(rest);
        assert forall|i: int| 0 <= i < n implies rest[i] == #[trigger] records[i] by {}
        assert(records[n] == records.last());
        if !(records.last() is Commit) {
            match last_movement(rest) {
                Some(h) => {
                    let i = choose|i: int| {
                        &&& 0 <= i < rest.len()
                        &&& #[trigger] rest[i] is Commit
                        &&& Some(h) == Some(rest[i]->to_head)
                        &&& forall|j: int| i < j < rest.len() ==> !(#[trigger] rest[j] is Commit)
                    };
                    assert(records[i] is Commit);
                    assert forall|j: int| i < j < records.len() implies !(
                    #[trigger] records[j] is Commit) by {
                        if j < n {
                            assert(rest[j] == records[j]);
                        }
                    }
                },
                None => {
                    assert forall|i: int| 0 <= i < records.len() implies !(
                    #[trigger] records[i] is Commit) by {
                        if i < n {
                            assert(rest[i] == records[i]);
                        }
                    }
                },
            }
        }
    }
}

/// The last HEAD a session knows of is where it went last, if that is an object
/// id.
pub proof fn lemma_last_head(s: SessionFileView) -> (head: Option<Seq<char>>)
    ensures
        went_to(s, head),
        head is None ==> last_head_of(s) is None,
        head is Some ==> last_head_of(s) == crate::recorder::snapshot::object_id(head->Some_0),
{
    lemma_last_movement(s.records);
    match last_movement(s.records) {
        Some(h) => Some(h),
        None => s.header.start_head,
    }
}

/// `theirs` are the sessions recorded in a worktree.
pub open spec fn are_theirs(
    sessions: Seq<SessionFileView>,
    id: Seq<char>,
    theirs: Seq<SessionFileView>,
) -> bool {
    selects(sessions, |s: SessionFileView| s.header.worktree_id == id, theirs)
}

/// What the sessions of a worktree remember, oldest first: the path and the
/// branch of the latest one, how many sessions and checkpoints there are, and
/// the last HEAD that one of them knows of.
pub open spec fn remembers(theirs: Seq<SessionFileView>, r: RecordedView) -> bool {
    &&& theirs.len() > 0
    &&& r.path == theirs.last().header.worktree_path
    &&& r.branch == theirs.last().header.branch
    &&& theirs.len() <= usize::MAX ==> r.sessions == theirs.len()
    &&& match r.tip {
        Some(h) => exists|i: int| {
            &&& 0 <= i < theirs.len()
            &&& last_head_of(#[trigger] theirs[i]) == Some(h)
            &&& forall|j: int|
                i < j < theirs.len() ==> last_head_of(#[trigger] theirs[j]) is None
        },
        None => forall|j: int| 0 <= j < theirs.len() ==> last_head_of(#[trigger] theirs[j]) is None,
    }
}

/// What is remembered of a worktree is what its sessions remember; of one
/// without sessions nothing is.
pub proof fn lemma_what_is_remembered(sessions: Seq<SessionFileView>, id: Seq<char>) -> (theirs:
    Seq<SessionFileView>)
    ensures
        are_theirs(sessions, id, theirs),
        theirs.len() == 0 ==> remembered(sessions, id) is None,
        theirs.len() > 0 ==> remembered(sessions, id) is Some && remembers(
            theirs,
            remembered(sessions, id)->Some_0,
        ),
        theirs.len() > 0 && sum_of(
            theirs.map_values(
                |s: SessionFileView| checkpoints_of(s.header.session_id, s.records).len() as int,
            ),
        ) <= usize::MAX ==> remembered(sessions, id)->Some_0.checkpoints == sum_of(
            theirs.map_values(
                |s: SessionFileView| checkpoints_of(s.header.session_id, s.records).len() as int,
            ),
        ),
        sum_of(
            theirs.map_values(
                |s: SessionFileView| checkpoints_of(s.header.session_id, s.records).len() as int,
            ),
        ) >= 0,
    decreases sessions.len(),
{
    let pred = |s: SessionFileView| s.header.worktree_id == id;
    let count = |s: SessionFileView|
        checkpoints_of(s.header.session_id, s.records).len() as int;
    if sessions.len() == 0 {
        assert(sessions =~= Seq::empty());
        lemma_selects_none(pred);
        Seq::empty()
    } else {
        let last = sessions.last();
        let before = lemma_what_is_remembered(sessions.drop_last(), id);
        lemma_selects_last(sessions, pred, before);
        if last.header.worktree_id == id {
            let theirs = before.push(last);
            let n = before.len() as int;
            assert(theirs.map_values(count).drop_last() =~= before.map_values(count));
            assert forall|i: int| 0 <= i < n implies before[i] == #[trigger] theirs[i] by {}
            let r = remembered(sessions, id)->Some_0;
            assert(theirs[n] == last);
            if last_head_of(last) is Some {
                assert(last_head_of(theirs[n]) == r.tip);
            } else if n > 0 {
                let was = remembered(sessions.drop_last(), id)->Some_0;
                match was.tip {
                    Some(h) => {
                        let i = choose|i: int| {
                            &&& 0 <= i < before.len()
                            &&& last_head_of(#[trigger] before[i]) == Some(h)
                            &&& forall|j: int|
                                i < j < before.len() ==> last_head_of(
                                    #[trigger] before[j],
                                ) is None
                        };
                        assert(last_head_of(theirs[i]) == Some(h));
                        assert forall|j: int| i < j < theirs.len() implies last_head_of(
                            #[trigger] theirs[j],
                        ) is None by {
                            if j < n {
                                assert(before[j] == theirs[j]);
                            }
                        }
                    },
                    None => {
                        assert forall|j: int| 0 <= j < theirs.len() implies last_head_of(
                            #[trigger] theirs[j],
                        ) is None by {
                            if j < n {
                                assert(before[j] == theirs[j]);
                            }
                        }
                    },
                }
            }
            theirs
        } else {
            before
        }
    }
}

// ---------------------------------------------------------------------------
// The list
/// Worktrees that git has are listed in its order: with their own branch, HEAD
/// and commits if they could be read, and otherwise with what is remembered; the
/// one in use is marked.
pub proof fn lemma_existing_worktrees_are_listed(
    current_id: Seq<char>,
    existing: Seq<ExistingWorktreeView>,
    sessions: Seq<SessionFileView>,
    tips: Seq<Option<RemovedTipView>>,
    i: int,
)
    requires
        0 <= i < existing.len(),
    ensures
        worktree_list(current_id, existing, sessions, tips).len() >= existing.len(),
        ({
            let e = worktree_list(current_id, existing, sessions, tips)[i];
            let w = existing[i];
            let rec = remembered(sessions, w.id);
            &&& e.id == w.id
            &&& e.path == w.path
            &&& e.kind == w.kind
            &&& e.exists == w.on_disk
            &&& e.current <==> w.id == current_id
            &&& w.state is Some ==> e.branch == w.state->Some_0.branch && e.head == Some(
                w.state->Some_0.head,
            ) && e.commits == w.state->Some_0.commits
            &&& w.state is None ==> e.commits is None
            &&& w.state is None && rec is Some ==> e.branch == rec->Some_0.branch && e.head
                == rec->Some_0.tip
            &&& w.state is None && rec is None ==> e.branch is None && e.head is None
            &&& rec is Some ==> e.sessions == rec->Some_0.sessions && e.checkpoints
                == rec->Some_0.checkpoints
            &&& rec is None ==> e.sessions == 0 && e.checkpoints == 0
        }),
{
}

/// Worktrees that only their sessions remember are listed behind those that git
/// has, one entry each: as linked ones that do not exist, with what is remembered
/// and the tip that was found.
pub proof fn lemma_removed_worktrees_are_listed(
    current_id: Seq<char>,
    existing: Seq<ExistingWorktreeView>,
    sessions: Seq<SessionFileView>,
    tips: Seq<Option<RemovedTipView>>,
)
    requires
        tips.len() == removed_of(recorded_ids(sessions), existing).len(),
    ensures
        ({
            let all = worktree_list(current_id, existing, sessions, tips);
            let ids = removed_of(recorded_ids(sessions), existing);
            let n = existing.len() as int;
            &&& all.len() == n + ids.len()
            &&& forall|id: Seq<char>|
                #[trigger] ids.contains(id) <==> (exists|i: int|
                    0 <= i < sessions.len() && (#[trigger] sessions[i]).header.worktree_id == id)
                    && !(exists|i: int| 0 <= i < existing.len() && (#[trigger] existing[i]).id
                    == id)
            &&& forall|i: int, j: int| 0 <= i < j < ids.len() ==> #[trigger] ids[i]
                != #[trigger] ids[j]
            &&& forall|k: int|
                0 <= k < ids.len() ==> {
                    let e = #[trigger] all[n + k];
                    let rec = remembered(sessions, ids[k]);
                    &&& rec is Some
                    &&& e.id == ids[k]
                    &&& e.path == rec->Some_0.path
                    &&& e.branch == rec->Some_0.branch
                    &&& e.kind == WorktreeKind::Linked
                    &&& !e.exists
                    &&& !e.current
                    &&& e.sessions == rec->Some_0.sessions
                    &&& e.checkpoints == rec->Some_0.checkpoints
                    &&& tips[k] is Some ==> e.head == Some(tips[k]->Some_0.head) && e.commits
                        == tips[k]->Some_0.commits
                    &&& tips[k] is None ==> e.head is None && e.commits is None
                }
        }),
{
    let ids = removed_of(recorded_ids(sessions), existing);
    lemma_recorded_ids(sessions);
    lemma_removed(recorded_ids(sessions), existing);
    assert forall|id: Seq<char>| #[trigger] ids.contains(id) <==> (exists|i: int|
        0 <= i < sessions.len() && (#[trigger] sessions[i]).header.worktree_id == id) && !(exists|
        i: int,
    | 0 <= i < existing.len() && (#[trigger] existing[i]).id == id) by {
        assert(ids.contains(id) <==> recorded_ids(sessions).contains(id) && !is_existing(
            existing,
            id,
        ));
        lemma_id_recorded(sessions, id);
    }
    assert forall|k: int| 0 <= k < ids.len() implies remembered(
        sessions,
        #[trigger] ids[k],
    ) is Some by {
        assert(ids.contains(ids[k]));
        let i = choose|i: int|
            0 <= i < sessions.len() && (#[trigger] sessions[i]).header.worktree_id == ids[k];
        lemma_remembered(sessions, i);
    }
    lemma_removed_entry(ids, sessions, tips);
}

proof fn lemma_id_recorded(sessions: Seq<SessionFileView>, id: Seq<char>)
    ensures
        recorded_ids(sessions).contains(id) <==> exists|i: int|
            0 <= i < sessions.len() && (#[trigger] sessions[i]).header.worktree_id == id,
{
    lemma_recorded_ids(sessions);
    let plain = sessions.map_values(|s: SessionFileView| s.header.worktree_id);
    if recorded_ids(sessions).contains(id) {
        assert(plain.contains(id));
        let i = choose|i: int| 0 <= i < plain.len() && plain[i] == id;
        assert(sessions[i].header.worktree_id == id);
    }
    if exists|i: int| 0 <= i < sessions.len() && (#[trigger] sessions[i]).header.worktree_id == id {
        let i = choose|i: int|
            0 <= i < sessions.len() && (#[trigger] sessions[i]).header.worktree_id == id;
        assert(plain[i] == id);
    }
}

proof fn lemma_removed_entry(
    ids: Seq<Seq<char>>,
    sessions: Seq<SessionFileView>,
    tips: Seq<Option<RemovedTipView>>,
)
    requires
        ids.len() <= tips.len(),
        forall|k: int| 0 <= k < ids.len() ==> remembered(sessions, #[trigger] ids[k]) is Some,
    ensures
        removed_entries(ids, sessions, tips).len() == ids.len(),
        forall|k: int|
            0 <= k < ids.len() ==> #[trigger] removed_entries(ids, sessions, tips)[k]
                == removed_entry(ids[k], remembered(sessions, ids[k])->Some_0, tips[k]),
    decreases ids.len(),
{
    if ids.len() > 0 {
        let rest = ids.drop_last();
        assert forall|k: int| 0 <= k < rest.len() implies remembered(
            sessions,
            #[trigger] rest[k],
        ) is Some by {
            assert(rest[k] == ids[k]);
        }
        lemma_removed_entry(rest, sessions, tips);
        assert(ids[ids.len() - 1] == ids.last());
        let before = removed_entries(rest, sessions, tips);
        let after = removed_entries(ids, sessions, tips);
        assert forall|k: int| 0 <= k < ids.len() implies #[trigger] after[k] == removed_entry(
            ids[k],
            remembered(sessions, ids[k])->Some_0,
            tips[k],
        ) by {
            if k < rest.len() {
                assert(after[k] == before[k]);
                assert(rest[k] == ids[k]);
            }
        }
    }
}

/// The tip of a removed worktree is that of its branch if the recorded HEAD is
/// part of it or unknown, and the recorded HEAD otherwise; without either there
/// is none.
pub proof fn lemma_tips_of_removed_worktrees(
    id: Seq<char>,
    recorded: Option<Seq<char>>,
    branch: Option<Seq<char>>,
    part: bool,
)
    ensures
        ({
            let r = removed_head_of(id, recorded, branch, part);
            &&& branch is Some && (recorded is None || part) ==> r == Ok::<
                Seq<char>,
                TrailErrorView,
            >(branch->Some_0)
            &&& recorded is Some && (branch is None || !part) ==> r == Ok::<
                Seq<char>,
                TrailErrorView,
            >(recorded->Some_0)
            &&& recorded is None && branch is None ==> r is Err && r->Err_0
                is WorktreeUnavailable
        }),
{
}

// ---------------------------------------------------------------------------
// Selection
proof fn lemma_existing_matches(
    existing: Seq<ExistingWorktreeView>,
    selector: Seq<char>,
    by_id: bool,
)
    ensures
        forall|m: (Seq<char>, Option<Seq<char>>)|
            #[trigger] existing_matches(existing, selector, by_id).contains(m) <==> exists|i: int| {
                &&& 0 <= i < existing.len()
                &&& names_existing(#[trigger] existing[i], selector, by_id)
                &&& m.0 == existing[i].id
                &&& m.1 == (if existing[i].on_disk {
                    Some(existing[i].path)
                } else {
                    None
                })
            },
    decreases existing.len(),
{
    if existing.len() > 0 {
        let rest = existing.drop_last();
        let n = rest.len() as int;
        lemma_existing_matches(rest, selector, by_id);
        assert forall|i: int| 0 <= i < n implies rest[i] == #[trigger] existing[i] by {}
        assert(existing[n] == existing.last());
        let before = existing_matches(rest, selector, by_id);
        let after = existing_matches(existing, selector, by_id);
        assert forall|m: (Seq<char>, Option<Seq<char>>)|
            #[trigger] after.contains(m) <==> exists|i: int| {
                &&& 0 <= i < existing.len()
                &&& names_existing(#[trigger] existing[i], selector, by_id)
                &&& m.0 == existing[i].id
                &&& m.1 == (if existing[i].on_disk {
                    Some(existing[i].path)
                } else {
                    None
                })
            } by {
            if before.contains(m) {
                let k = choose|k: int| 0 <= k < before.len() && before[k] == m;
                assert(after[k] == m);
                let i = choose|i: int| {
                    &&& 0 <= i < rest.len()
                    &&& names_existing(#[trigger] rest[i], selector, by_id)
                    &&& m.0 == rest[i].id
                    &&& m.1 == (if rest[i].on_disk {
                        Some(rest[i].path)
                    } else {
                        None
                    })
                };
                assert(names_existing(existing[i], selector, by_id));
            } else if after.contains(m) {
                let k = choose|k: int| 0 <= k < after.len() && after[k] == m;
                if k < before.len() {
                    assert(before[k] == m);
                }
                assert(names_existing(existing[n], selector, by_id));
            }
            if exists|i: int| {
                &&& 0 <= i < existing.len()
                &&& names_existing(#[trigger] existing[i], selector, by_id)
                &&& m.0 == existing[i].id
                &&& m.1 == (if existing[i].on_disk {
                    Some(existing[i].path)
                } else {
                    None
                })
            } {
                let i = choose|i: int| {
                    &&& 0 <= i < existing.len()
                    &&& names_existing(#[trigger] existing[i], selector, by_id)
                    &&& m.0 == existing[i].id
                    &&& m.1 == (if existing[i].on_disk {
                        Some(existing[i].path)
                    } else {
                        None
                    })
                };
                if i < n {
                    assert(names_existing(rest[i], selector, by_id));
                    assert(before.contains(m));
                } else {
                    assert(after[after.len() - 1] == m);
                }
            }
        }
    }
}

/// No worktree is chosen but one that goes by the selector: one that git has,
/// with that id or on that branch, or one that is remembered so. It is the one in
/// use, or one on disk at its path, or one that only its sessions remember.
pub proof fn lemma_chosen_worktrees_go_by_the_selector(
    current_id: Seq<char>,
    existing: Seq<ExistingWorktreeView>,
    sessions: Seq<SessionFileView>,
    selector: Seq<char>,
)
    requires
        text::trim(selector) == selector,
    ensures
        match chosen_worktree(current_id, existing, sessions, selector) {
            Ok(WorktreeChoiceView::Existing(p)) => exists|i: int| {
                &&& 0 <= i < existing.len()
                &&& (#[trigger] existing[i]).path == p
                &&& existing[i].on_disk
                &&& existing[i].id != current_id
                &&& existing[i].id == selector || (existing[i].state is Some
                    && existing[i].state->Some_0.branch == Some(selector))
            },
            Ok(WorktreeChoiceView::Removed(id)) => id != current_id && remembered(
                sessions,
                id,
            ) is Some,
            Ok(WorktreeChoiceView::Current) => worktree_matches(
                existing,
                sessions,
                selector,
            ).contains(worktree_matches(existing, sessions, selector)[0]) && worktree_matches(
                existing,
                sessions,
                selector,
            )[0].0 == current_id,
            Err(_) => true,
        },
{
    lemma_existing_matches(existing, selector, true);
    lemma_existing_matches(existing, selector, false);
    let hits = worktree_matches(existing, sessions, selector);
    match chosen_worktree(current_id, existing, sessions, selector) {
        Ok(WorktreeChoiceView::Existing(p)) => {
            let by_id = matches_by(existing, sessions, selector, true).len() > 0;
            let a = existing_matches(existing, selector, by_id);
            let b = removed_matches(
                removed_of(recorded_ids(sessions), existing),
                sessions,
                selector,
                by_id,
            );
            lemma_removed_have_no_path(
                removed_of(recorded_ids(sessions), existing),
                sessions,
                selector,
                by_id,
            );
            assert(hits == a + b);
            if a.len() == 0 {
                assert(hits[0] == b[0]);
            } else {
                assert(hits[0] == a[0]);
                assert(a.contains(hits[0]));
            }
        },
        Ok(WorktreeChoiceView::Current) => {
            assert(hits.contains(hits[0]));
        },
        _ => {},
    }
}

proof fn lemma_removed_have_no_path(
    ids: Seq<Seq<char>>,
    sessions: Seq<SessionFileView>,
    selector: Seq<char>,
    by_id: bool,
)
    ensures
        forall|k: int|
            0 <= k < removed_matches(ids, sessions, selector, by_id).len() ==> (
            #[trigger] removed_matches(ids, sessions, selector, by_id)[k]).1 is None,
    decreases ids.len(),
{
    if ids.len() > 0 {
        lemma_removed_have_no_path(ids.drop_last(), sessions, selector, by_id);
    }
}

proof fn lemma_one_branch_match(existing: Seq<ExistingWorktreeView>, name: Seq<char>, i: int)
    requires
        0 <= i < existing.len(),
        names_existing(existing[i], name, false),
        forall|j: int|
            0 <= j < existing.len() && j != i ==> !names_existing(
                #[trigger] existing[j],
                name,
                false,
            ),
    ensures
        existing_matches(existing, name, false) == seq![
            (
                existing[i].id,
                if existing[i].on_disk {
                    Some(existing[i].path)
                } else {
                    None
                },
            ),
        ],
    decreases existing.len(),
{
    let rest = existing.drop_last();
    let n = rest.len() as int;
    assert(existing[n] == existing.last());
    if i < n {
        assert(rest[i] == existing[i]);
        assert forall|j: int| 0 <= j < rest.len() && j != i implies !names_existing(
            #[trigger] rest[j],
            name,
            false,
        ) by {
            assert(rest[j] == existing[j]);
        }
        lemma_one_branch_match(rest, name, i);
    } else {
        lemma_no_branch_match(rest, name);
        assert forall|j: int| 0 <= j < rest.len() implies !names_existing(
            #[trigger] rest[j],
            name,
            false,
        ) by {
            assert(rest[j] == existing[j]);
        }
        assert(existing_matches(existing, name, false) =~= seq![
            (
                existing[i].id,
                if existing[i].on_disk {
                    Some(existing[i].path)
                } else {
                    None
                },
            ),
        ]);
    }
}

proof fn lemma_no_branch_match(existing: Seq<ExistingWorktreeView>, name: Seq<char>)
    ensures
        (forall|j: int|
            0 <= j < existing.len() ==> !names_existing(#[trigger] existing[j], name, false))
            ==> existing_matches(existing, name, false).len() == 0,
    decreases existing.len(),
{
    if existing.len() > 0 {
        let rest = existing.drop_last();
        lemma_no_branch_match(rest, name);
        if forall|j: int|
            0 <= j < existing.len() ==> !names_existing(#[trigger] existing[j], name, false) {
            assert forall|j: int| 0 <= j < rest.len() implies !names_existing(
                #[trigger] rest[j],
                name,
                false,
            ) by {
                assert(rest[j] == existing[j]);
            }
            assert(!names_existing(existing[existing.len() - 1], name, false));
        }
    }
}

/// A branch that is checked out in one worktree on disk, and that no other
/// worktree is or was on, selects that worktree, unless a worktree has that name
/// as its id.
pub proof fn lemma_branches_select_their_worktree(
    current_id: Seq<char>,
    existing: Seq<ExistingWorktreeView>,
    sessions: Seq<SessionFileView>,
    name: Seq<char>,
    i: int,
)
    requires
        text::trim(name) == name,
        0 <= i < existing.len(),
        existing[i].on_disk,
        existing[i].state is Some && existing[i].state->Some_0.branch == Some(name),
        matches_by(existing, sessions, name, true).len() == 0,
        forall|j: int|
            0 <= j < existing.len() && j != i ==> !((#[trigger] existing[j]).state is Some
                && existing[j].state->Some_0.branch == Some(name)),
        removed_matches(
            removed_of(recorded_ids(sessions), existing),
            sessions,
            name,
            false,
        ).len() == 0,
    ensures
        chosen_worktree(current_id, existing, sessions, name) == Ok::<_, TrailErrorView>(
            if existing[i].id == current_id {
                WorktreeChoiceView::Current
            } else {
                WorktreeChoiceView::Existing(existing[i].path)
            },
        ),
{
    assert forall|j: int| 0 <= j < existing.len() && j != i implies !names_existing(
        #[trigger] existing[j],
        name,
        false,
    ) by {}
    lemma_one_branch_match(existing, name, i);
    let hits = worktree_matches(existing, sessions, name);
    assert(hits =~= existing_matches(existing, name, false));
}

} // verus!
