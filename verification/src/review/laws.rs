//! What holds of every review.

use super::{ReviewCheckpointView, ReviewSectionView, WorktreeReviewView};
use super::assemble::{
    commit_ids, commit_sections, info_of, label_of, pending, sections_of, towards, unattached,
    uncommitted, WorkStateView,
};
use super::select::{
    checkpoint_named, has_prefix, is_hex_prefix, numbered_section, section_at, selected,
    with_prefix, SelectedView,
};
use crate::error::TrailErrorView;
use crate::git::history::CommitInfoView;
use crate::text::{
    before_first, decimal, is_digit, is_space, lemma_before_first_unique, lemma_decimal_digits,
    lemma_decimal_injective, lemma_decimal_value, lemma_digits_value_prefix, number_value, trim,
};
use crate::trail::event::TrailEventView;
use vstd::prelude::*;

verus! {

/// Every commit of a trail is known.
pub open spec fn all_known(infos: Seq<CommitInfoView>, ids: Seq<Seq<char>>) -> bool {
    forall|i: int| 0 <= i < ids.len() ==> info_of(infos, #[trigger] ids[i]) is Some
}

/// Sections numbered from one, each with its checkpoints numbered from one:
/// commits first, the working tree last.
pub open spec fn well_placed(sections: Seq<ReviewSectionView>) -> bool {
    &&& sections.len() > 0
    &&& sections.last() is WorkingTree
    &&& forall|i: int|
        0 <= i < sections.len() - 1 ==> (#[trigger] sections[i]) is Commit
    &&& in_place(sections)
}

/// Sections numbered from one, each with its checkpoints numbered from one.
pub open spec fn in_place(sections: Seq<ReviewSectionView>) -> bool {
    &&& forall|i: int| 0 <= i < sections.len() ==> (#[trigger] sections[i]).at() == i + 1
    &&& forall|i: int, j: int|
        0 <= i < sections.len() && 0 <= j < sections[i].steps().len() ==> {
            let cp = #[trigger] sections[i].steps()[j];
            cp.section == i + 1 && cp.number == j + 1 && cp.label == label_of(i + 1, j + 1)
        }
}

/// The checkpoints of all sections, in reading order.
pub open spec fn all_steps(sections: Seq<ReviewSectionView>) -> Seq<ReviewCheckpointView>
    decreases sections.len(),
{
    if sections.len() == 0 {
        Seq::empty()
    } else {
        all_steps(sections.drop_last()) + sections.last().steps()
    }
}

proof fn lemma_commit_sections(
    blobs: Map<Seq<char>, Seq<u8>>,
    infos: Seq<CommitInfoView>,
    steps: Seq<TrailEventView>,
    ids: Seq<Seq<char>>,
    k: int,
)
    requires
        all_known(infos, ids),
        0 <= k <= ids.len() < usize::MAX,
        steps.len() < usize::MAX,
    ensures
        ({
            let (sections, flat) = commit_sections(blobs, infos, steps, ids.take(k));
            &&& sections.len() == k
            &&& in_place(sections)
            &&& forall|i: int| 0 <= i < k ==> (#[trigger] sections[i]) is Commit
            &&& flat == all_steps(sections)
        }),
    decreases k,
{
    let some = ids.take(k);
    let (sections, flat) = commit_sections(blobs, infos, steps, some);
    if k == 0 {
        assert(flat =~= all_steps(sections));
    } else {
        lemma_commit_sections(blobs, infos, steps, ids, k - 1);
        assert(some.drop_last() =~= ids.take(k - 1));
        let (before, _) = commit_sections(blobs, infos, steps, ids.take(k - 1));
        assert(info_of(infos, ids[k - 1]) is Some);
        lemma_towards_len(steps, ids[k - 1]);
        assert(sections.drop_last() =~= before);
        assert forall|i: int| 0 <= i < sections.len() implies (#[trigger] sections[i]).at() == i
            + 1 by {
            if i < k - 1 {
                assert(sections[i] == before[i]);
            }
        }
        assert forall|i: int, j: int|
            0 <= i < sections.len() && 0 <= j < sections[i].steps().len() implies {
            let cp = #[trigger] sections[i].steps()[j];
            cp.section == i + 1 && cp.number == j + 1 && cp.label == label_of(i + 1, j + 1)
        } by {
            if i < k - 1 {
                assert(sections[i] == before[i]);
                assert(before[i].steps()[j] == sections[i].steps()[j]);
            }
        }
        assert forall|i: int| 0 <= i < k implies (#[trigger] sections[i]) is Commit by {
            if i < k - 1 {
                assert(sections[i] == before[i]);
            }
        }
    }
}

proof fn lemma_towards_len(steps: Seq<TrailEventView>, id: Seq<char>)
    ensures
        towards(steps, id).len() <= steps.len(),
    decreases steps.len(),
{
    if steps.len() > 0 {
        lemma_towards_len(steps.drop_last(), id);
    }
}

proof fn lemma_uncommitted_len(steps: Seq<TrailEventView>, ids: Seq<Seq<char>>)
    ensures
        uncommitted(steps, ids).len() <= steps.len(),
    decreases steps.len(),
{
    if steps.len() > 0 {
        lemma_uncommitted_len(steps.drop_last(), ids);
    }
}

proof fn lemma_lens(events: Seq<TrailEventView>)
    ensures
        pending(events).len() <= events.len(),
        commit_ids(events).len() <= events.len(),
    decreases events.len(),
{
    if events.len() > 0 {
        lemma_lens(events.drop_last());
    }
}

/// A review lists the commits of its trail, numbered from one in their order,
/// and then the working tree. Each section's checkpoints are numbered from one,
/// and the flat list is the sections' checkpoints, one after the other.
///
/// Every commit of the trail has to be known.
pub proof fn lemma_review_well_placed(
    live: bool,
    events: Seq<TrailEventView>,
    infos: Seq<CommitInfoView>,
    blobs: Map<Seq<char>, Seq<u8>>,
    work: WorkStateView,
)
    requires
        all_known(infos, commit_ids(events)),
        events.len() < usize::MAX,
    ensures
        ({
            let (sections, flat) = sections_of(live, events, infos, blobs, work);
            &&& well_placed(sections)
            &&& sections.len() == commit_ids(events).len() + 1
            &&& flat == all_steps(sections)
        }),
{
    let ids = commit_ids(events);
    let steps = pending(events);
    lemma_lens(events);
    let n = ids.len() as int;
    assert(ids.take(n) =~= ids);
    lemma_commit_sections(blobs, infos, steps, ids, n);
    lemma_uncommitted_len(steps, ids);
    let (before, _) = commit_sections(blobs, infos, steps, ids);
    let (sections, flat) = sections_of(live, events, infos, blobs, work);
    assert(sections.drop_last() =~= before);
    assert forall|i: int| 0 <= i < sections.len() implies (#[trigger] sections[i]).at() == i + 1 by {
        if i < n {
            assert(sections[i] == before[i]);
        }
    }
    assert forall|i: int, j: int|
        0 <= i < sections.len() && 0 <= j < sections[i].steps().len() implies {
        let cp = #[trigger] sections[i].steps()[j];
        cp.section == i + 1 && cp.number == j + 1 && cp.label == label_of(i + 1, j + 1)
    } by {
        if i < n {
            assert(sections[i] == before[i]);
            assert(before[i].steps()[j] == sections[i].steps()[j]);
        }
    }
    assert forall|i: int| 0 <= i < sections.len() - 1 implies (#[trigger] sections[i]) is Commit by {
        assert(sections[i] == before[i]);
    }
}

// ---------------------------------------------------------------------------
// Every checkpoint has its place
/// The checkpoints of some commits, in reading order.
spec fn towards_all(steps: Seq<TrailEventView>, ids: Seq<Seq<char>>) -> Seq<TrailEventView>
    decreases ids.len(),
{
    if ids.len() == 0 {
        Seq::empty()
    } else {
        towards_all(steps, ids.drop_last()) + towards(steps, ids.last())
    }
}

spec fn no_repeats(ids: Seq<Seq<char>>) -> bool {
    forall|i: int, j: int| 0 <= i < j < ids.len() ==> #[trigger] ids[i] != #[trigger] ids[j]
}

proof fn lemma_towards_none(steps: Seq<TrailEventView>)
    ensures
        uncommitted(steps, Seq::empty()) == steps,
    decreases steps.len(),
{
    if steps.len() > 0 {
        lemma_towards_none(steps.drop_last());
        assert(unattached(steps.last(), Seq::empty()));
        assert(steps.drop_last().push(steps.last()) =~= steps);
    } else {
        assert(uncommitted(steps, Seq::empty()) =~= steps);
    }
}

proof fn lemma_contains_split(ids: Seq<Seq<char>>, c: Seq<char>)
    requires
        ids.len() > 0,
    ensures
        ids.contains(c) == (ids.drop_last().contains(c) || c == ids.last()),
{
    let rest = ids.drop_last();
    if rest.contains(c) {
        let i = choose|i: int| 0 <= i < rest.len() && rest[i] == c;
        assert(ids[i] == c);
    }
    if ids.contains(c) && c != ids.last() {
        let i = choose|i: int| 0 <= i < ids.len() && ids[i] == c;
        assert(rest[i] == c);
    }
    assert(ids[ids.len() - 1] == ids.last());
}

/// With one more commit, its checkpoints leave the uncommitted ones.
proof fn lemma_one_more_commit(steps: Seq<TrailEventView>, ids: Seq<Seq<char>>)
    requires
        ids.len() > 0,
        !ids.drop_last().contains(ids.last()),
    ensures
        uncommitted(steps, ids.drop_last()).to_multiset() =~= uncommitted(
            steps,
            ids,
        ).to_multiset().add(towards(steps, ids.last()).to_multiset()),
    decreases steps.len(),
{
    broadcast use vstd::seq_lib::group_to_multiset_ensures;

    if steps.len() > 0 {
        lemma_one_more_commit(steps.drop_last(), ids);
        match steps.last().event_type->commit {
            Some(c) => {
                lemma_contains_split(ids, c);
            },
            None => {},
        }
    }
}

proof fn lemma_all_sorted_out(steps: Seq<TrailEventView>, ids: Seq<Seq<char>>)
    requires
        no_repeats(ids),
    ensures
        towards_all(steps, ids).to_multiset().add(uncommitted(steps, ids).to_multiset())
            =~= steps.to_multiset(),
    decreases ids.len(),
{
    broadcast use vstd::seq_lib::group_to_multiset_ensures;

    if ids.len() == 0 {
        assert(ids =~= Seq::empty());
        lemma_towards_none(steps);
    } else {
        let rest = ids.drop_last();
        assert forall|i: int, j: int| 0 <= i < j < rest.len() implies #[trigger] rest[i]
            != #[trigger] rest[j] by {
            assert(rest[i] == ids[i] && rest[j] == ids[j]);
        }
        lemma_all_sorted_out(steps, rest);
        assert(!rest.contains(ids.last())) by {
            if rest.contains(ids.last()) {
                let i = choose|i: int| 0 <= i < rest.len() && rest[i] == ids.last();
                assert(ids[i] == ids[ids.len() - 1]);
            }
        }
        lemma_one_more_commit(steps, ids);
        vstd::seq_lib::lemma_multiset_commutative(
            towards_all(steps, rest),
            towards(steps, ids.last()),
        );
    }
}

proof fn lemma_flat_events(
    blobs: Map<Seq<char>, Seq<u8>>,
    infos: Seq<CommitInfoView>,
    steps: Seq<TrailEventView>,
    ids: Seq<Seq<char>>,
    k: int,
)
    requires
        all_known(infos, ids),
        0 <= k <= ids.len(),
    ensures
        ({
            let flat = commit_sections(blobs, infos, steps, ids.take(k)).1;
            let es = towards_all(steps, ids.take(k));
            &&& flat.len() == es.len()
            &&& forall|i: int|
                0 <= i < flat.len() ==> (#[trigger] flat[i]).id == es[i].event_type->Checkpoint_id
        }),
    decreases k,
{
    if k > 0 {
        lemma_flat_events(blobs, infos, steps, ids, k - 1);
        assert(ids.take(k).drop_last() =~= ids.take(k - 1));
        assert(info_of(infos, ids[k - 1]) is Some);
        let flat = commit_sections(blobs, infos, steps, ids.take(k)).1;
        let before = commit_sections(blobs, infos, steps, ids.take(k - 1)).1;
        let es = towards_all(steps, ids.take(k));
        let eb = towards_all(steps, ids.take(k - 1));
        assert forall|i: int| 0 <= i < flat.len() implies (#[trigger] flat[i]).id
            == es[i].event_type->Checkpoint_id by {
            if i < before.len() {
                assert(flat[i] == before[i]);
                assert(es[i] == eb[i]);
            } else {
                assert(es[i] == towards(steps, ids[k - 1])[i - before.len()]);
            }
        }
    }
}

/// Every visible checkpoint of a trail is in exactly one section of its review:
/// the checkpoints listed are those of the trail, rearranged.
///
/// The commits of the trail have to be known and different.
pub proof fn lemma_every_checkpoint_once(
    live: bool,
    events: Seq<TrailEventView>,
    infos: Seq<CommitInfoView>,
    blobs: Map<Seq<char>, Seq<u8>>,
    work: WorkStateView,
)
    requires
        all_known(infos, commit_ids(events)),
        forall|i: int, j: int|
            0 <= i < j < commit_ids(events).len() ==> #[trigger] commit_ids(events)[i]
                != #[trigger] commit_ids(events)[j],
    ensures
        exists|es: Seq<TrailEventView>|
            es.to_multiset() == pending(events).to_multiset() && #[trigger] same_ids(
                sections_of(live, events, infos, blobs, work).1,
                es,
            ),
{
    broadcast use vstd::seq_lib::group_to_multiset_ensures;

    let ids = commit_ids(events);
    let steps = pending(events);
    let n = ids.len() as int;
    assert(ids.take(n) =~= ids);
    lemma_flat_events(blobs, infos, steps, ids, n);
    lemma_all_sorted_out(steps, ids);
    let es = towards_all(steps, ids) + uncommitted(steps, ids);
    vstd::seq_lib::lemma_multiset_commutative(towards_all(steps, ids), uncommitted(steps, ids));
    let flat = sections_of(live, events, infos, blobs, work).1;
    let first = commit_sections(blobs, infos, steps, ids).1;
    assert forall|i: int| 0 <= i < flat.len() implies (#[trigger] flat[i]).id
        == es[i].event_type->Checkpoint_id by {
        if i < first.len() {
            assert(flat[i] == first[i]);
            assert(es[i] == towards_all(steps, ids)[i]);
        } else {
            assert(es[i] == uncommitted(steps, ids)[i - first.len()]);
        }
    }
    assert(same_ids(flat, es));
}

/// Checkpoints of a review with the ids of some events, in their order.
pub open spec fn same_ids(cps: Seq<ReviewCheckpointView>, events: Seq<TrailEventView>) -> bool {
    &&& cps.len() == events.len()
    &&& forall|i: int|
        0 <= i < cps.len() ==> (#[trigger] cps[i]).id == events[i].event_type->Checkpoint_id
}

// ---------------------------------------------------------------------------
// Selectors
proof fn lemma_digits_trimmed(s: Seq<char>)
    requires
        s.len() > 0,
        !is_space(s[0]),
        !is_space(s.last()),
    ensures
        trim(s) == s,
{
}

proof fn lemma_section_at(sections: Seq<ReviewSectionView>, from: int, i: int)
    requires
        forall|k: int| 0 <= k < sections.len() ==> (#[trigger] sections[k]).at() == from + k,
        0 <= i < sections.len(),
    ensures
        section_at(sections, from + i) == Some(sections[i]),
    decreases sections.len(),
{
    assert(sections[0].at() == from + 0);
    if i > 0 {
        let rest = sections.drop_first();
        assert forall|k: int| 0 <= k < rest.len() implies (#[trigger] rest[k]).at() == from + 1
            + k by {
            assert(rest[k] == sections[k + 1]);
        }
        lemma_section_at(rest, from + 1, i - 1);
    }
}

/// The number of a section selects it.
pub proof fn lemma_number_selects_section(review: WorktreeReviewView, i: int)
    requires
        in_place(review.sections),
        0 <= i < review.sections.len() < usize::MAX,
    ensures
        selected(review, decimal((i + 1) as nat)) == Ok::<SelectedView, TrailErrorView>(
            SelectedView::Section(review.sections[i]),
        ),
{
    let n = (i + 1) as nat;
    let s = decimal(n);
    lemma_decimal_value(n);
    lemma_decimal_digits(n);
    assert(is_digit(s[0]));
    assert(is_digit(s[s.len() - 1]));
    lemma_digits_trimmed(s);
    lemma_section_at(review.sections, 1, i);
}

proof fn lemma_label_shape(a: nat, b: nat)
    ensures
        ({
            let l = label_of(a as int, b as int);
            &&& l.len() > 0
            &&& is_digit(l[0])
            &&& is_digit(l.last())
            &&& before_first(l, '.') == decimal(a).len()
            &&& l.take(decimal(a).len() as int) == decimal(a)
            &&& l.skip(decimal(a).len() as int + 1) == decimal(b)
            &&& l[decimal(a).len() as int] == '.'
        }),
{
    reveal_strlit(".");
    lemma_decimal_value(a);
    lemma_decimal_value(b);
    lemma_decimal_digits(a);
    lemma_decimal_digits(b);
    let l = label_of(a as int, b as int);
    let n = decimal(a).len() as int;
    assert(l[n] == '.');
    assert forall|i: int| 0 <= i < n implies l[i] != '.' by {
        assert(l[i] == decimal(a)[i]);
        assert(is_digit(decimal(a)[i]));
    }
    lemma_before_first_unique(l, '.', n);
    assert(l.take(n) =~= decimal(a));
    assert(l.skip(n + 1) =~= decimal(b));
    assert(l.last() == decimal(b).last());
    assert(is_digit(decimal(b)[decimal(b).len() - 1]));
}

/// Different places have different labels.
pub proof fn lemma_labels_differ(a: nat, b: nat, c: nat, d: nat)
    requires
        label_of(a as int, b as int) == label_of(c as int, d as int),
    ensures
        a == c,
        b == d,
{
    lemma_label_shape(a, b);
    lemma_label_shape(c, d);
    lemma_decimal_injective(a, c);
    lemma_decimal_injective(b, d);
}

proof fn lemma_label_no_number(a: nat, b: nat)
    ensures
        number_value(label_of(a as int, b as int)) is None,
        trim(label_of(a as int, b as int)) == label_of(a as int, b as int),
{
    let l = label_of(a as int, b as int);
    lemma_label_shape(a, b);
    lemma_digits_trimmed(l);
    let n = decimal(a).len() as int;
    assert(l.take(n + 1).last() == '.');
    lemma_digits_value_prefix(l, n + 1);
}

proof fn lemma_all_steps_member(sections: Seq<ReviewSectionView>, m: int) -> (r: (int, int))
    requires
        0 <= m < all_steps(sections).len(),
    ensures
        0 <= r.0 < sections.len(),
        0 <= r.1 < sections[r.0].steps().len(),
        all_steps(sections)[m] == sections[r.0].steps()[r.1],
    decreases sections.len(),
{
    let before = all_steps(sections.drop_last());
    if m < before.len() {
        lemma_all_steps_member(sections.drop_last(), m)
    } else {
        (sections.len() - 1, m - before.len())
    }
}

proof fn lemma_all_steps_holds(sections: Seq<ReviewSectionView>, i: int, j: int) -> (m: int)
    requires
        0 <= i < sections.len(),
        0 <= j < sections[i].steps().len(),
    ensures
        0 <= m < all_steps(sections).len(),
        all_steps(sections)[m] == sections[i].steps()[j],
    decreases sections.len(),
{
    let before = all_steps(sections.drop_last());
    if i < sections.len() - 1 {
        lemma_all_steps_holds(sections.drop_last(), i, j)
    } else {
        before.len() + j
    }
}

proof fn lemma_checkpoint_named(cps: Seq<ReviewCheckpointView>, name: Seq<char>, m: int)
    requires
        0 <= m < cps.len(),
        cps[m].label == name,
    ensures
        checkpoint_named(cps, name) is Some,
        exists|k: int|
            0 <= k < cps.len() && #[trigger] cps[k] == checkpoint_named(cps, name)->Some_0 && (
            cps[k].label == name || cps[k].id == name),
    decreases cps.len(),
{
    if cps[0].label == name || cps[0].id == name {
        assert(cps[0] == checkpoint_named(cps, name)->Some_0);
    } else {
        let rest = cps.drop_first();
        assert(rest[m - 1] == cps[m]);
        lemma_checkpoint_named(rest, name, m - 1);
        let k = choose|k: int|
            0 <= k < rest.len() && #[trigger] rest[k] == checkpoint_named(rest, name)->Some_0 && (
            rest[k].label == name || rest[k].id == name);
        assert(cps[k + 1] == rest[k]);
    }
}

/// The label of a checkpoint selects it, unless it happens to be the id of a
/// checkpoint.
pub proof fn lemma_label_selects_checkpoint(review: WorktreeReviewView, i: int, j: int)
    requires
        in_place(review.sections),
        review.checkpoints == all_steps(review.sections),
        0 <= i < review.sections.len(),
        0 <= j < review.sections[i].steps().len(),
        forall|k: int|
            0 <= k < review.checkpoints.len() ==> (#[trigger] review.checkpoints[k]).id != label_of(
                i + 1,
                j + 1,
            ),
    ensures
        selected(review, label_of(i + 1, j + 1)) == Ok::<SelectedView, TrailErrorView>(
            SelectedView::Checkpoint(review.sections[i].steps()[j]),
        ),
{
    let label = label_of(i + 1, j + 1);
    lemma_label_no_number((i + 1) as nat, (j + 1) as nat);
    let m = lemma_all_steps_holds(review.sections, i, j);
    lemma_checkpoint_named(review.checkpoints, label, m);
    let k = choose|k: int|
        0 <= k < review.checkpoints.len() && #[trigger] review.checkpoints[k]
            == checkpoint_named(review.checkpoints, label)->Some_0 && (
        review.checkpoints[k].label == label || review.checkpoints[k].id == label);
    let (a, b) = lemma_all_steps_member(review.sections, k);
    let cp = review.sections[a].steps()[b];
    assert(cp.label == label_of(a + 1, b + 1));
    lemma_labels_differ((i + 1) as nat, (j + 1) as nat, (a + 1) as nat, (b + 1) as nat);
}

proof fn lemma_with_prefix(sections: Seq<ReviewSectionView>, prefix: Seq<char>)
    ensures
        forall|i: int|
            0 <= i < with_prefix(sections, prefix).len() ==> has_prefix(
                #[trigger] with_prefix(sections, prefix)[i],
                prefix,
            ),
    decreases sections.len(),
{
    if sections.len() > 0 {
        lemma_with_prefix(sections.drop_last(), prefix);
        let before = with_prefix(sections.drop_last(), prefix);
        let after = with_prefix(sections, prefix);
        assert forall|i: int| 0 <= i < after.len() implies has_prefix(
            #[trigger] after[i],
            prefix,
        ) by {
            if i < before.len() {
                assert(after[i] == before[i]);
            }
        }
    }
}

/// The start of a commit's id that no other commit's id has selects it, unless
/// it is the number of a section or the name of a checkpoint. It may well be
/// made of digits alone.
pub proof fn lemma_prefix_selects_commit(review: WorktreeReviewView, given: Seq<char>)
    requires
        is_hex_prefix(trim(given)),
        numbered_section(review.sections, trim(given)) is None,
        checkpoint_named(review.checkpoints, trim(given)) is None,
        with_prefix(review.sections, trim(given)).len() == 1,
    ensures
        ({
            let s = with_prefix(review.sections, trim(given))[0];
            has_prefix(s, trim(given)) && selected(review, given) == Ok::<
                SelectedView,
                TrailErrorView,
            >(SelectedView::Section(s))
        }),
{
    lemma_with_prefix(review.sections, trim(given));
}

} // verus!
