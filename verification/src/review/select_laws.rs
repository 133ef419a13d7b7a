//! What a selector names.

use super::{ReviewCheckpointView, ReviewSectionView, WorktreeReviewView};
use super::diff_laws::{is_number, lemma_one_first, lemma_section_at};
use super::select::{
    checkpoint_named, has_prefix, is_hex_prefix, number_of, numbered_section, section_at, selected,
    with_prefix, SelectedView,
};
use crate::choice::{
    is_first, lemma_first_here, lemma_first_later, lemma_selects_last, lemma_selects_none, selects,
};
use crate::error::TrailErrorView;
use crate::text;
use vstd::prelude::*;

verus! {

/// A section has the number that a selector is.
pub open spec fn has_number(s: ReviewSectionView, selector: Seq<char>) -> bool {
    &&& text::number_value(selector) is Some
    &&& match s {
        ReviewSectionView::Commit(c) => c.number == text::number_value(selector)->Some_0,
        ReviewSectionView::WorkingTree(w) => w.number == text::number_value(selector)->Some_0,
    }
}

/// A checkpoint has a label or an id.
pub open spec fn goes_by(c: ReviewCheckpointView, selector: Seq<char>) -> bool {
    c.label == selector || c.id == selector
}

/// A section is that of a commit whose id starts with some digits.
pub open spec fn starts_so(s: ReviewSectionView, digits: Seq<char>) -> bool {
    &&& s is Commit
    &&& digits.len() <= s->Commit_0.id.len()
    &&& s->Commit_0.id.take(digits.len() as int) == digits
}

/// Four or more hexadecimal digits.
pub open spec fn is_start(selector: Seq<char>) -> bool {
    selector.len() >= 4 && forall|i: int|
        0 <= i < selector.len() ==> {
            let c = #[trigger] selector[i];
            '0' <= c <= '9' || 'a' <= c <= 'f' || 'A' <= c <= 'F'
        }
}

proof fn lemma_named(cps: Seq<ReviewCheckpointView>, name: Seq<char>)
    ensures
        is_first(cps, |c: ReviewCheckpointView| goes_by(c, name), checkpoint_named(cps, name)),
    decreases cps.len(),
{
    let pred = |c: ReviewCheckpointView| goes_by(c, name);
    if cps.len() > 0 {
        if goes_by(cps[0], name) {
            lemma_first_here(cps, pred);
        } else {
            lemma_named(cps.drop_first(), name);
            lemma_first_later(cps, pred, checkpoint_named(cps, name));
        }
    }
}

proof fn lemma_with_prefix(sections: Seq<ReviewSectionView>, digits: Seq<char>)
    ensures
        selects(
            sections,
            |s: ReviewSectionView| starts_so(s, digits),
            with_prefix(sections, digits),
        ),
    decreases sections.len(),
{
    let pred = |s: ReviewSectionView| starts_so(s, digits);
    if sections.len() == 0 {
        assert(sections =~= Seq::empty());
        lemma_selects_none(pred);
    } else {
        lemma_with_prefix(sections.drop_last(), digits);
        lemma_selects_last(sections, pred, with_prefix(sections.drop_last(), digits));
        let last = sections.last();
        assert(has_prefix(last, digits) == starts_so(last, digits)) by {
            match last {
                ReviewSectionView::Commit(c) => {
                    if digits.len() <= c.id.len() {
                        assert(c.id.take(digits.len() as int) =~= c.id.subrange(
                            0,
                            digits.len() as int,
                        ));
                    }
                },
                ReviewSectionView::WorkingTree(_) => {},
            }
        }
    }
}

proof fn lemma_numbered(sections: Seq<ReviewSectionView>, selector: Seq<char>)
    ensures
        is_first(
            sections,
            |s: ReviewSectionView| has_number(s, selector),
            numbered_section(sections, selector),
        ),
{
    let pred = |s: ReviewSectionView| has_number(s, selector);
    match number_of(selector) {
        Some(n) => {
            let m = n as usize;
            lemma_section_at(sections, m);
            let other = |s: ReviewSectionView| is_number(s, m);
            let found = section_at(sections, m as int);
            assert forall|s: ReviewSectionView| #[trigger] pred(s) == other(s) by {}
            match found {
                Some(x) => {
                    let i = choose|i: int|
                        crate::choice::first_at(sections, other, i) && sections[i] == x;
                    assert forall|j: int| 0 <= j < i implies !pred(#[trigger] sections[j]) by {
                        assert(!other(sections[j]));
                    }
                    assert(crate::choice::first_at(sections, pred, i));
                },
                None => {
                    assert forall|j: int| 0 <= j < sections.len() implies !pred(
                        #[trigger] sections[j],
                    ) by {
                        assert(!other(sections[j]));
                    }
                },
            }
        },
        None => {
            assert forall|j: int| 0 <= j < sections.len() implies !pred(#[trigger] sections[j]) by {
                match sections[j] {
                    ReviewSectionView::Commit(c) => {
                        assert(c.number <= usize::MAX);
                    },
                    ReviewSectionView::WorkingTree(w) => {
                        assert(w.number <= usize::MAX);
                    },
                }
            }
        },
    }
}

/// A selector, without the spaces around it, names a section by its number, or
/// else a checkpoint by its label or id, or else the one commit whose id starts
/// with it. What names nothing, or several commits, is an error.
pub proof fn lemma_what_a_selector_names(
    review: WorktreeReviewView,
    given: Seq<char>,
    hits: Seq<ReviewSectionView>,
)
    requires
        selects(
            review.sections,
            |s: ReviewSectionView| starts_so(s, text::trim(given)),
            hits,
        ),
    ensures
        ({
            let selector = text::trim(given);
            let r = selected(review, given);
            let numbered = |s: ReviewSectionView| has_number(s, selector);
            let named = |c: ReviewCheckpointView| goes_by(c, selector);
            &&& forall|s: ReviewSectionView|
                #[trigger] is_first(review.sections, numbered, Some(s)) ==> r == Ok::<
                    SelectedView,
                    TrailErrorView,
                >(SelectedView::Section(s))
            &&& is_first(review.sections, numbered, None) ==> forall|c: ReviewCheckpointView|
                #[trigger] is_first(review.checkpoints, named, Some(c)) ==> r == Ok::<
                    SelectedView,
                    TrailErrorView,
                >(SelectedView::Checkpoint(c))
            &&& is_first(review.sections, numbered, None) && is_first(
                review.checkpoints,
                named,
                None,
            ) ==> if is_start(selector) && hits.len() == 1 {
                r == Ok::<SelectedView, TrailErrorView>(SelectedView::Section(hits[0]))
            } else {
                r is Err && r->Err_0 is InvalidSelection
            }
        }),
{
    let selector = text::trim(given);
    let numbered = |s: ReviewSectionView| has_number(s, selector);
    let named = |c: ReviewCheckpointView| goes_by(c, selector);
    lemma_numbered(review.sections, selector);
    lemma_named(review.checkpoints, selector);
    lemma_with_prefix(review.sections, selector);
    lemma_one_selection(
        review.sections,
        |s: ReviewSectionView| starts_so(s, selector),
        hits,
        with_prefix(review.sections, selector),
    );
    assert(is_hex_prefix(selector) == is_start(selector)) by {
        if is_start(selector) {
            assert forall|i: int| 0 <= i < selector.len() implies text::is_hex_digit(
                #[trigger] selector[i],
            ) by {}
        }
        if is_hex_prefix(selector) {
            assert forall|i: int| 0 <= i < selector.len() implies ({
                let c = #[trigger] selector[i];
                '0' <= c <= '9' || 'a' <= c <= 'f' || 'A' <= c <= 'F'
            }) by {
                assert(text::is_hex_digit(selector[i]));
            }
        }
    }
    let a = numbered_section(review.sections, selector);
    let b = checkpoint_named(review.checkpoints, selector);
    assert forall|s: ReviewSectionView|
        #[trigger] is_first(review.sections, numbered, Some(s)) implies a == Some(s) by {
        lemma_one_first(review.sections, numbered, Some(s), a);
    }
    if is_first(review.sections, numbered, None) {
        lemma_one_first(review.sections, numbered, None, a);
    }
    assert forall|c: ReviewCheckpointView|
        #[trigger] is_first(review.checkpoints, named, Some(c)) implies b == Some(c) by {
        lemma_one_first(review.checkpoints, named, Some(c), b);
    }
    if is_first(review.checkpoints, named, None) {
        lemma_one_first(review.checkpoints, named, None, b);
    }
}

/// There is one selection.
pub(crate) proof fn lemma_one_selection<A>(
    s: Seq<A>,
    pred: spec_fn(A) -> bool,
    a: Seq<A>,
    b: Seq<A>,
)
    requires
        selects(s, pred, a),
        selects(s, pred, b),
    ensures
        a == b,
{
    let x = choose|places: Seq<int>| crate::choice::selects_at(s, pred, a, places);
    let y = choose|places: Seq<int>| crate::choice::selects_at(s, pred, b, places);
    lemma_one_increasing(x, y);
    assert(a =~= b) by {
        assert forall|i: int| 0 <= i < a.len() implies a[i] == b[i] by {
            assert(a[i] == s[x[i]]);
            assert(b[i] == s[y[i]]);
        }
    }
}

proof fn lemma_one_increasing(x: Seq<int>, y: Seq<int>)
    requires
        forall|i: int, j: int| 0 <= i < j < x.len() ==> #[trigger] x[i] < #[trigger] x[j],
        forall|i: int, j: int| 0 <= i < j < y.len() ==> #[trigger] y[i] < #[trigger] y[j],
        forall|i: int| 0 <= i < x.len() ==> y.contains(#[trigger] x[i]),
        forall|i: int| 0 <= i < y.len() ==> x.contains(#[trigger] y[i]),
    ensures
        x == y,
    decreases x.len(),
{
    if x.len() == 0 {
        if y.len() > 0 {
            assert(x.contains(y[0]));
        }
        assert(x =~= y);
    } else {
        assert(y.contains(x[0]));
        assert(y.len() > 0);
        let n = x.len() - 1;
        let m = y.len() - 1;
        let a = x.drop_last();
        let b = y.drop_last();
        assert(x[n] == y[m]) by {
            let i = choose|i: int| 0 <= i < y.len() && y[i] == x[n];
            let j = choose|j: int| 0 <= j < x.len() && x[j] == y[m];
            assert(y.contains(x[n]) && x.contains(y[m]));
            if i < m {
                assert(y[i] < y[m]);
            }
            if j < n {
                assert(x[j] < x[n]);
            }
        }
        assert forall|i: int| 0 <= i < a.len() implies b.contains(#[trigger] a[i]) by {
            assert(a[i] == x[i]);
            assert(x[i] < x[n]);
            assert(y.contains(x[i]));
            let k = choose|k: int| 0 <= k < y.len() && y[k] == x[i];
            assert(b[k] == a[i]);
        }
        assert forall|i: int| 0 <= i < b.len() implies a.contains(#[trigger] b[i]) by {
            assert(b[i] == y[i]);
            assert(y[i] < y[m]);
            assert(x.contains(y[i]));
            let k = choose|k: int| 0 <= k < x.len() && x[k] == y[i];
            assert(a[k] == b[i]);
        }
        lemma_one_increasing(a, b);
        assert(x =~= a.push(x[n]));
        assert(y =~= b.push(y[m]));
    }
}

} // verus!
