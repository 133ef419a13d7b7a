//! What it is to be the first of some values, or a selection of them.

use vstd::prelude::*;

verus! {

/// `found` is the first of some values that `pred` holds of; nothing where it
/// holds of none.
pub open spec fn is_first<A>(s: Seq<A>, pred: spec_fn(A) -> bool, found: Option<A>) -> bool {
    match found {
        Some(x) => exists|i: int| first_at(s, pred, i) && s[i] == x,
        None => forall|j: int| 0 <= j < s.len() ==> !pred(#[trigger] s[j]),
    }
}

/// The first of some values that `pred` holds of stands at `i`.
pub open spec fn first_at<A>(s: Seq<A>, pred: spec_fn(A) -> bool, i: int) -> bool {
    &&& 0 <= i < s.len()
    &&& pred(s[i])
    &&& forall|j: int| 0 <= j < i ==> !pred(#[trigger] s[j])
}

/// `found` is the last of some values that `pred` holds of; nothing where it
/// holds of none.
pub open spec fn is_last<A>(s: Seq<A>, pred: spec_fn(A) -> bool, found: Option<A>) -> bool {
    match found {
        Some(x) => exists|i: int| last_at(s, pred, i) && s[i] == x,
        None => forall|j: int| 0 <= j < s.len() ==> !pred(#[trigger] s[j]),
    }
}

/// The last of some values that `pred` holds of stands at `i`.
pub open spec fn last_at<A>(s: Seq<A>, pred: spec_fn(A) -> bool, i: int) -> bool {
    &&& 0 <= i < s.len()
    &&& pred(s[i])
    &&& forall|j: int| i < j < s.len() ==> !pred(#[trigger] s[j])
}

/// `r` holds the values that `pred` holds of, all of them and no others, in
/// their order.
pub open spec fn selects<A>(s: Seq<A>, pred: spec_fn(A) -> bool, r: Seq<A>) -> bool {
    exists|places: Seq<int>| selects_at(s, pred, r, places)
}

/// The places of the values that are selected.
pub open spec fn selects_at<A>(
    s: Seq<A>,
    pred: spec_fn(A) -> bool,
    r: Seq<A>,
    places: Seq<int>,
) -> bool {
    &&& places.len() == r.len()
    &&& forall|i: int|
        0 <= i < r.len() ==> 0 <= #[trigger] places[i] < s.len() && r[i] == s[places[i]] && pred(
            s[places[i]],
        )
    &&& forall|i: int, j: int|
        0 <= i < j < places.len() ==> #[trigger] places[i] < #[trigger] places[j]
    &&& forall|k: int| 0 <= k < s.len() && pred(#[trigger] s[k]) ==> places.contains(k)
}

pub proof fn lemma_first_here<A>(s: Seq<A>, pred: spec_fn(A) -> bool)
    requires
        s.len() > 0,
        pred(s[0]),
    ensures
        is_first(s, pred, Some(s[0])),
{
    assert(first_at(s, pred, 0));
}

pub proof fn lemma_first_later<A>(s: Seq<A>, pred: spec_fn(A) -> bool, found: Option<A>)
    requires
        s.len() > 0,
        !pred(s[0]),
        is_first(s.drop_first(), pred, found),
    ensures
        is_first(s, pred, found),
{
    let rest = s.drop_first();
    match found {
        Some(x) => {
            let i = choose|i: int| first_at(rest, pred, i) && rest[i] == x;
            assert forall|j: int| 0 <= j < i + 1 implies !pred(#[trigger] s[j]) by {
                if j > 0 {
                    assert(rest[j - 1] == s[j]);
                }
            }
            assert(rest[i] == s[i + 1]);
            assert(first_at(s, pred, i + 1));
        },
        None => {
            assert forall|j: int| 0 <= j < s.len() implies !pred(#[trigger] s[j]) by {
                if j > 0 {
                    assert(rest[j - 1] == s[j]);
                }
            }
        },
    }
}

pub proof fn lemma_last_here<A>(s: Seq<A>, pred: spec_fn(A) -> bool)
    requires
        s.len() > 0,
        pred(s.last()),
    ensures
        is_last(s, pred, Some(s.last())),
{
    assert(last_at(s, pred, s.len() - 1));
}

pub proof fn lemma_last_earlier<A>(s: Seq<A>, pred: spec_fn(A) -> bool, found: Option<A>)
    requires
        s.len() > 0,
        !pred(s.last()),
        is_last(s.drop_last(), pred, found),
    ensures
        is_last(s, pred, found),
{
    let rest = s.drop_last();
    match found {
        Some(x) => {
            let i = choose|i: int| last_at(rest, pred, i) && rest[i] == x;
            assert forall|j: int| i < j < s.len() implies !pred(#[trigger] s[j]) by {
                if j < rest.len() {
                    assert(rest[j] == s[j]);
                }
            }
            assert(rest[i] == s[i]);
            assert(last_at(s, pred, i));
        },
        None => {
            assert forall|j: int| 0 <= j < s.len() implies !pred(#[trigger] s[j]) by {
                if j < rest.len() {
                    assert(rest[j] == s[j]);
                }
            }
        },
    }
}

/// Nothing is selected of nothing.
pub proof fn lemma_selects_none<A>(pred: spec_fn(A) -> bool)
    ensures
        selects(Seq::<A>::empty(), pred, Seq::<A>::empty()),
{
    assert(selects_at(Seq::<A>::empty(), pred, Seq::<A>::empty(), Seq::<int>::empty()));
}

/// One more value is selected, behind the others, exactly if `pred` holds of it.
pub proof fn lemma_selects_last<A>(s: Seq<A>, pred: spec_fn(A) -> bool, r: Seq<A>)
    requires
        s.len() > 0,
        selects(s.drop_last(), pred, r),
    ensures
        pred(s.last()) ==> selects(s, pred, r.push(s.last())),
        !pred(s.last()) ==> selects(s, pred, r),
{
    let rest = s.drop_last();
    let n = rest.len() as int;
    let places = choose|places: Seq<int>| selects_at(rest, pred, r, places);
    assert forall|k: int| 0 <= k < n implies rest[k] == #[trigger] s[k] by {}
    if pred(s.last()) {
        let more = places.push(n);
        assert forall|k: int| 0 <= k < s.len() && pred(#[trigger] s[k]) implies more.contains(
            k,
        ) by {
            if k < n {
                assert(rest[k] == s[k]);
                let m = choose|m: int| 0 <= m < places.len() && places[m] == k;
                assert(more[m] == k);
            } else {
                assert(more[places.len() as int] == k);
            }
        }
        assert(selects_at(s, pred, r.push(s.last()), more));
    } else {
        assert forall|k: int| 0 <= k < s.len() && pred(#[trigger] s[k]) implies places.contains(
            k,
        ) by {
            assert(rest[k] == s[k]);
        }
        assert(selects_at(s, pred, r, places));
    }
}

/// What is selected is there, and what `pred` holds of is selected.
pub proof fn lemma_selects_contains<A>(s: Seq<A>, pred: spec_fn(A) -> bool, r: Seq<A>)
    requires
        selects(s, pred, r),
    ensures
        forall|i: int|
            0 <= i < r.len() ==> pred(#[trigger] r[i]) && exists|k: int|
                0 <= k < s.len() && #[trigger] s[k] == r[i],
        forall|k: int| 0 <= k < s.len() && pred(#[trigger] s[k]) ==> r.contains(s[k]),
        r.len() <= s.len(),
{
    let places = choose|places: Seq<int>| selects_at(s, pred, r, places);
    assert forall|i: int| 0 <= i < r.len() implies pred(#[trigger] r[i]) && exists|k: int|
        0 <= k < s.len() && #[trigger] s[k] == r[i] by {
        assert(0 <= places[i] < s.len());
        assert(s[places[i]] == r[i]);
    }
    assert forall|k: int| 0 <= k < s.len() && pred(#[trigger] s[k]) implies r.contains(s[k]) by {
        let m = choose|m: int| 0 <= m < places.len() && places[m] == k;
        assert(r[m] == s[places[m]]);
    }
    lemma_increasing_len(places, s.len() as int);
}

proof fn lemma_increasing_len(places: Seq<int>, bound: int)
    requires
        0 <= bound,
        forall|i: int| 0 <= i < places.len() ==> 0 <= #[trigger] places[i] < bound,
        forall|i: int, j: int|
            0 <= i < j < places.len() ==> #[trigger] places[i] < #[trigger] places[j],
    ensures
        places.len() <= bound,
    decreases places.len(),
{
    if places.len() > 0 {
        let rest = places.drop_last();
        let last = places[places.len() - 1];
        assert forall|i: int| 0 <= i < rest.len() implies 0 <= #[trigger] rest[i] < last by {
            assert(rest[i] == places[i]);
            assert(places[i] < places[places.len() - 1]);
        }
        lemma_increasing_len(rest, last);
    }
}

/// Filtering is selecting.
pub proof fn lemma_filter_selects<A>(s: Seq<A>, pred: spec_fn(A) -> bool)
    ensures
        selects(s, pred, s.filter(pred)),
    decreases s.len(),
{
    reveal(Seq::filter);
    if s.len() == 0 {
        assert(s =~= Seq::empty());
        assert(s.filter(pred) =~= Seq::empty());
        lemma_selects_none(pred);
    } else {
        lemma_filter_selects(s.drop_last(), pred);
        lemma_selects_last(s, pred, s.drop_last().filter(pred));
    }
}

/// The sum of some numbers.
pub open spec fn sum_of(ns: Seq<int>) -> int
    decreases ns.len(),
{
    if ns.len() == 0 {
        0
    } else {
        sum_of(ns.drop_last()) + ns.last()
    }
}

// ---------------------------------------------------------------------------
// Texts
/// One text stands in another.
pub open spec fn occurs(whole: Seq<char>, part: Seq<char>) -> bool {
    exists|a: Seq<char>, b: Seq<char>| whole == #[trigger] (a + part + b)
}

pub broadcast proof fn lemma_occurs_left(a: Seq<char>, b: Seq<char>, part: Seq<char>)
    requires
        occurs(a, part),
    ensures
        #[trigger] occurs(a + b, part),
{
    let (x, y) = choose|x: Seq<char>, y: Seq<char>| a == #[trigger] (x + part + y);
    assert(a + b =~= x + part + (y + b));
}

pub broadcast proof fn lemma_occurs_right(a: Seq<char>, b: Seq<char>, part: Seq<char>)
    requires
        occurs(b, part),
    ensures
        #[trigger] occurs(a + b, part),
{
    let (x, y) = choose|x: Seq<char>, y: Seq<char>| b == #[trigger] (x + part + y);
    assert(a + b =~= (a + x) + part + y);
}

pub broadcast proof fn lemma_occurs_self(s: Seq<char>)
    ensures
        #[trigger] occurs(s, s),
{
    let none = Seq::<char>::empty();
    assert(s =~= none + s + none);
}

/// `n` parts, one behind the other, stand in a text; each fits in its place.
pub open spec fn lists(whole: Seq<char>, n: nat, fits: spec_fn(int, Seq<char>) -> bool) -> bool {
    exists|parts: Seq<Seq<char>>| #[trigger] lists_parts(whole, n, fits, parts)
}

pub open spec fn lists_parts(
    whole: Seq<char>,
    n: nat,
    fits: spec_fn(int, Seq<char>) -> bool,
    parts: Seq<Seq<char>>,
) -> bool {
    &&& parts.len() == n
    &&& occurs(whole, parts.flatten())
    &&& forall|i: int| 0 <= i < n ==> fits(i, #[trigger] parts[i])
}

/// A text that grows by one part for each item is the parts one behind the
/// other.
pub proof fn lemma_flattened<A>(
    items: Seq<A>,
    part: spec_fn(A) -> Seq<char>,
    whole: spec_fn(Seq<A>) -> Seq<char>,
)
    requires
        whole(Seq::empty()) == Seq::<char>::empty(),
        forall|s: Seq<A>| s.len() > 0 ==> #[trigger] whole(s) == whole(s.drop_last()) + part(
            s.last(),
        ),
    ensures
        whole(items) == items.map_values(part).flatten(),
    decreases items.len(),
{
    if items.len() == 0 {
        assert(items =~= Seq::empty());
    } else {
        let rest = items.drop_last();
        lemma_flattened(rest, part, whole);
        assert(items.map_values(part) =~= rest.map_values(part).push(part(items.last())));
        rest.map_values(part).lemma_flatten_push(part(items.last()));
        assert(whole(items) == whole(rest) + part(items.last()));
    }
}

} // verus!
