//! Stable sorting by an order of the caller's choice.

use crate::path;
use crate::text;
use vstd::prelude::*;

verus! {

/// An order of the values of `T`.
pub trait Order<T: DeepView> {
    /// Whether `a` has to come before `b`.
    spec fn lt(a: T::V, b: T::V) -> bool;

    /// The order is a strict weak one: it never puts a value before itself,
    /// it is transitive, and so is being unordered.
    proof fn lemma_order(a: T::V, b: T::V, c: T::V)
        ensures
            !Self::lt(a, a),
            Self::lt(a, b) && Self::lt(b, c) ==> Self::lt(a, c),
            !Self::lt(a, b) && !Self::lt(b, c) ==> !Self::lt(a, c),
    ;

    fn before(a: &T, b: &T) -> (r: bool)
        ensures
            r == Self::lt(a.deep_view(), b.deep_view()),
    ;
}

/// `s` with `x` put behind everything that does not have to follow it.
pub open spec fn inserted<T: DeepView, O: Order<T>>(s: Seq<T::V>, x: T::V) -> Seq<T::V>
    decreases s.len(),
{
    if s.len() == 0 || !O::lt(x, s.last()) {
        s.push(x)
    } else {
        inserted::<T, O>(s.drop_last(), x).push(s.last())
    }
}

/// `s` in order; values the order does not tell apart stay as they stood.
pub open spec fn sorted<T: DeepView, O: Order<T>>(s: Seq<T::V>) -> Seq<T::V>
    decreases s.len(),
{
    if s.len() == 0 {
        s
    } else {
        inserted::<T, O>(sorted::<T, O>(s.drop_last()), s.last())
    }
}

/// No value has to come before an earlier one.
pub open spec fn in_order<T: DeepView, O: Order<T>>(s: Seq<T::V>) -> bool {
    forall|i: int, j: int| 0 <= i < j < s.len() ==> !O::lt(#[trigger] s[j], #[trigger] s[i])
}

proof fn lemma_inserted<T: DeepView, O: Order<T>>(s: Seq<T::V>, x: T::V)
    ensures
        inserted::<T, O>(s, x).len() == s.len() + 1,
        inserted::<T, O>(s, x).to_multiset() =~= s.to_multiset().insert(x),
        in_order::<T, O>(s) ==> in_order::<T, O>(inserted::<T, O>(s, x)),
    decreases s.len(),
{
    broadcast use vstd::seq_lib::group_to_multiset_ensures;

    let r = inserted::<T, O>(s, x);
    if s.len() == 0 || !O::lt(x, s.last()) {
        if in_order::<T, O>(s) {
            assert forall|i: int, j: int| 0 <= i < j < r.len() implies !O::lt(
                #[trigger] r[j],
                #[trigger] r[i],
            ) by {
                if j == s.len() && i + 1 < s.len() {
                    O::lemma_order(x, s.last(), s[i]);
                }
            }
        }
    } else {
        let rest = s.drop_last();
        lemma_inserted::<T, O>(rest, x);
        let q = inserted::<T, O>(rest, x);
        assert(s =~= rest.push(s.last()));
        if in_order::<T, O>(s) {
            assert(in_order::<T, O>(rest));
            assert forall|i: int, j: int| 0 <= i < j < r.len() implies !O::lt(
                #[trigger] r[j],
                #[trigger] r[i],
            ) by {
                if j == q.len() {
                    assert(q.to_multiset().count(q[i]) > 0);
                    if q[i] == x {
                        O::lemma_order(x, s.last(), x);
                    } else {
                        assert(rest.to_multiset().count(q[i]) > 0);
                        let m = choose|m: int| 0 <= m < rest.len() && rest[m] == q[i];
                        assert(s[m] == q[i]);
                    }
                }
            }
        }
    }
}

/// Sorting keeps every value as often as it was there, and puts them in order.
pub proof fn lemma_sorted<T: DeepView, O: Order<T>>(s: Seq<T::V>)
    ensures
        sorted::<T, O>(s).len() == s.len(),
        sorted::<T, O>(s).to_multiset() =~= s.to_multiset(),
        in_order::<T, O>(sorted::<T, O>(s)),
    decreases s.len(),
{
    broadcast use vstd::seq_lib::group_to_multiset_ensures;

    if s.len() > 0 {
        lemma_sorted::<T, O>(s.drop_last());
        lemma_inserted::<T, O>(sorted::<T, O>(s.drop_last()), s.last());
        assert(s =~= s.drop_last().push(s.last()));
    }
}

/// What is in order already stays as it is.
pub proof fn lemma_sorted_fixed<T: DeepView, O: Order<T>>(s: Seq<T::V>)
    requires
        in_order::<T, O>(s),
    ensures
        sorted::<T, O>(s) == s,
    decreases s.len(),
{
    if s.len() > 0 {
        assert(in_order::<T, O>(s.drop_last()));
        lemma_sorted_fixed::<T, O>(s.drop_last());
        assert(s =~= s.drop_last().push(s.last()));
        if s.len() > 1 {
            assert(!O::lt(s[s.len() - 1], s[s.len() - 2]));
            assert(s.drop_last().last() == s[s.len() - 2]);
        }
    }
}

/// Sorting makes up no value and loses none.
pub proof fn lemma_sorted_contains<T: DeepView, O: Order<T>>(s: Seq<T::V>, x: T::V)
    ensures
        sorted::<T, O>(s).contains(x) == s.contains(x),
{
    broadcast use vstd::seq_lib::group_to_multiset_ensures;

    lemma_sorted::<T, O>(s);
    assert(s.contains(x) == (s.to_multiset().count(x) > 0));
    assert(sorted::<T, O>(s).contains(x) == (sorted::<T, O>(s).to_multiset().count(x) > 0));
}

/// Puts one value in its place.
pub fn insert_in<T: DeepView, O: Order<T>>(v: &mut Vec<T>, x: T)
    ensures
        final(v).deep_view() == inserted::<T, O>(old(v).deep_view(), x.deep_view()),
{
    let ghost all = v.deep_view();
    let mut k: usize = v.len();
    assert(all.take(k as int) =~= all);
    assert(all.skip(k as int) =~= Seq::empty());
    assert(inserted::<T, O>(all, x.deep_view()) + Seq::empty() =~= inserted::<T, O>(
        all,
        x.deep_view(),
    ));
    while k > 0 && O::before(&x, &v[k - 1])
        invariant
            k <= v.len(),
            v == old(v),
            all == v.deep_view(),
            inserted::<T, O>(all, x.deep_view()) == inserted::<T, O>(
                all.take(k as int),
                x.deep_view(),
            ) + all.skip(k as int),
        decreases k,
    {
        proof {
            let head = all.take(k as int);
            assert(head.last() == v[k - 1].deep_view());
            assert(head.drop_last() =~= all.take(k - 1));
            assert(inserted::<T, O>(all.take(k - 1), x.deep_view()).push(head.last()) + all.skip(
                k as int,
            ) =~= inserted::<T, O>(all.take(k - 1), x.deep_view()) + all.skip(k - 1));
        }
        k -= 1;
    }
    proof {
        if k > 0 {
            assert(all.take(k as int).last() == v[k - 1].deep_view());
        }
    }
    let ghost xv = x.deep_view();
    v.insert(k, x);
    assert(v.deep_view() =~= all.take(k as int).push(xv) + all.skip(k as int));
}

/// Sorts a list, keeping the order of what `O` does not tell apart.
pub fn sort<T: DeepView, O: Order<T>>(v: Vec<T>) -> (r: Vec<T>)
    ensures
        r.deep_view() == sorted::<T, O>(v.deep_view()),
{
    let mut left: Vec<T> = v;
    let ghost all = left.deep_view();
    let mut out: Vec<T> = Vec::new();
    let n: usize = left.len();
    let mut rev: Vec<T> = Vec::new();
    while left.len() > 0
        invariant
            rev.len() + left.len() == n,
            n == all.len(),
            left.deep_view() =~= all.take(left.len() as int),
            forall|i: int| 0 <= i < rev.len() ==> #[trigger] rev[i].deep_view() == all[n - 1 - i],
        decreases left.len(),
    {
        let ghost was = left.deep_view();
        let ghost m = left.len();
        match left.pop() {
            Some(x) => {
                assert(x.deep_view() == was[m - 1]);
                rev.push(x);
            },
            None => {},
        }
        assert(left.deep_view() =~= all.take(left.len() as int)) by {
            assert forall|i: int| 0 <= i < left.len() implies left.deep_view()[i] == all[i] by {
                assert(left.deep_view()[i] == was[i]);
            }
        }
    }
    assert(out.deep_view() =~= sorted::<T, O>(all.take(0)));
    while rev.len() > 0
        invariant
            rev.len() <= n,
            n == all.len(),
            forall|i: int| 0 <= i < rev.len() ==> #[trigger] rev[i].deep_view() == all[n - 1 - i],
            out.deep_view() == sorted::<T, O>(all.take(n - rev.len())),
        decreases rev.len(),
    {
        let ghost k = n - rev.len();
        let ghost next = all.take(k + 1);
        assert(next.drop_last() =~= all.take(k));
        assert(rev[rev.len() - 1].deep_view() == all[k]);
        match rev.pop() {
            Some(x) => insert_in::<T, O>(&mut out, x),
            None => {},
        }
    }
    assert(all.take(n as int) =~= all);
    out
}

/// Texts in their own order.
pub struct ByText;

impl Order<String> for ByText {
    open spec fn lt(a: Seq<char>, b: Seq<char>) -> bool {
        text::less(a, b)
    }

    proof fn lemma_order(a: Seq<char>, b: Seq<char>, c: Seq<char>) {
        text::lemma_less_irreflexive(a);
        text::lemma_less_total(a, b);
        text::lemma_less_total(b, c);
        if text::less(a, b) && text::less(b, c) {
            text::lemma_less_transitive(a, b, c);
        }
        if text::less(a, c) && text::less(c, b) {
            text::lemma_less_transitive(a, c, b);
        }
        if text::less(b, a) && text::less(a, c) {
            text::lemma_less_transitive(b, a, c);
        }
    }

    fn before(a: &String, b: &String) -> (r: bool) {
        text::before(a, b)
    }
}

/// Paths in their own order.
pub struct ByPath;

impl Order<String> for ByPath {
    open spec fn lt(a: Seq<char>, b: Seq<char>) -> bool {
        path::less(a, b)
    }

    proof fn lemma_order(a: Seq<char>, b: Seq<char>, c: Seq<char>) {
        path::lemma_less(a, b, c);
    }

    fn before(a: &String, b: &String) -> (r: bool) {
        path::before(a, b)
    }
}

/// Values that an order does not tell apart from `x`.
pub open spec fn alike<T: DeepView, O: Order<T>>(x: T::V) -> spec_fn(T::V) -> bool {
    |y: T::V| !O::lt(x, y) && !O::lt(y, x)
}

proof fn lemma_filter_push<A>(s: Seq<A>, v: A, pred: spec_fn(A) -> bool)
    ensures
        s.push(v).filter(pred) == (if pred(v) {
            s.filter(pred).push(v)
        } else {
            s.filter(pred)
        }),
{
    reveal(Seq::filter);
    assert(s.push(v).drop_last() =~= s);
}

proof fn lemma_inserted_stable<T: DeepView, O: Order<T>>(s: Seq<T::V>, v: T::V, x: T::V)
    ensures
        inserted::<T, O>(s, v).filter(alike::<T, O>(x)) == s.push(v).filter(alike::<T, O>(x)),
    decreases s.len(),
{
    let pred = alike::<T, O>(x);
    if !(s.len() == 0 || !O::lt(v, s.last())) {
        let rest = s.drop_last();
        let last = s.last();
        lemma_inserted_stable::<T, O>(rest, v, x);
        lemma_filter_push(inserted::<T, O>(rest, v), last, pred);
        lemma_filter_push(rest, v, pred);
        lemma_filter_push(rest, last, pred);
        lemma_filter_push(s, v, pred);
        assert(s =~= rest.push(last));
        if pred(v) && pred(last) {
            O::lemma_order(v, x, last);
        }
    }
}

/// Sorting is stable: values that the order does not tell apart stay in the
/// order in which they stood.
pub proof fn lemma_sorted_is_stable<T: DeepView, O: Order<T>>(s: Seq<T::V>, x: T::V)
    ensures
        sorted::<T, O>(s).filter(alike::<T, O>(x)) == s.filter(alike::<T, O>(x)),
    decreases s.len(),
{
    if s.len() > 0 {
        let rest = s.drop_last();
        let pred = alike::<T, O>(x);
        lemma_sorted_is_stable::<T, O>(rest, x);
        lemma_inserted_stable::<T, O>(sorted::<T, O>(rest), s.last(), x);
        lemma_filter_push(sorted::<T, O>(rest), s.last(), pred);
        lemma_filter_push(rest, s.last(), pred);
        assert(s =~= rest.push(s.last()));
    }
}

} // verus!
