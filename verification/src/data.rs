//! Copying and comparing values by what they denote.
//!
//! Contracts of this library speak of a value through its `deep_view`: a text
//! is its characters, a list its elements, a record the views of its fields.

use crate::text;
use vstd::prelude::*;

verus! {

/// A value that can be copied.
pub trait Dup: DeepView + Sized {
    fn dup(&self) -> (r: Self)
        ensures
            r.deep_view() == self.deep_view(),
    ;
}

/// A value that can be compared.
pub trait Same: DeepView {
    fn same(&self, other: &Self) -> (r: bool)
        ensures
            r == (self.deep_view() == other.deep_view()),
    ;
}

impl Dup for String {
    fn dup(&self) -> (r: String) {
        self.clone()
    }
}

impl Same for String {
    fn same(&self, other: &String) -> (r: bool) {
        text::same(self, other)
    }
}

impl Dup for bool {
    fn dup(&self) -> (r: bool) {
        *self
    }
}

impl Same for bool {
    fn same(&self, other: &bool) -> (r: bool) {
        *self == *other
    }
}

impl Dup for u8 {
    fn dup(&self) -> (r: u8) {
        *self
    }
}

impl Dup for u32 {
    fn dup(&self) -> (r: u32) {
        *self
    }
}

impl Dup for u64 {
    fn dup(&self) -> (r: u64) {
        *self
    }
}

impl Same for u64 {
    fn same(&self, other: &u64) -> (r: bool) {
        *self == *other
    }
}

impl Dup for i64 {
    fn dup(&self) -> (r: i64) {
        *self
    }
}

impl Dup for usize {
    fn dup(&self) -> (r: usize) {
        *self
    }
}

impl<A: Dup, B: Dup> Dup for (A, B) {
    fn dup(&self) -> (r: (A, B)) {
        (self.0.dup(), self.1.dup())
    }
}

impl<T: Dup> Dup for Option<T> {
    fn dup(&self) -> (r: Option<T>) {
        match self {
            Some(x) => Some(x.dup()),
            None => None,
        }
    }
}

impl<T: Same> Same for Option<T> {
    fn same(&self, other: &Option<T>) -> (r: bool) {
        match (self, other) {
            (Some(x), Some(y)) => x.same(y),
            (None, None) => true,
            _ => false,
        }
    }
}

impl<T: Dup> Dup for Vec<T> {
    fn dup(&self) -> (r: Vec<T>) {
        let mut out: Vec<T> = Vec::new();
        let mut k: usize = 0;
        while k < self.len()
            invariant
                k == out.len(),
                k <= self.len(),
                forall|i: int| 0 <= i < k ==> #[trigger] out[i].deep_view() == self[i].deep_view(),
            decreases self.len() - k,
        {
            out.push(self[k].dup());
            k += 1;
        }
        assert(out.deep_view() =~= self.deep_view());
        out
    }
}

impl<T: Same> Same for Vec<T> {
    fn same(&self, other: &Vec<T>) -> (r: bool) {
        if self.len() != other.len() {
            assert(self.deep_view().len() != other.deep_view().len());
            return false;
        }
        let mut k: usize = 0;
        while k < self.len()
            invariant
                k <= self.len(),
                self.len() == other.len(),
                forall|i: int| 0 <= i < k ==> #[trigger] self[i].deep_view() == other[i].deep_view(),
            decreases self.len() - k,
        {
            if !self[k].same(&other[k]) {
                assert(self.deep_view()[k as int] != other.deep_view()[k as int]);
                return false;
            }
            k += 1;
        }
        assert(self.deep_view() =~= other.deep_view());
        true
    }
}

/// Appending an element appends its view.
pub broadcast proof fn lemma_deep_push<T: DeepView>(v: Vec<T>, w: Vec<T>, x: T)
    requires
        w@ == #[trigger] v@.push(x),
    ensures
        #[trigger] w.deep_view() == v.deep_view().push(x.deep_view()),
{
    assert(w.deep_view() =~= v.deep_view().push(x.deep_view()));
}

/// Whether some element of `v` denotes `x`.
pub fn contains<T: Same>(v: &Vec<T>, x: &T) -> (r: bool)
    ensures
        r == v.deep_view().contains(x.deep_view()),
{
    let mut k: usize = 0;
    while k < v.len()
        invariant
            k <= v.len(),
            forall|i: int| 0 <= i < k ==> #[trigger] v.deep_view()[i] != x.deep_view(),
        decreases v.len() - k,
    {
        if v[k].same(x) {
            assert(v.deep_view()[k as int] == x.deep_view());
            return true;
        }
        k += 1;
    }
    false
}

/// Whether some text of `v` is `x`.
pub fn contains_text(v: &Vec<String>, x: &str) -> (r: bool)
    ensures
        r == v.deep_view().contains(x@),
{
    let mut k: usize = 0;
    while k < v.len()
        invariant
            k <= v.len(),
            forall|i: int| 0 <= i < k ==> #[trigger] v.deep_view()[i] != x@,
        decreases v.len() - k,
    {
        if text::same(&v[k], x) {
            assert(v.deep_view()[k as int] == x@);
            return true;
        }
        k += 1;
    }
    false
}

} // verus!
