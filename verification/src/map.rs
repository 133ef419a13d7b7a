//! Small maps keyed by text and by path.

use crate::data::Dup;
use crate::path;
use crate::text;
use vstd::prelude::*;

verus! {

/// What a list of entries maps; a later entry takes the place of an earlier
/// one of the same key.
pub open spec fn map_of<K, W>(entries: Seq<(K, W)>) -> Map<K, W>
    decreases entries.len(),
{
    if entries.len() == 0 {
        Map::empty()
    } else {
        map_of(entries.drop_last()).insert(entries.last().0, entries.last().1)
    }
}

/// The keys of such a map are those of the entries.
pub proof fn lemma_map_of<K, W>(entries: Seq<(K, W)>, key: K)
    ensures
        map_of(entries).dom().contains(key) <==> exists|i: int|
            0 <= i < entries.len() && (#[trigger] entries[i]).0 == key,
    decreases entries.len(),
{
    if entries.len() > 0 {
        let rest = entries.drop_last();
        lemma_map_of(rest, key);
        if entries.last().0 == key {
            assert(entries[entries.len() - 1].0 == key);
        } else if map_of(rest).dom().contains(key) {
            let i = choose|i: int| 0 <= i < rest.len() && (#[trigger] rest[i]).0 == key;
            assert(entries[i].0 == key);
        } else if exists|i: int| 0 <= i < entries.len() && (#[trigger] entries[i]).0 == key {
            let i = choose|i: int| 0 <= i < entries.len() && (#[trigger] entries[i]).0 == key;
            assert(rest[i].0 == key);
        }
    }
}

/// A map from texts to values.
#[derive(Debug, Clone, PartialEq, Eq)]
pub struct TextMap<T> {
    entries: Vec<(String, T)>,
}

impl<T: Dup> DeepView for TextMap<T> {
    type V = Map<Seq<char>, T::V>;

    closed spec fn deep_view(&self) -> Map<Seq<char>, T::V> {
        map_of(self.entries.deep_view())
    }
}

impl<T: Dup> Dup for TextMap<T> {
    fn dup(&self) -> (r: TextMap<T>) {
        let mut entries: Vec<(String, T)> = Vec::new();
        let ghost all = self.entries.deep_view();
        let mut k: usize = 0;
        while k < self.entries.len()
            invariant
                k <= self.entries.len(),
                all == self.entries.deep_view(),
                entries.deep_view() =~= all.take(k as int),
            decreases self.entries.len() - k,
        {
            let ghost was = entries.deep_view();
            let e: (String, T) = (self.entries[k].0.dup(), self.entries[k].1.dup());
            entries.push(e);
            assert(entries.deep_view() =~= was.push(all[k as int]));
            k += 1;
        }
        assert(all.take(k as int) =~= all);
        TextMap { entries }
    }
}

impl<T: Dup> TextMap<T> {
    pub fn new() -> (r: TextMap<T>)
        ensures
            r.deep_view() == Map::<Seq<char>, T::V>::empty(),
    {
        TextMap { entries: Vec::new() }
    }

    pub fn is_empty(&self) -> (r: bool)
        ensures
            r == (self.deep_view() == Map::<Seq<char>, T::V>::empty()),
    {
        proof {
            let all = self.entries.deep_view();
            if all.len() > 0 {
                assert(map_of(all).dom().contains(all.last().0));
            }
        }
        self.entries.len() == 0
    }

    pub fn get(&self, key: &str) -> (r: Option<&T>)
        ensures
            r is Some == self.deep_view().dom().contains(key@),
            r is Some ==> r->Some_0.deep_view() == self.deep_view()[key@],
    {
        let ghost all = self.entries.deep_view();
        let mut k: usize = self.entries.len();
        assert(all.take(k as int) =~= all);
        while k > 0
            invariant
                k <= self.entries.len(),
                all == self.entries.deep_view(),
                self.deep_view() == map_of(all),
                map_of(all.take(k as int)).dom().contains(key@) == map_of(all).dom().contains(key@),
                map_of(all.take(k as int))[key@] == map_of(all)[key@],
            decreases k,
        {
            proof {
                assert(all.take(k as int).drop_last() =~= all.take(k - 1));
                assert(all.take(k as int).last() == all[k - 1]);
            }
            if text::same(&self.entries[k - 1].0, key) {
                return Some(&self.entries[k - 1].1);
            }
            k -= 1;
        }
        None
    }

    pub fn remove(&mut self, key: &str)
        ensures
            final(self).deep_view() == old(self).deep_view().remove(key@),
    {
        let mut entries: Vec<(String, T)> = Vec::new();
        let ghost all = self.entries.deep_view();
        let mut k: usize = 0;
        assert(map_of(all.take(0)).remove(key@) =~= Map::empty());
        assert(map_of(entries.deep_view()) =~= Map::empty());
        while k < self.entries.len()
            invariant
                k <= self.entries.len(),
                self == old(self),
                all == self.entries.deep_view(),
                map_of(entries.deep_view()) == map_of(all.take(k as int)).remove(key@),
            decreases self.entries.len() - k,
        {
            proof {
                assert(all.take(k + 1).drop_last() =~= all.take(k as int));
                assert(all.take(k + 1).last() == all[k as int]);
            }
            let ghost was = entries.deep_view();
            if !text::same(&self.entries[k].0, key) {
                let e: (String, T) = (self.entries[k].0.dup(), self.entries[k].1.dup());
                entries.push(e);
                assert(entries.deep_view() =~= was.push(all[k as int]));
                assert(entries.deep_view().drop_last() =~= was);
            }
            assert(map_of(entries.deep_view()) =~= map_of(all.take(k + 1)).remove(key@));
            k += 1;
        }
        assert(all.take(k as int) =~= all);
        self.entries = entries;
    }

    pub fn insert(&mut self, key: String, value: T)
        ensures
            final(self).deep_view() == old(self).deep_view().insert(key@, value.deep_view()),
    {
        let ghost old_map = self.deep_view();
        self.remove(&key);
        let ghost was = self.entries.deep_view();
        let ghost added = (key@, value.deep_view());
        self.entries.push((key, value));
        assert(self.entries.deep_view() =~= was.push(added));
        assert(self.entries.deep_view().drop_last() =~= was);
        assert(self.deep_view() =~= old_map.insert(added.0, added.1));
    }

    /// The keys, each with its value, in no particular order.
    pub fn entries(&self) -> (r: &Vec<(String, T)>)
        ensures
            map_of(r.deep_view()) == self.deep_view(),
    {
        &self.entries
    }
}

/// The entries of a list of paths and values, by the components of the paths.
pub open spec fn by_path<W>(entries: Seq<(Seq<char>, W)>) -> Seq<(Seq<Seq<char>>, W)> {
    entries.map_values(|e: (Seq<char>, W)| (path::components(e.0), e.1))
}

/// A map from paths to values. Texts that name the same path are the same key.
#[derive(Debug, Clone, PartialEq, Eq)]
pub struct PathMap<T> {
    entries: Vec<(String, T)>,
}

impl<T: Dup> DeepView for PathMap<T> {
    type V = Map<Seq<Seq<char>>, T::V>;

    closed spec fn deep_view(&self) -> Map<Seq<Seq<char>>, T::V> {
        map_of(by_path(self.entries.deep_view()))
    }
}

impl<T: Dup> PathMap<T> {
    pub fn new() -> (r: PathMap<T>)
        ensures
            r.deep_view() == Map::<Seq<Seq<char>>, T::V>::empty(),
    {
        PathMap { entries: Vec::new() }
    }

    /// The map of some entries; a later one takes the place of an earlier one
    /// of the same path.
    pub fn from_entries(entries: Vec<(String, T)>) -> (r: PathMap<T>)
        ensures
            r.deep_view() == map_of(by_path(entries.deep_view())),
    {
        PathMap { entries }
    }

    pub fn get(&self, key: &str) -> (r: Option<&T>)
        ensures
            r is Some == self.deep_view().dom().contains(path::components(key@)),
            r is Some ==> r->Some_0.deep_view() == self.deep_view()[path::components(key@)],
    {
        let ghost all = by_path(self.entries.deep_view());
        let ghost c = path::components(key@);
        let mut k: usize = self.entries.len();
        assert(all.take(k as int) =~= all);
        while k > 0
            invariant
                k <= self.entries.len(),
                all == by_path(self.entries.deep_view()),
                self.deep_view() == map_of(all),
                c == path::components(key@),
                map_of(all.take(k as int)).dom().contains(c) == map_of(all).dom().contains(c),
                map_of(all.take(k as int))[c] == map_of(all)[c],
            decreases k,
        {
            proof {
                assert(all.take(k as int).drop_last() =~= all.take(k - 1));
                assert(all.take(k as int).last() == all[k - 1]);
                assert(self.entries.deep_view()[k - 1] == (
                    self.entries[k - 1].0@,
                    self.entries[k - 1].1.deep_view(),
                ));
            }
            if path::same(&self.entries[k - 1].0, key) {
                return Some(&self.entries[k - 1].1);
            }
            k -= 1;
        }
        None
    }

    pub fn insert(&mut self, key: String, value: T)
        ensures
            final(self).deep_view() == old(self).deep_view().insert(
                path::components(key@),
                value.deep_view(),
            ),
    {
        let ghost was = by_path(self.entries.deep_view());
        let ghost added = (path::components(key@), value.deep_view());
        let ghost c = path::components(key@);
        let mut entries: Vec<(String, T)> = Vec::new();
        let mut k: usize = 0;
        assert(map_of(was.take(0)).remove(c) =~= Map::empty());
        assert(by_path(entries.deep_view()) =~= Seq::empty());
        while k < self.entries.len()
            invariant
                k <= self.entries.len(),
                self == old(self),
                was == by_path(self.entries.deep_view()),
                c == path::components(key@),
                map_of(by_path(entries.deep_view())) == map_of(was.take(k as int)).remove(c),
            decreases self.entries.len() - k,
        {
            proof {
                assert(was.take(k + 1).drop_last() =~= was.take(k as int));
                assert(was.take(k + 1).last() == was[k as int]);
                assert(self.entries.deep_view()[k as int] == (
                    self.entries[k as int].0@,
                    self.entries[k as int].1.deep_view(),
                ));
            }
            let ghost before = by_path(entries.deep_view());
            if !path::same(&self.entries[k].0, &key) {
                let e: (String, T) = (self.entries[k].0.dup(), self.entries[k].1.dup());
                entries.push(e);
                assert(by_path(entries.deep_view()) =~= before.push(was[k as int]));
                assert(by_path(entries.deep_view()).drop_last() =~= before);
            }
            assert(map_of(by_path(entries.deep_view())) =~= map_of(was.take(k + 1)).remove(c));
            k += 1;
        }
        assert(was.take(k as int) =~= was);
        let ghost before = by_path(entries.deep_view());
        entries.push((key, value));
        assert(by_path(entries.deep_view()) =~= before.push(added));
        assert(by_path(entries.deep_view()).drop_last() =~= before);
        assert(map_of(by_path(entries.deep_view())) =~= map_of(was).insert(added.0, added.1));
        self.entries = entries;
    }
}

} // verus!
