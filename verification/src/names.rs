//! Sets and maps of names. Both keep the order in which names first came in, so that
//! whatever is made by walking them is the same on every run.
use vstd::prelude::*;

use crate::text::{same, views};

verus! {

/// A set of names, in the order in which they came in.
#[derive(Debug)]
pub struct NameSet {
    items: Vec<String>,
}

impl View for NameSet {
    type V = Seq<Seq<char>>;

    closed spec fn view(&self) -> Seq<Seq<char>> {
        views(self.items@)
    }
}

/// `names` with `name` in it: behind the others, if it is new.
pub open spec fn with_name(names: Seq<Seq<char>>, name: Seq<char>) -> Seq<Seq<char>> {
    if names.contains(name) {
        names
    } else {
        names.push(name)
    }
}

impl NameSet {
    /// No name stands in the set twice.
    pub open spec fn wf(&self) -> bool {
        self@.no_duplicates()
    }

    /// The empty set.
    pub fn new() -> (r: NameSet)
        ensures
            r@ == Seq::<Seq<char>>::empty(),
            r.wf(),
    {
        NameSet { items: Vec::new() }
    }

    /// The number of names.
    pub fn len(&self) -> (r: usize)
        ensures
            r == self@.len(),
    {
        self.items.len()
    }

    /// The name at position `i`.
    pub fn get(&self, i: usize) -> (r: &String)
        requires
            i < self@.len(),
        ensures
            r@ == self@[i as int],
    {
        &self.items[i]
    }

    /// Whether `name` is in the set.
    pub fn contains(&self, name: &str) -> (r: bool)
        ensures
            r == self@.contains(name@),
    {
        let mut i: usize = 0;
        while i < self.items.len()
            invariant
                i <= self.items@.len(),
                forall|k: int| 0 <= k < i ==> self@[k] != name@,
            decreases self.items@.len() - i,
        {
            if same(self.items[i].as_str(), name) {
                assert(self@[i as int] == name@);
                return true;
            }
            i = i + 1;
        }
        false
    }

    /// Puts `name` into the set.
    pub fn insert(&mut self, name: String)
        ensures
            final(self)@ == with_name(old(self)@, name@),
            old(self).wf() ==> final(self).wf(),
    {
        if !self.contains(name.as_str()) {
            self.items.push(name);
            assert(self@ == old(self)@.push(name@));
        }
    }
}

/// A map from names, in the order in which they came in.
#[derive(Debug)]
pub struct NameMap<V> {
    entries: Vec<(String, V)>,
}

/// The names of `entries`.
pub open spec fn keys<V>(entries: Seq<(String, V)>) -> Seq<Seq<char>> {
    entries.map_values(|e: (String, V)| e.0@)
}

/// The position of the first `k` in `keys`.
pub open spec fn place(keys: Seq<Seq<char>>, k: Seq<char>) -> int {
    choose|i: int|
        0 <= i < keys.len() && #[trigger] keys[i] == k && forall|j: int|
            0 <= j < i ==> keys[j] != k
}

proof fn lemma_place(keys: Seq<Seq<char>>, k: Seq<char>, i: int)
    requires
        0 <= i < keys.len(),
        keys[i] == k,
        forall|j: int| 0 <= j < i ==> keys[j] != k,
    ensures
        place(keys, k) == i,
{
    let p = place(keys, k);
    if p < i {
        assert(keys[p] != k);
    }
}

proof fn lemma_place_exists(keys: Seq<Seq<char>>, k: Seq<char>)
    requires
        keys.contains(k),
    ensures
        0 <= place(keys, k) < keys.len(),
        keys[place(keys, k)] == k,
        forall|j: int| 0 <= j < place(keys, k) ==> keys[j] != k,
    decreases keys.len(),
{
    let last = keys.drop_last();
    if last.contains(k) {
        lemma_place_exists(last, k);
        let p = place(last, k);
        assert forall|j: int| 0 <= j < p implies keys[j] != k by {
            assert(last[j] != k);
        }
        assert(keys[p] == k);
        lemma_place(keys, k, p);
    } else {
        assert forall|j: int| 0 <= j < keys.len() - 1 implies keys[j] != k by {
            assert(last[j] == keys[j]);
        }
        lemma_place(keys, k, keys.len() - 1);
    }
}

impl<V> View for NameMap<V> {
    type V = Map<Seq<char>, V>;

    closed spec fn view(&self) -> Map<Seq<char>, V> {
        Map::new(
            |k: Seq<char>| keys(self.entries@).contains(k),
            |k: Seq<char>| self.entries@[place(keys(self.entries@), k)].1,
        )
    }
}

impl<V> NameMap<V> {
    /// The names of the map, in the order in which they came in.
    pub closed spec fn names(&self) -> Seq<Seq<char>> {
        keys(self.entries@)
    }

    /// No name stands in the map twice.
    pub open spec fn wf(&self) -> bool {
        self.names().no_duplicates()
    }

    /// The names are those that the map is defined on.
    pub proof fn lemma_names(&self)
        ensures
            forall|k: Seq<char>| self@.dom().contains(k) <==> self.names().contains(k),
    {
    }

    /// The empty map.
    pub fn new() -> (r: NameMap<V>)
        ensures
            r.wf(),
            r@ == Map::<Seq<char>, V>::empty(),
            r.names() == Seq::<Seq<char>>::empty(),
    {
        let r = NameMap { entries: Vec::new() };
        assert(r@ =~= Map::<Seq<char>, V>::empty());
        r
    }

    /// The number of names.
    pub fn len(&self) -> (r: usize)
        ensures
            r == self.names().len(),
    {
        self.entries.len()
    }

    /// The position of `name`, if the map has it.
    fn find(&self, name: &str) -> (r: Option<usize>)
        ensures
            match r {
                Some(i) => {
                    &&& i < self.entries@.len()
                    &&& self.names()[i as int] == name@
                    &&& self.names().contains(name@)
                    &&& i == place(self.names(), name@)
                },
                None => !self.names().contains(name@),
            },
    {
        let ghost ks = self.names();
        let mut i: usize = 0;
        while i < self.entries.len()
            invariant
                ks == self.names(),
                i <= self.entries@.len(),
                forall|k: int| 0 <= k < i ==> ks[k] != name@,
            decreases self.entries@.len() - i,
        {
            if same(self.entries[i].0.as_str(), name) {
                assert(ks[i as int] == name@);
                proof {
                    lemma_place(ks, name@, i as int);
                }
                return Some(i);
            }
            i = i + 1;
        }
        None
    }

    /// Whether the map has `name`.
    pub fn contains_key(&self, name: &str) -> (r: bool)
        ensures
            r == self@.dom().contains(name@),
    {
        match self.find(name) {
            Some(_) => true,
            None => false,
        }
    }

    /// The value of `name`, if the map has it.
    pub fn get(&self, name: &str) -> (r: Option<&V>)
        ensures
            match r {
                Some(v) => self@.dom().contains(name@) && *v == self@[name@],
                None => !self@.dom().contains(name@),
            },
    {
        match self.find(name) {
            Some(i) => Some(&self.entries[i].1),
            None => None,
        }
    }

    /// Gives `name` the value `value`, in place of the one that it may have.
    pub fn insert(&mut self, name: String, value: V)
        ensures
            final(self)@ == old(self)@.insert(name@, value),
            final(self).names() == with_name(old(self).names(), name@),
            old(self).wf() ==> final(self).wf(),
    {
        let ghost ks = self.names();
        match self.find(name.as_str()) {
            Some(i) => {
                self.entries[i] = (name, value);
                proof {
                    assert(self.names() == ks);
                    assert forall|k: Seq<char>| #[trigger] ks.contains(k) && k != name@ implies place(
                        ks,
                        k,
                    ) != i by {
                        lemma_place_exists(ks, k);
                    }
                    assert forall|k: Seq<char>| #[trigger] ks.contains(k) implies 0 <= place(ks, k)
                        < ks.len() by {
                        lemma_place_exists(ks, k);
                    }
                    assert(self@ =~= old(self)@.insert(name@, value));
                }
            },
            None => {
                self.entries.push((name, value));
                proof {
                    let now = self.names();
                    assert(now == ks.push(name@));
                    assert(now[ks.len() as int] == name@);
                    lemma_place(now, name@, ks.len() as int);
                    assert forall|k: Seq<char>| #[trigger] ks.contains(k) implies place(now, k)
                        == place(ks, k) && 0 <= place(ks, k) < ks.len() by {
                        lemma_place_exists(ks, k);
                        assert forall|j: int| 0 <= j < place(ks, k) implies now[j] != k by {
                            assert(ks[j] != k);
                        }
                        lemma_place(now, k, place(ks, k));
                    }
                    assert forall|k: Seq<char>| now.contains(k) <==> (ks.contains(k) || k == name@) by {
                        if ks.contains(k) {
                            let j = choose|j: int| 0 <= j < ks.len() && ks[j] == k;
                            assert(now[j] == k);
                        }
                    }
                    assert(self@ =~= old(self)@.insert(name@, value));
                }
            },
        }
    }
}

} // verus!
