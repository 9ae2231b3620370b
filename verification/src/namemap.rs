//! A map from names to values that keeps its entries in insertion order.

use vstd::prelude::*;
use crate::text::text_eq;

verus! {

/// The position of the first entry of `keys` equal to `k`, or -1.
pub open spec fn first_index(keys: Seq<Seq<char>>, k: Seq<char>) -> int
    decreases keys.len(),
{
    if keys.len() == 0 {
        -1
    } else if keys.last() == k {
        let i = first_index(keys.drop_last(), k);
        if i >= 0 { i } else { keys.len() - 1 }
    } else {
        first_index(keys.drop_last(), k)
    }
}

pub proof fn lemma_first_index(keys: Seq<Seq<char>>, k: Seq<char>)
    ensures
        -1 <= first_index(keys, k) < keys.len(),
        first_index(keys, k) >= 0 ==> keys[first_index(keys, k)] == k,
        first_index(keys, k) >= 0 ==> forall|j: int| 0 <= j < first_index(keys, k) ==> keys[j] != k,
        first_index(keys, k) == -1 <==> !keys.contains(k),
    decreases keys.len(),
{
    if keys.len() > 0 {
        let d = keys.drop_last();
        lemma_first_index(d, k);
        let i = first_index(d, k);
        assert forall|j: int| 0 <= j < d.len() implies d[j] == keys[j] by {}
        if i >= 0 {
            assert(keys.contains(k)) by {
                assert(keys[i] == k);
            }
        } else {
            assert(!d.contains(k));
            assert forall|j: int| 0 <= j < keys.len() - 1 implies keys[j] != k by {
                assert(d[j] == keys[j]);
            }
            if keys.last() == k {
                assert(keys.contains(k)) by {
                    assert(keys[keys.len() - 1] == k);
                }
            } else {
                assert forall|j: int| 0 <= j < keys.len() implies keys[j] != k by {}
            }
        }
    }
}

#[derive(Debug)]
pub struct NameMap<V> {
    entries: Vec<(String, V)>,
}

impl<V> NameMap<V> {
    /// The names, in insertion order.
    pub closed spec fn keys(&self) -> Seq<Seq<char>> {
        self.entries@.map_values(|e: (String, V)| e.0@)
    }

    /// The values, in the order of their names.
    pub closed spec fn vals(&self) -> Seq<V> {
        self.entries@.map_values(|e: (String, V)| e.1)
    }

    /// Every name occurs once.
    pub open spec fn wf(&self) -> bool {
        &&& self.keys().len() == self.vals().len()
        &&& forall|a: int, b: int| 0 <= a < b < self.keys().len() ==> self.keys()[a] != self.keys()[b]
    }

    pub open spec fn has(&self, k: Seq<char>) -> bool {
        self.keys().contains(k)
    }

    /// The value stored under `k`, if any.
    pub open spec fn lookup(&self, k: Seq<char>) -> Option<V> {
        let i = first_index(self.keys(), k);
        if 0 <= i < self.vals().len() {
            Some(self.vals()[i])
        } else {
            None
        }
    }

    pub proof fn lemma_keys_vals_len(&self)
        ensures
            self.keys().len() == self.vals().len(),
    {
    }

    pub fn new() -> (res: Self)
        ensures
            res.wf(),
            res.keys() == Seq::<Seq<char>>::empty(),
            res.vals() == Seq::<V>::empty(),
    {
        let res = NameMap { entries: Vec::new() };
        assert(res.keys() =~= Seq::<Seq<char>>::empty());
        assert(res.vals() =~= Seq::<V>::empty());
        res
    }

    pub fn len(&self) -> (n: usize)
        ensures
            n == self.keys().len(),
            n == self.vals().len(),
    {
        self.entries.len()
    }

    pub fn is_empty(&self) -> (b: bool)
        ensures
            b == (self.keys().len() == 0),
    {
        self.entries.len() == 0
    }

    pub fn key_at(&self, i: usize) -> (k: &String)
        requires
            i < self.keys().len(),
        ensures
            k@ == self.keys()[i as int],
    {
        &self.entries[i].0
    }

    pub fn value_at(&self, i: usize) -> (v: &V)
        requires
            i < self.vals().len(),
        ensures
            *v == self.vals()[i as int],
    {
        &self.entries[i].1
    }

    /// Position of the entry named `key`.
    pub fn find(&self, key: &str) -> (res: Option<usize>)
        ensures
            match res {
                Some(i) => i as int == first_index(self.keys(), key@),
                None => first_index(self.keys(), key@) == -1,
            },
    {
        proof {
            lemma_first_index(self.keys(), key@);
        }
        let mut i: usize = 0;
        while i < self.entries.len()
            invariant
                i <= self.entries@.len(),
                -1 <= first_index(self.keys(), key@) < self.keys().len(),
                first_index(self.keys(), key@) >= 0 ==> first_index(self.keys(), key@) >= i,
                forall|j: int| 0 <= j < i ==> self.keys()[j] != key@,
                first_index(self.keys(), key@) >= 0 ==> self.keys()[first_index(self.keys(), key@)] == key@,
                first_index(self.keys(), key@) >= 0 ==> forall|j: int| 0 <= j < first_index(self.keys(), key@) ==> self.keys()[j] != key@,
                first_index(self.keys(), key@) == -1 <==> !self.keys().contains(key@),
                self.keys().len() == self.entries@.len(),
            decreases self.entries@.len() - i,
        {
            if text_eq(self.entries[i].0.as_str(), key) {
                assert(self.keys()[i as int] == key@);
                assert(self.keys().contains(key@));
                return Some(i);
            }
            i = i + 1;
        }
        proof {
            if first_index(self.keys(), key@) >= 0 {
                assert(self.keys()[first_index(self.keys(), key@)] == key@);
            }
        }
        None
    }

    pub fn contains_key(&self, key: &str) -> (b: bool)
        ensures
            b == self.has(key@),
    {
        proof {
            lemma_first_index(self.keys(), key@);
        }
        self.find(key).is_some()
    }

    pub fn get(&self, key: &str) -> (res: Option<&V>)
        ensures
            match res {
                Some(v) => self.lookup(key@) == Some(*v),
                None => self.lookup(key@) is None,
            },
            res is Some <==> self.has(key@),
    {
        proof {
            lemma_first_index(self.keys(), key@);
        }
        match self.find(key) {
            Some(i) => {
                assert(self.has(key@));
                Some(&self.entries[i].1)
            },
            None => None,
        }
    }

    pub fn get_mut(&mut self, key: &str) -> (res: Option<&mut V>)
        ensures
            old(self).has(key@) == (res is Some),
            final(self).keys() == old(self).keys(),
            match res {
                Some(v) => {
                    &&& old(self).lookup(key@) == Some(*v)
                    &&& final(self).vals() == old(self).vals().update(
                        first_index(old(self).keys(), key@),
                        *final(v),
                    )
                },
                None => final(self).vals() == old(self).vals(),
            },
    {
        proof {
            lemma_first_index(self.keys(), key@);
        }
        match self.find(key) {
            Some(i) => {
                let entry = &mut self.entries[i];
                Some(&mut entry.1)
            },
            None => None,
        }
    }

    /// Stores `value` under `key`, replacing the value already stored there.
    pub fn insert(&mut self, key: String, value: V)
        requires
            old(self).wf(),
        ensures
            final(self).wf(),
            old(self).has(key@) ==> final(self).keys() == old(self).keys() && final(self).vals()
                == old(self).vals().update(first_index(old(self).keys(), key@), value),
            !old(self).has(key@) ==> final(self).keys() == old(self).keys().push(key@)
                && final(self).vals() == old(self).vals().push(value),
    {
        proof {
            lemma_first_index(self.keys(), key@);
        }
        match self.find(key.as_str()) {
            Some(i) => {
                let ghost k = key@;
                let ghost old_entries = self.entries@;
                self.entries.set(i, (key, value));
                assert(self.keys() =~= old(self).keys());
                assert(self.vals() =~= old(self).vals().update(i as int, value));
            },
            None => {
                let ghost k = key@;
                self.entries.push((key, value));
                assert(self.keys() =~= old(self).keys().push(k));
                assert(self.vals() =~= old(self).vals().push(value));
                assert forall|a: int, b: int| 0 <= a < b < self.keys().len() implies self.keys()[a]
                    != self.keys()[b] by {
                    if b == self.keys().len() - 1 {
                        assert(old(self).keys().contains(self.keys()[a]) || a >= old(self).keys().len());
                    }
                }
            },
        }
    }

    /// The names, in insertion order.
    pub fn key_list(&self) -> (res: Vec<String>)
        ensures
            res@.map_values(|s: String| s@) == self.keys(),
    {
        let mut res: Vec<String> = Vec::new();
        let mut i: usize = 0;
        while i < self.entries.len()
            invariant
                i <= self.entries@.len(),
                res@.len() == i,
                res@.map_values(|s: String| s@) == self.keys().subrange(0, i as int),
            decreases self.entries@.len() - i,
        {
            let ghost prev = res@;
            res.push(self.entries[i].0.clone());
            assert(res@[i as int]@ == self.keys()[i as int]);
            i = i + 1;
            assert(res@.map_values(|s: String| s@) =~= self.keys().subrange(0, i as int));
        }
        assert(self.keys().subrange(0, i as int) =~= self.keys());
        res
    }
}


/// The keys of a sequence of named entries.
pub open spec fn entry_keys<T>(m: Seq<(Seq<char>, T)>) -> Seq<Seq<char>> {
    m.map_values(|e: (Seq<char>, T)| e.0)
}

/// The value of the first entry named `k`, if any.
pub open spec fn entry_lookup<T>(m: Seq<(Seq<char>, T)>, k: Seq<char>) -> Option<T> {
    let i = first_index(entry_keys(m), k);
    if 0 <= i < m.len() {
        Some(m[i].1)
    } else {
        None
    }
}

impl<V: View> View for NameMap<V> {
    type V = Seq<(Seq<char>, V::V)>;

    closed spec fn view(&self) -> Seq<(Seq<char>, V::V)> {
        self.entries@.map_values(|e: (String, V)| (e.0@, e.1@))
    }
}

impl<V: View> NameMap<V> {
    pub proof fn lemma_view(&self)
        ensures
            self@.len() == self.keys().len(),
            self@.len() == self.vals().len(),
            entry_keys(self@) == self.keys(),
            forall|i: int| 0 <= i < self@.len() ==> (#[trigger] self@[i]) == (self.keys()[i], self.vals()[i]@),
    {
        assert(entry_keys(self@) =~= self.keys());
    }

    pub proof fn lemma_lookup_view(&self, k: Seq<char>)
        ensures
            entry_lookup(self@, k) == opt_view(self.lookup(k)),
    {
        self.lemma_view();
        lemma_first_index(self.keys(), k);
    }
}

impl<V: View + Clone> NameMap<V> {
    /// A copy of the map.
    pub fn duplicate(&self) -> (res: Self)
        requires
            forall|a: V, b: V| cloned::<V>(a, b) ==> b@ == a@,
        ensures
            res@ == self@,
            res.keys() == self.keys(),
            res.wf() == self.wf(),
            forall|i: int| 0 <= i < self.vals().len() ==> (#[trigger] res.vals()[i])@ == self.vals()[i]@,
    {
        let mut entries: Vec<(String, V)> = Vec::new();
        let mut i: usize = 0;
        while i < self.entries.len()
            invariant
                forall|a: V, b: V| cloned::<V>(a, b) ==> b@ == a@,
                i <= self.entries@.len(),
                entries@.len() == i,
                forall|j: int| 0 <= j < i ==> (#[trigger] entries@[j]).0@ == self.entries@[j].0@
                    && entries@[j].1@ == self.entries@[j].1@,
            decreases self.entries@.len() - i,
        {
            let k = self.entries[i].0.clone();
            let v = self.entries[i].1.clone();
            assert(cloned::<V>(self.entries@[i as int].1, v));
            entries.push((k, v));
            i = i + 1;
        }
        let res = NameMap { entries };
        assert(res@ =~= self@);
        assert(res.keys() =~= self.keys());
        res
    }
}

/// The view of an optional value.
pub open spec fn opt_view<T: View>(o: Option<T>) -> Option<T::V> {
    match o {
        Some(x) => Some(x@),
        None => None,
    }
}


/// The entries after storing `v` under `k` (replacing the first entry named
/// `k`, or appending a new one).
pub open spec fn entry_insert<T>(m: Seq<(Seq<char>, T)>, k: Seq<char>, v: T) -> Seq<(Seq<char>, T)> {
    let i = first_index(entry_keys(m), k);
    if 0 <= i < m.len() {
        m.update(i, (k, v))
    } else {
        m.push((k, v))
    }
}

/// The entries after removing the first entry named `k`, if any.
pub open spec fn entry_remove<T>(m: Seq<(Seq<char>, T)>, k: Seq<char>) -> Seq<(Seq<char>, T)> {
    let i = first_index(entry_keys(m), k);
    if 0 <= i < m.len() {
        m.remove(i)
    } else {
        m
    }
}

pub proof fn lemma_entry_insert_lookup<T>(m: Seq<(Seq<char>, T)>, k: Seq<char>, v: T, n: Seq<char>)
    ensures
        entry_lookup(entry_insert(m, k, v), n) == if n == k { Some(v) } else { entry_lookup(m, n) },
        entry_keys(entry_insert(m, k, v)).contains(n) == (n == k || entry_keys(m).contains(n)),
{
    let keys = entry_keys(m);
    lemma_first_index(keys, k);
    lemma_first_index(keys, n);
    let m2 = entry_insert(m, k, v);
    let keys2 = entry_keys(m2);
    let i = first_index(keys, k);
    if 0 <= i < m.len() {
        assert(keys2 =~= keys.update(i, k));
        assert(keys2 =~= keys);
    } else {
        assert(keys2 =~= keys.push(k));
        lemma_first_index_push(keys, k, n);
    }
    lemma_first_index(keys2, n);
    if keys2.contains(n) && !(n == k) {
        let j = choose|j: int| 0 <= j < keys2.len() && keys2[j] == n;
        if j < keys.len() {
            assert(keys[j] == n);
        }
    }
    if n == k {
        assert(keys2.contains(k)) by {
            if 0 <= i < m.len() {
                assert(keys2[i] == k);
            } else {
                assert(keys2[keys.len() as int] == k);
            }
        }
    }
}

pub proof fn lemma_first_index_push(keys: Seq<Seq<char>>, k: Seq<char>, n: Seq<char>)
    requires
        !keys.contains(k),
    ensures
        first_index(keys.push(k), n) == if n == k { keys.len() as int } else { first_index(keys, n) },
{
    let keys2 = keys.push(k);
    assert(keys2.drop_last() =~= keys);
    if n == k {
        lemma_first_index(keys, k);
    }
}

impl<V: View> NameMap<V> {
    pub proof fn lemma_insert_view(old_map: Self, new_map: Self, k: Seq<char>, v: V)
        requires
            old_map.has(k) ==> new_map.keys() == old_map.keys() && new_map.vals()
                == old_map.vals().update(first_index(old_map.keys(), k), v),
            !old_map.has(k) ==> new_map.keys() == old_map.keys().push(k) && new_map.vals()
                == old_map.vals().push(v),
        ensures
            new_map@ == entry_insert(old_map@, k, v@),
    {
        old_map.lemma_view();
        new_map.lemma_view();
        lemma_first_index(old_map.keys(), k);
        let i = first_index(old_map.keys(), k);
        if old_map.has(k) {
            assert(new_map@ =~= old_map@.update(i, (k, v@)));
        } else {
            assert(new_map@ =~= old_map@.push((k, v@)));
        }
    }
}

impl<V> NameMap<V> {
    /// Removes the entry named `key`, if any.
    pub fn remove(&mut self, key: &str)
        requires
            old(self).wf(),
        ensures
            final(self).wf(),
            ({
                let i = first_index(old(self).keys(), key@);
                &&& 0 <= i ==> final(self).keys() == old(self).keys().remove(i)
                    && final(self).vals() == old(self).vals().remove(i)
                &&& i < 0 ==> final(self).keys() == old(self).keys() && final(self).vals() == old(self).vals()
            }),
    {
        proof {
            lemma_first_index(self.keys(), key@);
        }
        match self.find(key) {
            Some(i) => {
                self.entries.remove(i);
                assert(self.keys() =~= old(self).keys().remove(i as int));
                assert(self.vals() =~= old(self).vals().remove(i as int));
                assert forall|a: int, b: int| 0 <= a < b < self.keys().len() implies self.keys()[a]
                    != self.keys()[b] by {
                    let a2 = if a < i { a } else { a + 1 };
                    let b2 = if b < i { b } else { b + 1 };
                    assert(self.keys()[a] == old(self).keys()[a2]);
                    assert(self.keys()[b] == old(self).keys()[b2]);
                }
            },
            None => {},
        }
    }
}

impl<V: View> NameMap<V> {
    pub proof fn lemma_remove_view(old_map: Self, new_map: Self, k: Seq<char>)
        requires
            ({
                let i = first_index(old_map.keys(), k);
                &&& 0 <= i ==> new_map.keys() == old_map.keys().remove(i) && new_map.vals()
                    == old_map.vals().remove(i)
                &&& i < 0 ==> new_map.keys() == old_map.keys() && new_map.vals() == old_map.vals()
            }),
        ensures
            new_map@ == entry_remove(old_map@, k),
    {
        old_map.lemma_view();
        new_map.lemma_view();
        lemma_first_index(old_map.keys(), k);
        let i = first_index(old_map.keys(), k);
        if 0 <= i {
            assert(new_map@ =~= old_map@.remove(i));
        } else {
            assert(new_map@ =~= old_map@);
        }
    }
}

/// The names and views of a list of named entries.
pub open spec fn pairs_view<V: View>(v: Seq<(String, V)>) -> Seq<(Seq<char>, V::V)> {
    v.map_values(|e: (String, V)| (e.0@, e.1@))
}

impl<V: View + Clone> NameMap<V> {
    /// A copy of the entries, in order.
    pub fn entries(&self) -> (res: Vec<(String, V)>)
        requires
            forall|a: V, b: V| cloned::<V>(a, b) ==> b@ == a@,
        ensures
            pairs_view(res@) == self@,
    {
        let mut out: Vec<(String, V)> = Vec::new();
        let mut i: usize = 0;
        while i < self.entries.len()
            invariant
                forall|a: V, b: V| cloned::<V>(a, b) ==> b@ == a@,
                i <= self.entries@.len(),
                out@.len() == i,
                forall|j: int| 0 <= j < i ==> (#[trigger] out@[j]).0@ == self.entries@[j].0@
                    && out@[j].1@ == self.entries@[j].1@,
            decreases self.entries@.len() - i,
        {
            let k = self.entries[i].0.clone();
            let v = self.entries[i].1.clone();
            assert(cloned::<V>(self.entries@[i as int].1, v));
            out.push((k, v));
            i = i + 1;
        }
        assert(pairs_view(out@) =~= self@);
        out
    }
}

} // verus!
