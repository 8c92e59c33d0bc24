//! A map keyed by names, held as a vector of entries with pairwise distinct keys.
use vstd::prelude::*;

verus! {

/// The entries carry pairwise different keys.
pub open spec fn distinct_keys<V>(e: Seq<(String, V)>) -> bool {
    forall|i: int, j: int|
        0 <= i < e.len() && 0 <= j < e.len() && i != j ==> #[trigger] e[i].0@ != #[trigger] e[j].0@
}

/// Some entry carries the key `k`.
pub open spec fn has_key<V>(e: Seq<(String, V)>, k: Seq<char>) -> bool {
    exists|i: int| 0 <= i < e.len() && #[trigger] e[i].0@ == k
}

/// The position of the entry that carries `k`.
pub open spec fn key_index<V>(e: Seq<(String, V)>, k: Seq<char>) -> int {
    choose|i: int| 0 <= i < e.len() && #[trigger] e[i].0@ == k
}

/// The map that a sequence of entries stands for.
pub open spec fn entries_view<V>(e: Seq<(String, V)>) -> Map<Seq<char>, V> {
    Map::new(|k: Seq<char>| has_key(e, k), |k: Seq<char>| e[key_index(e, k)].1)
}

/// Every entry is found in the map under its key, with its value.
pub proof fn lemma_entry_in_view<V>(e: Seq<(String, V)>, i: int)
    requires
        distinct_keys(e),
        0 <= i < e.len(),
    ensures
        entries_view(e).contains_key(e[i].0@),
        entries_view(e)[e[i].0@] == e[i].1,
{
    let k = e[i].0@;
    assert(has_key(e, k));
    let j = key_index(e, k);
    assert(0 <= j < e.len() && e[j].0@ == k);
    if j != i {
        assert(e[i].0@ != e[j].0@);
    }
}

/// Replacing the entry at `i` by one with the same key updates that key.
proof fn lemma_view_update<V>(e: Seq<(String, V)>, i: int, k: String, v: V)
    requires
        distinct_keys(e),
        0 <= i < e.len(),
        e[i].0@ == k@,
    ensures
        distinct_keys(e.update(i, (k, v))),
        entries_view(e.update(i, (k, v))) == entries_view(e).insert(k@, v),
{
    let e2 = e.update(i, (k, v));
    assert(distinct_keys(e2)) by {
        assert forall|a: int, b: int| 0 <= a < e2.len() && 0 <= b < e2.len() && a != b implies
            #[trigger] e2[a].0@ != #[trigger] e2[b].0@ by {
            assert(e[a].0@ != e[b].0@);
        }
    }
    let m = entries_view(e).insert(k@, v);
    assert forall|key: Seq<char>| #[trigger] entries_view(e2).contains_key(key) <==> m.contains_key(key) by {
        if has_key(e2, key) {
            let j = choose|j: int| 0 <= j < e2.len() && #[trigger] e2[j].0@ == key;
            if j != i {
                lemma_entry_in_view(e, j);
            }
        }
        if has_key(e, key) {
            let j = choose|j: int| 0 <= j < e.len() && #[trigger] e[j].0@ == key;
            assert(e2[j].0@ == key);
        }
    }
    assert forall|key: Seq<char>| #[trigger] entries_view(e2).contains_key(key) implies
        entries_view(e2)[key] == m[key] by {
        let j = choose|j: int| 0 <= j < e2.len() && #[trigger] e2[j].0@ == key;
        lemma_entry_in_view(e2, j);
        if j != i {
            lemma_entry_in_view(e, j);
        }
    }
    assert(entries_view(e2) =~= m);
}

/// Appending an entry with a fresh key inserts that key.
proof fn lemma_view_push<V>(e: Seq<(String, V)>, k: String, v: V)
    requires
        distinct_keys(e),
        !has_key(e, k@),
    ensures
        distinct_keys(e.push((k, v))),
        entries_view(e.push((k, v))) == entries_view(e).insert(k@, v),
{
    let e2 = e.push((k, v));
    let n = e.len() as int;
    assert(distinct_keys(e2)) by {
        assert forall|a: int, b: int| 0 <= a < e2.len() && 0 <= b < e2.len() && a != b implies
            #[trigger] e2[a].0@ != #[trigger] e2[b].0@ by {
            if a == n {
                assert(e2[b] == e[b]);
            } else if b == n {
                assert(e2[a] == e[a]);
            } else {
                assert(e[a].0@ != e[b].0@);
            }
        }
    }
    let m = entries_view(e).insert(k@, v);
    assert forall|key: Seq<char>| #[trigger] entries_view(e2).contains_key(key) <==> m.contains_key(key) by {
        if has_key(e2, key) {
            let j = choose|j: int| 0 <= j < e2.len() && #[trigger] e2[j].0@ == key;
            if j != n {
                assert(e2[j] == e[j]);
                lemma_entry_in_view(e, j);
            }
        }
        if has_key(e, key) {
            let j = choose|j: int| 0 <= j < e.len() && #[trigger] e[j].0@ == key;
            assert(e2[j] == e[j]);
        }
        if key == k@ {
            assert(e2[n].0@ == key);
        }
    }
    assert forall|key: Seq<char>| #[trigger] entries_view(e2).contains_key(key) implies
        entries_view(e2)[key] == m[key] by {
        let j = choose|j: int| 0 <= j < e2.len() && #[trigger] e2[j].0@ == key;
        lemma_entry_in_view(e2, j);
        if j != n {
            assert(e2[j] == e[j]);
            lemma_entry_in_view(e, j);
        }
    }
    assert(entries_view(e2) =~= m);
}

/// Removing the entry at `i` removes its key.
proof fn lemma_view_remove<V>(e: Seq<(String, V)>, i: int)
    requires
        distinct_keys(e),
        0 <= i < e.len(),
    ensures
        distinct_keys(e.remove(i)),
        entries_view(e.remove(i)) == entries_view(e).remove(e[i].0@),
{
    let e2 = e.remove(i);
    let k = e[i].0@;
    assert forall|a: int| 0 <= a < e2.len() implies #[trigger] e2[a] == (if a < i {
        e[a]
    } else {
        e[a + 1]
    }) by {}
    assert(distinct_keys(e2)) by {
        assert forall|a: int, b: int| 0 <= a < e2.len() && 0 <= b < e2.len() && a != b implies
            #[trigger] e2[a].0@ != #[trigger] e2[b].0@ by {
            let a1 = if a < i { a } else { a + 1 };
            let b1 = if b < i { b } else { b + 1 };
            assert(e[a1].0@ != e[b1].0@);
        }
    }
    let m = entries_view(e).remove(k);
    assert forall|key: Seq<char>| #[trigger] entries_view(e2).contains_key(key) <==> m.contains_key(key) by {
        if has_key(e2, key) {
            let j = choose|j: int| 0 <= j < e2.len() && #[trigger] e2[j].0@ == key;
            let j1 = if j < i { j } else { j + 1 };
            lemma_entry_in_view(e, j1);
            assert(e[j1].0@ != e[i].0@);
        }
        if has_key(e, key) && key != k {
            let j = choose|j: int| 0 <= j < e.len() && #[trigger] e[j].0@ == key;
            if j < i {
                assert(e2[j] == e[j]);
            } else {
                assert(j != i);
                assert(e2[j - 1] == e[j]);
            }
        }
    }
    assert forall|key: Seq<char>| #[trigger] entries_view(e2).contains_key(key) implies
        entries_view(e2)[key] == m[key] by {
        let j = choose|j: int| 0 <= j < e2.len() && #[trigger] e2[j].0@ == key;
        lemma_entry_in_view(e2, j);
        let j1 = if j < i { j } else { j + 1 };
        lemma_entry_in_view(e, j1);
    }
    assert(entries_view(e2) =~= m);
}

/// A map from names to values, kept as a vector of entries whose keys differ.
pub struct StringMap<V> {
    entries: Vec<(String, V)>,
}

impl<V> View for StringMap<V> {
    type V = Map<Seq<char>, V>;

    open spec fn view(&self) -> Map<Seq<char>, V> {
        entries_view(self.entries())
    }
}

impl<V> StringMap<V> {
    /// The entries, in the order in which they are kept.
    pub closed spec fn entries(&self) -> Seq<(String, V)> {
        self.entries@
    }

    /// Well-formedness: no key occurs twice.
    pub open spec fn wf(&self) -> bool {
        distinct_keys(self.entries())
    }

    /// The map that a well-formed value stands for holds exactly its entries.
    pub proof fn lemma_view(&self)
        requires
            self.wf(),
        ensures
            forall|k: Seq<char>| #[trigger]
                self@.contains_key(k) <==> has_key(self.entries(), k),
            forall|i: int|
                0 <= i < self.entries().len() ==> #[trigger] self@[self.entries()[i].0@]
                    == self.entries()[i].1,
    {
        assert forall|i: int| 0 <= i < self.entries().len() implies #[trigger] self@[
            self.entries()[i].0@] == self.entries()[i].1 by {
            lemma_entry_in_view(self.entries(), i);
        }
    }

    pub fn new() -> (r: Self)
        ensures
            r.wf(),
            r@ == Map::<Seq<char>, V>::empty(),
            r.entries().len() == 0,
    {
        let r = StringMap { entries: Vec::new() };
        assert(r@ =~= Map::<Seq<char>, V>::empty());
        r
    }

    pub fn len(&self) -> (r: usize)
        ensures
            r == self.entries().len(),
    {
        self.entries.len()
    }

    pub fn key_at(&self, i: usize) -> (r: &String)
        requires
            i < self.entries().len(),
        ensures
            *r == self.entries()[i as int].0,
    {
        &self.entries[i].0
    }

    pub fn value_at(&self, i: usize) -> (r: &V)
        requires
            i < self.entries().len(),
        ensures
            *r == self.entries()[i as int].1,
    {
        &self.entries[i].1
    }

    /// The position of the entry with key `key`, if there is one.
    pub fn find(&self, key: &str) -> (r: Option<usize>)
        ensures
            r matches Some(i) ==> i < self.entries().len() && self.entries()[i as int].0@ == key@,
            r is None ==> !has_key(self.entries(), key@),
    {
        let k = String::from_str(key);
        let n = self.entries.len();
        for i in 0..n
            invariant
                n == self.entries().len(),
                k@ == key@,
                forall|j: int| 0 <= j < i ==> #[trigger] self.entries()[j].0@ != key@,
        {
            if self.entries[i].0 == k {
                return Some(i);
            }
        }
        None
    }

    pub fn contains_key(&self, key: &str) -> (r: bool)
        requires
            self.wf(),
        ensures
            r == self@.contains_key(key@),
    {
        proof {
            self.lemma_view();
        }
        match self.find(key) {
            Some(_) => true,
            None => false,
        }
    }

    pub fn get(&self, key: &str) -> (r: Option<&V>)
        requires
            self.wf(),
        ensures
            r matches Some(v) ==> self@.contains_key(key@) && *v == self@[key@],
            r is None ==> !self@.contains_key(key@),
    {
        proof {
            self.lemma_view();
        }
        match self.find(key) {
            Some(i) => Some(&self.entries[i].1),
            None => None,
        }
    }

    /// Inserts `value` under `key`, replacing what was there.
    pub fn insert(&mut self, key: String, value: V)
        requires
            old(self).wf(),
        ensures
            final(self).wf(),
            final(self)@ == old(self)@.insert(key@, value),
    {
        match self.find(key.as_str()) {
            Some(i) => {
                proof {
                    lemma_view_update(self.entries@, i as int, key, value);
                }
                self.entries.set(i, (key, value));
            },
            None => {
                proof {
                    lemma_view_push(self.entries@, key, value);
                }
                self.entries.push((key, value));
            },
        }
    }

    /// Removes `key` and hands back its value, if it was there.
    pub fn take(&mut self, key: &str) -> (r: Option<V>)
        requires
            old(self).wf(),
        ensures
            final(self).wf(),
            final(self)@ == old(self)@.remove(key@),
            r == (if old(self)@.contains_key(key@) {
                Some(old(self)@[key@])
            } else {
                None
            }),
    {
        proof {
            self.lemma_view();
        }
        match self.find(key) {
            Some(i) => {
                proof {
                    lemma_view_remove(self.entries@, i as int);
                }
                let (_, v) = self.entries.remove(i);
                Some(v)
            },
            None => {
                assert(self@.remove(key@) =~= self@);
                None
            },
        }
    }

    /// Removes some entry and hands it back; `None` when the map is empty.
    pub fn pop(&mut self) -> (r: Option<(String, V)>)
        requires
            old(self).wf(),
        ensures
            final(self).wf(),
            old(self).entries().len() == 0 ==> r is None && final(self)@ == old(self)@,
            old(self).entries().len() > 0 ==> (r matches Some(kv) && old(self)@.contains_key(kv.0@)
                && old(self)@[kv.0@] == kv.1 && final(self)@ == old(self)@.remove(kv.0@)),
            final(self).entries().len() == if old(self).entries().len() == 0 {
                0
            } else {
                old(self).entries().len() - 1
            },
    {
        let n = self.entries.len();
        if n == 0 {
            None
        } else {
            proof {
                lemma_view_remove(self.entries@, n - 1);
                lemma_entry_in_view(self.entries@, n - 1);
            }
            let kv = self.entries.remove(n - 1);
            Some(kv)
        }
    }
}

} // verus!
