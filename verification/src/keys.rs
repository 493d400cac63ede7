//! A map from string keys to values that remembers the order in which keys
//! first arrived; inserting a key that is present replaces its value in place.
use vstd::prelude::*;
use crate::text::chars_eq;

verus! {

/// Whether no key occurs twice.
pub open spec fn distinct_keys<V>(e: Seq<(Seq<char>, V)>) -> bool {
    forall|i: int, j: int| 0 <= i < j < e.len() ==> #[trigger] e[i].0 != #[trigger] e[j].0
}

/// The value stored under `k`, if any.
pub open spec fn lookup_in<V>(e: Seq<(Seq<char>, V)>, k: Seq<char>) -> Option<V> {
    if exists|i: int| 0 <= i < e.len() && #[trigger] e[i].0 == k {
        Some(e[choose|i: int| 0 <= i < e.len() && #[trigger] e[i].0 == k].1)
    } else {
        None
    }
}

/// The entries after inserting `(k, v)`: in place when `k` is present, at the
/// end otherwise.
pub open spec fn insert_entry<V>(e: Seq<(Seq<char>, V)>, k: Seq<char>, v: V) -> Seq<(Seq<char>, V)> {
    if exists|i: int| 0 <= i < e.len() && #[trigger] e[i].0 == k {
        e.update(choose|i: int| 0 <= i < e.len() && #[trigger] e[i].0 == k, (k, v))
    } else {
        e.push((k, v))
    }
}

/// With distinct keys, an entry found under `k` is what `lookup_in` gives.
pub proof fn lemma_lookup_at<V>(e: Seq<(Seq<char>, V)>, i: int)
    requires
        distinct_keys(e),
        0 <= i < e.len(),
    ensures
        lookup_in(e, e[i].0) == Some(e[i].1),
{
    let k = e[i].0;
    let c = choose|j: int| 0 <= j < e.len() && #[trigger] e[j].0 == k;
    if c != i {
        if c < i {
            assert(e[c].0 != e[i].0);
        } else {
            assert(e[i].0 != e[c].0);
        }
    }
}

/// Inserting keeps the keys distinct, stores `v` under `k`, and leaves the
/// other keys alone.
pub proof fn lemma_insert_entry<V>(e: Seq<(Seq<char>, V)>, k: Seq<char>, v: V)
    requires
        distinct_keys(e),
    ensures
        distinct_keys(insert_entry(e, k, v)),
        lookup_in(insert_entry(e, k, v), k) == Some(v),
        forall|k2: Seq<char>| k2 != k ==> lookup_in(insert_entry(e, k, v), k2) == lookup_in(e, k2),
{
    let r = insert_entry(e, k, v);
    if exists|i: int| 0 <= i < e.len() && #[trigger] e[i].0 == k {
        let c = choose|i: int| 0 <= i < e.len() && #[trigger] e[i].0 == k;
        assert forall|i: int, j: int| 0 <= i < j < r.len() implies #[trigger] r[i].0
            != #[trigger] r[j].0 by {
            assert(e[i].0 != e[j].0);
        }
        lemma_lookup_at(r, c);
        assert forall|k2: Seq<char>| k2 != k implies lookup_in(r, k2) == lookup_in(e, k2) by {
            if exists|i: int| 0 <= i < e.len() && #[trigger] e[i].0 == k2 {
                let d = choose|i: int| 0 <= i < e.len() && #[trigger] e[i].0 == k2;
                lemma_lookup_at(e, d);
                lemma_lookup_at(r, d);
            } else {
                assert forall|i: int| 0 <= i < r.len() implies #[trigger] r[i].0 != k2 by {
                    if i != c {
                        assert(r[i] == e[i]);
                    }
                }
            }
        }
    } else {
        assert forall|i: int, j: int| 0 <= i < j < r.len() implies #[trigger] r[i].0
            != #[trigger] r[j].0 by {
            if j == e.len() {
                assert(e[i].0 != k);
            } else {
                assert(e[i].0 != e[j].0);
            }
        }
        lemma_lookup_at(r, e.len() as int);
        assert forall|k2: Seq<char>| k2 != k implies lookup_in(r, k2) == lookup_in(e, k2) by {
            if exists|i: int| 0 <= i < e.len() && #[trigger] e[i].0 == k2 {
                let d = choose|i: int| 0 <= i < e.len() && #[trigger] e[i].0 == k2;
                lemma_lookup_at(e, d);
                lemma_lookup_at(r, d);
            } else {
                assert forall|i: int| 0 <= i < r.len() implies #[trigger] r[i].0 != k2 by {
                    if i < e.len() {
                        assert(r[i] == e[i]);
                    }
                }
            }
        }
    }
}

/// String-keyed entries with distinct keys.
pub struct KeyIndex<V> {
    entries: Vec<(Vec<char>, V)>,
}

/// The entries of a key index as values.
pub open spec fn entry_views<V>(e: Seq<(Vec<char>, V)>) -> Seq<(Seq<char>, V)> {
    e.map_values(|p: (Vec<char>, V)| (p.0@, p.1))
}

impl<V> KeyIndex<V> {
    /// The entries, in the order in which their keys first arrived.
    pub closed spec fn entries(&self) -> Seq<(Seq<char>, V)> {
        entry_views(self.entries@)
    }

    /// No key occurs twice.
    pub open spec fn wf(&self) -> bool {
        distinct_keys(self.entries())
    }

    /// The value under `k`, if any.
    pub open spec fn lookup(&self, k: Seq<char>) -> Option<V> {
        lookup_in(self.entries(), k)
    }

    pub fn new() -> (r: Self)
        ensures
            r.entries() == Seq::<(Seq<char>, V)>::empty(),
            r.wf(),
    {
        let r = KeyIndex { entries: Vec::new() };
        assert(entry_views(r.entries@) =~= Seq::<(Seq<char>, V)>::empty());
        r
    }

    /// The position of `k` among the entries.
    fn position(&self, k: &Vec<char>) -> (r: Option<usize>)
        ensures
            match r {
                Some(i) => i < self.entries().len() && self.entries()[i as int].0 == k@,
                None => forall|i: int|
                    0 <= i < self.entries().len() ==> #[trigger] self.entries()[i].0 != k@,
            },
    {
        let mut i: usize = 0;
        while i < self.entries.len()
            invariant
                i <= self.entries@.len(),
                forall|j: int| 0 <= j < i ==> #[trigger] self.entries()[j].0 != k@,
            decreases self.entries.len() - i,
        {
            if chars_eq(&self.entries[i].0, k) {
                return Some(i);
            }
            i += 1;
        }
        None
    }

    /// Stores `v` under `k`, in place when `k` is present.
    pub fn insert(&mut self, k: Vec<char>, v: V)
        requires
            old(self).wf(),
        ensures
            final(self).wf(),
            final(self).entries() == insert_entry(old(self).entries(), k@, v),
            final(self).lookup(k@) == Some(v),
            forall|k2: Seq<char>| k2 != k@ ==> final(self).lookup(k2) == old(self).lookup(k2),
    {
        proof {
            lemma_insert_entry(self.entries(), k@, v);
        }
        let ghost e = self.entries();
        match self.position(&k) {
            Some(i) => {
                proof {
                    let c = choose|j: int| 0 <= j < e.len() && #[trigger] e[j].0 == k@;
                    if c != i {
                        if c < i {
                            assert(e[c].0 != e[i as int].0);
                        } else {
                            assert(e[i as int].0 != e[c].0);
                        }
                    }
                }
                self.entries.set(i, (k, v));
                assert(entry_views(self.entries@) =~= e.update(i as int, (k@, v)));
            },
            None => {
                self.entries.push((k, v));
                assert(entry_views(self.entries@) =~= e.push((k@, v)));
            },
        }
    }

    /// The value stored under `k`, if any.
    pub fn get(&self, k: &Vec<char>) -> (r: Option<&V>)
        requires
            self.wf(),
        ensures
            match r {
                Some(v) => self.lookup(k@) == Some(*v),
                None => self.lookup(k@) is None,
            },
    {
        match self.position(k) {
            Some(i) => {
                proof {
                    lemma_lookup_at(self.entries(), i as int);
                }
                Some(&self.entries[i].1)
            },
            None => None,
        }
    }

    /// Whether some value is stored under `k`.
    pub fn contains_key(&self, k: &str) -> (r: bool)
        requires
            self.wf(),
        ensures
            r == self.lookup(k@) is Some,
    {
        let kv = crate::text::chars_of(k);
        self.get(&kv).is_some()
    }

    /// The number of keys.
    pub fn len(&self) -> (r: usize)
        ensures
            r == self.entries().len(),
    {
        self.entries.len()
    }

    /// The key and the value of entry `i`.
    pub fn entry(&self, i: usize) -> (r: (&Vec<char>, &V))
        requires
            i < self.entries().len(),
        ensures
            (r.0@, *r.1) == self.entries()[i as int],
    {
        (&self.entries[i].0, &self.entries[i].1)
    }
}

} // verus!
