//! The key-value store itself and its snapshot enumerator.
//!
//! A `KvStore` is modelled by a `Map<Seq<char>, Seq<char>>` (its view) built
//! from an ordered sequence of entries; the order of that sequence is what an
//! enumerator exposes.

use vstd::prelude::*;

verus! {

/// No key occurs in two different entries.
pub open spec fn distinct_keys(entries: Seq<(Seq<char>, Seq<char>)>) -> bool {
    forall|i: int, j: int|
        0 <= i < entries.len() && 0 <= j < entries.len() && i != j ==> entries[i].0 != entries[j].0
}

/// The mapping that a sequence of entries denotes: a key is bound exactly
/// when some entry carries it, to that entry's value.
pub open spec fn map_of_entries(entries: Seq<(Seq<char>, Seq<char>)>) -> Map<
    Seq<char>,
    Seq<char>,
> {
    Map::new(
        |k: Seq<char>| exists|i: int| 0 <= i < entries.len() && entries[i].0 == k,
        |k: Seq<char>|
            {
                let i = choose|i: int| 0 <= i < entries.len() && entries[i].0 == k;
                entries[i].1
            },
    )
}

/// The text an enumerator hands out for one entry: `k: <key>, v: <value>`.
pub open spec fn entry_text(k: Seq<char>, v: Seq<char>) -> Seq<char> {
    "k: "@ + k + ", v: "@ + v
}

/// An entry's key is bound by the mapping, to that entry's value.
proof fn lemma_entry_key_value(entries: Seq<(Seq<char>, Seq<char>)>, i: int)
    requires
        distinct_keys(entries),
        0 <= i < entries.len(),
    ensures
        map_of_entries(entries).contains_key(entries[i].0),
        map_of_entries(entries)[entries[i].0] == entries[i].1,
{
    let k = entries[i].0;
    assert(0 <= i < entries.len() && entries[i].0 == k);
    let j = choose|j: int| 0 <= j < entries.len() && entries[j].0 == k;
    assert(j == i);
}

/// A key no entry carries is not bound by the mapping.
proof fn lemma_absent_key(entries: Seq<(Seq<char>, Seq<char>)>, k: Seq<char>)
    requires
        forall|i: int| 0 <= i < entries.len() ==> entries[i].0 != k,
    ensures
        !map_of_entries(entries).contains_key(k),
{
}

/// Appending an entry with a fresh key inserts its binding into the mapping.
proof fn lemma_push_entry(entries: Seq<(Seq<char>, Seq<char>)>, k: Seq<char>, v: Seq<char>)
    requires
        distinct_keys(entries),
        forall|i: int| 0 <= i < entries.len() ==> entries[i].0 != k,
    ensures
        distinct_keys(entries.push((k, v))),
        map_of_entries(entries.push((k, v))) =~= map_of_entries(entries).insert(k, v),
{
    let s2 = entries.push((k, v));
    let m1 = map_of_entries(entries);
    let m2 = map_of_entries(s2);
    assert forall|kk: Seq<char>| m2.contains_key(kk) implies m1.insert(k, v).contains_key(kk) by {
        let i = choose|i: int| 0 <= i < s2.len() && s2[i].0 == kk;
        if i < entries.len() {
            assert(entries[i].0 == kk);
        }
    }
    assert forall|kk: Seq<char>| m1.insert(k, v).contains_key(kk) implies m2.contains_key(kk) by {
        if kk == k {
            assert(s2[entries.len() as int].0 == kk);
        } else {
            let i = choose|i: int| 0 <= i < entries.len() && entries[i].0 == kk;
            assert(s2[i].0 == kk);
        }
    }
    assert forall|kk: Seq<char>| m2.contains_key(kk) implies m2[kk] == m1.insert(k, v)[kk] by {
        if kk == k {
            lemma_entry_key_value(s2, entries.len() as int);
        } else {
            let i = choose|i: int| 0 <= i < entries.len() && entries[i].0 == kk;
            lemma_entry_key_value(s2, i);
            lemma_entry_key_value(entries, i);
        }
    }
}

/// Dropping the entry at one position deletes its key's binding and no other.
proof fn lemma_remove_entry(entries: Seq<(Seq<char>, Seq<char>)>, i: int)
    requires
        distinct_keys(entries),
        0 <= i < entries.len(),
    ensures
        distinct_keys(entries.remove(i)),
        forall|j: int| 0 <= j < entries.remove(i).len() ==> entries.remove(i)[j].0 != entries[i].0,
        map_of_entries(entries.remove(i)) =~= map_of_entries(entries).remove(entries[i].0),
{
    let k = entries[i].0;
    let s2 = entries.remove(i);
    let m1 = map_of_entries(entries);
    let m2 = map_of_entries(s2);
    entries.remove_ensures(i);
    assert forall|j: int| 0 <= j < s2.len() implies s2[j].0 != k by {
        if j < i {
            assert(s2[j] == entries[j]);
        } else {
            assert(s2[j] == entries[j + 1]);
        }
    }
    assert forall|kk: Seq<char>| m2.contains_key(kk) implies m1.remove(k).contains_key(kk) by {
        let j = choose|j: int| 0 <= j < s2.len() && s2[j].0 == kk;
        if j < i {
            assert(entries[j].0 == kk);
        } else {
            assert(entries[j + 1].0 == kk);
        }
    }
    assert forall|kk: Seq<char>| m1.remove(k).contains_key(kk) implies m2.contains_key(kk) by {
        let j = choose|j: int| 0 <= j < entries.len() && entries[j].0 == kk;
        if j < i {
            assert(s2[j].0 == kk);
        } else {
            assert(j != i);
            assert(s2[j - 1].0 == kk);
        }
    }
    assert forall|kk: Seq<char>| m2.contains_key(kk) implies m2[kk] == m1.remove(k)[kk] by {
        let j = choose|j: int| 0 <= j < s2.len() && s2[j].0 == kk;
        lemma_entry_key_value(s2, j);
        if j < i {
            lemma_entry_key_value(entries, j);
        } else {
            lemma_entry_key_value(entries, j + 1);
        }
    }
}

/// A mapping binds as many keys as its entry sequence has entries.
proof fn lemma_entries_len(entries: Seq<(Seq<char>, Seq<char>)>)
    requires
        distinct_keys(entries),
    ensures
        map_of_entries(entries).dom().finite(),
        map_of_entries(entries).dom().len() == entries.len(),
    decreases entries.len(),
{
    if entries.len() == 0 {
        assert(map_of_entries(entries).dom() =~= Set::<Seq<char>>::empty());
    } else {
        let t = entries.drop_last();
        let last = entries.last();
        lemma_entries_len(t);
        assert(forall|j: int| 0 <= j < t.len() ==> t[j] == entries[j]);
        assert forall|j: int| 0 <= j < t.len() implies t[j].0 != last.0 by {
            assert(entries[j].0 != entries[entries.len() - 1].0);
        }
        lemma_push_entry(t, last.0, last.1);
        assert(t.push(last) =~= entries);
        lemma_absent_key(t, last.0);
        assert(map_of_entries(entries).dom() =~= map_of_entries(t).dom().insert(last.0));
    }
}

/// An in-memory map from string keys to string values. Keys are unique;
/// the store owns copies of everything handed to it.
#[derive(Debug)]
pub struct KvStore {
    pairs: Vec<(String, String)>,
}

impl View for KvStore {
    type V = Map<Seq<char>, Seq<char>>;

    open spec fn view(&self) -> Map<Seq<char>, Seq<char>> {
        map_of_entries(self.entries())
    }
}

impl KvStore {
    /// The entries the store holds, in storage order.
    pub closed spec fn entries(&self) -> Seq<(Seq<char>, Seq<char>)> {
        self.pairs@.map_values(|p: (String, String)| (p.0@, p.1@))
    }

    #[verifier::type_invariant]
    spec fn inv(&self) -> bool {
        distinct_keys(self.entries())
    }

    /// Returns an empty store.
    pub fn new() -> (r: KvStore)
        ensures
            r@ == Map::<Seq<char>, Seq<char>>::empty(),
            r.entries().len() == 0,
    {
        let r = KvStore { pairs: Vec::new() };
        proof {
            assert(r@ =~= Map::<Seq<char>, Seq<char>>::empty());
        }
        r
    }

    /// The position of the entry carrying `key`, if any.
    fn find_index(&self, key: &String) -> (r: Option<usize>)
        ensures
            match r {
                Some(i) => i < self.entries().len() && self.entries()[i as int].0 == key@,
                None => forall|i: int| 0 <= i < self.entries().len() ==> self.entries()[i].0 != key@,
            },
    {
        let mut i: usize = 0;
        while i < self.pairs.len()
            invariant
                i <= self.pairs@.len(),
                forall|j: int| 0 <= j < i ==> self.entries()[j].0 != key@,
            decreases self.pairs@.len() - i,
        {
            if self.pairs[i].0 == *key {
                return Some(i);
            }
            i = i + 1;
        }
        None
    }

    /// Binds `key` to `value`, inserting the binding or overwriting the one
    /// already present. Returns the previous value for `key`, or `None` when
    /// the key was not set before. Always succeeds.
    pub fn set(&mut self, key: &str, value: &str) -> (r: Option<String>)
        ensures
            final(self)@ == old(self)@.insert(key@, value@),
            match r {
                Some(prev) => old(self)@.contains_key(key@) && prev@ == old(self)@[key@],
                None => !old(self)@.contains_key(key@),
            },
    {
        proof {
            use_type_invariant(&*self);
        }
        let ghost old_entries = self.entries();
        let key_owned = String::from_str(key);
        let value_owned = String::from_str(value);
        let idx = self.find_index(&key_owned);
        let mut pairs: Vec<(String, String)> = Vec::new();
        std::mem::swap(&mut pairs, &mut self.pairs);
        let ghost old_pairs = pairs@;
        let result: Option<String>;
        match idx {
            Some(i) => {
                proof {
                    lemma_entry_key_value(old_entries, i as int);
                    lemma_remove_entry(old_entries, i as int);
                    lemma_push_entry(old_entries.remove(i as int), key@, value@);
                }
                let prev = pairs.remove(i);
                pairs.push((key_owned, value_owned));
                proof {
                    old_pairs.remove_ensures(i as int);
                    old_entries.remove_ensures(i as int);
                    let s2 = KvStore { pairs };
                    assert(s2.entries() =~= old_entries.remove(i as int).push((key@, value@)));
                    assert(distinct_keys(s2.entries()));
                }
                result = Some(prev.1);
            },
            None => {
                proof {
                    lemma_absent_key(old_entries, key@);
                    lemma_push_entry(old_entries, key@, value@);
                }
                pairs.push((key_owned, value_owned));
                proof {
                    let s2 = KvStore { pairs };
                    assert(s2.entries() =~= old_entries.push((key@, value@)));
                    assert(distinct_keys(s2.entries()));
                }
                result = None;
            },
        }
        self.pairs = pairs;
        proof {
            assert(final(self)@ =~= old(self)@.insert(key@, value@));
        }
        result
    }

    /// Deletes the binding for `key` if one is present, returning the removed
    /// value; returns `None`, leaving the store as it was, when the key is
    /// absent.
    pub fn remove(&mut self, key: &str) -> (r: Option<String>)
        ensures
            final(self)@ == old(self)@.remove(key@),
            !old(self)@.contains_key(key@) ==> final(self)@ == old(self)@,
            match r {
                Some(v) => old(self)@.contains_key(key@) && v@ == old(self)@[key@],
                None => !old(self)@.contains_key(key@),
            },
    {
        proof {
            use_type_invariant(&*self);
        }
        let ghost old_entries = self.entries();
        let key_owned = String::from_str(key);
        match self.find_index(&key_owned) {
            Some(i) => {
                proof {
                    lemma_entry_key_value(old_entries, i as int);
                    lemma_remove_entry(old_entries, i as int);
                }
                let mut pairs: Vec<(String, String)> = Vec::new();
                std::mem::swap(&mut pairs, &mut self.pairs);
                let ghost old_pairs = pairs@;
                let pair = pairs.remove(i);
                proof {
                    old_pairs.remove_ensures(i as int);
                    old_entries.remove_ensures(i as int);
                    let s2 = KvStore { pairs };
                    assert(s2.entries() =~= old_entries.remove(i as int));
                    assert(distinct_keys(s2.entries()));
                }
                self.pairs = pairs;
                proof {
                    assert(final(self)@ =~= old(self)@.remove(key@));
                }
                Some(pair.1)
            },
            None => {
                proof {
                    lemma_absent_key(old_entries, key@);
                    assert(self@.remove(key@) =~= self@);
                }
                None
            },
        }
    }

    /// Returns a copy of the value bound to `key`, or `None` when the store
    /// does not hold the key. The store is never changed.
    pub fn get(&self, key: &str) -> (r: Option<String>)
        ensures
            match r {
                Some(v) => self@.contains_key(key@) && v@ == self@[key@],
                None => !self@.contains_key(key@),
            },
    {
        proof {
            use_type_invariant(&*self);
        }
        let key_owned = String::from_str(key);
        match self.find_index(&key_owned) {
            Some(i) => {
                proof {
                    lemma_entry_key_value(self.entries(), i as int);
                }
                Some(self.pairs[i].1.clone())
            },
            None => {
                proof {
                    lemma_absent_key(self.entries(), key@);
                }
                None
            },
        }
    }
}

impl KvStore {
    /// Returns how many keys the store currently binds.
    pub fn len(&self) -> (r: usize)
        ensures
            r == self@.dom().len(),
            r == self.entries().len(),
            self@.dom().finite(),
    {
        proof {
            use_type_invariant(&*self);
            lemma_entries_len(self.entries());
        }
        self.pairs.len()
    }

    /// Produces an enumerator over a snapshot of the store's current
    /// entries, each formatted as `k: <key>, v: <value>`. The snapshot
    /// reflects no later mutation of the store.
    pub fn iter(&self) -> (r: KvStoreIter)
        ensures
            r.index == 0,
            r.vec@.len() == self.entries().len(),
            r.vec@.len() == self@.dom().len(),
            forall|i: int|
                0 <= i < r.vec@.len() ==> r.vec@[i]@ == entry_text(
                    self.entries()[i].0,
                    self.entries()[i].1,
                ),
            distinct_keys(self.entries()),
    {
        proof {
            use_type_invariant(&*self);
            lemma_entries_len(self.entries());
        }
        let mut vec_list: Vec<String> = Vec::new();
        let mut i: usize = 0;
        while i < self.pairs.len()
            invariant
                i <= self.pairs@.len(),
                vec_list@.len() == i,
                forall|j: int|
                    0 <= j < i ==> vec_list@[j]@ == entry_text(
                        self.entries()[j].0,
                        self.entries()[j].1,
                    ),
            decreases self.pairs@.len() - i,
        {
            let mut line = String::from_str("k: ");
            line.append(self.pairs[i].0.as_str());
            line.append(", v: ");
            line.append(self.pairs[i].1.as_str());
            proof {
                assert(line@ =~= entry_text(self.entries()[i as int].0, self.entries()[i as int].1));
            }
            vec_list.push(line);
            i = i + 1;
        }
        KvStoreIter { index: 0, vec: vec_list }
    }
}

impl KvStore {
    /// True exactly when every entry of this store is bound, with the same
    /// value, in `other`.
    fn entries_subsumed_by(&self, other: &KvStore) -> (r: bool)
        ensures
            r == (forall|i: int|
                0 <= i < self.entries().len() ==> other@.contains_key(self.entries()[i].0)
                    && other@[self.entries()[i].0] == self.entries()[i].1),
    {
        proof {
            use_type_invariant(&*other);
        }
        let mut i: usize = 0;
        while i < self.pairs.len()
            invariant
                i <= self.pairs@.len(),
                distinct_keys(other.entries()),
                forall|j: int|
                    0 <= j < i ==> other@.contains_key(self.entries()[j].0)
                        && other@[self.entries()[j].0] == self.entries()[j].1,
            decreases self.pairs@.len() - i,
        {
            match other.find_index(&self.pairs[i].0) {
                Some(j) => {
                    proof {
                        lemma_entry_key_value(other.entries(), j as int);
                    }
                    if !(self.pairs[i].1 == other.pairs[j].1) {
                        proof {
                            assert(other@[self.entries()[i as int].0] != self.entries()[
                                i as int
                            ].1);
                        }
                        return false;
                    }
                },
                None => {
                    proof {
                        lemma_absent_key(other.entries(), self.entries()[i as int].0);
                    }
                    return false;
                },
            }
            i = i + 1;
        }
        true
    }
}

impl Clone for KvStore {
    /// Duplicates the store into an independent copy that holds the same
    /// entries; mutating either copy afterwards does not affect the other.
    fn clone(&self) -> (r: KvStore)
        ensures
            r@ == self@,
            r.entries() == self.entries(),
    {
        proof {
            use_type_invariant(&*self);
        }
        let mut pairs: Vec<(String, String)> = Vec::new();
        let mut i: usize = 0;
        while i < self.pairs.len()
            invariant
                i <= self.pairs@.len(),
                pairs@.len() == i,
                forall|j: int| 0 <= j < i ==> pairs@[j] == self.pairs@[j],
            decreases self.pairs@.len() - i,
        {
            let p = &self.pairs[i];
            pairs.push((p.0.clone(), p.1.clone()));
            i = i + 1;
        }
        proof {
            assert(pairs@ =~= self.pairs@);
        }
        let r = KvStore { pairs };
        proof {
            assert(r.entries() =~= self.entries());
        }
        r
    }
}

impl PartialEq for KvStore {
    /// Two stores are equal exactly when they bind the same keys to the
    /// same values, whatever order their entries sit in.
    fn eq(&self, other: &KvStore) -> (r: bool) {
        proof {
            use_type_invariant(&*self);
            use_type_invariant(&*other);
        }
        let forward = self.entries_subsumed_by(other);
        if !forward {
            proof {
                let i = choose|i: int|
                    0 <= i < self.entries().len() && !(other@.contains_key(self.entries()[i].0)
                        && other@[self.entries()[i].0] == self.entries()[i].1);
                lemma_entry_key_value(self.entries(), i);
            }
            return false;
        }
        let backward = other.entries_subsumed_by(self);
        if !backward {
            proof {
                let i = choose|i: int|
                    0 <= i < other.entries().len() && !(self@.contains_key(other.entries()[i].0)
                        && self@[other.entries()[i].0] == other.entries()[i].1);
                lemma_entry_key_value(other.entries(), i);
            }
            return false;
        }
        proof {
            assert forall|k: Seq<char>| self@.contains_key(k) implies other@.contains_key(k)
                && self@[k] == other@[k] by {
                let i = choose|i: int| 0 <= i < self.entries().len() && self.entries()[i].0 == k;
                lemma_entry_key_value(self.entries(), i);
            }
            assert forall|k: Seq<char>| other@.contains_key(k) implies self@.contains_key(k) by {
                let i = choose|i: int| 0 <= i < other.entries().len() && other.entries()[i].0 == k;
                lemma_entry_key_value(other.entries(), i);
            }
            assert(self@ =~= other@);
        }
        true
    }
}

impl vstd::std_specs::cmp::PartialEqSpecImpl for KvStore {
    open spec fn obeys_eq_spec() -> bool {
        true
    }

    open spec fn eq_spec(&self, other: &KvStore) -> bool {
        self@ == other@
    }
}

/// A one-shot, forward-only enumerator over a snapshot of a store's
/// entries, each already formatted as `k: <key>, v: <value>` text.
pub struct KvStoreIter {
    /// The cursor: how many entries have been handed out so far.
    pub index: usize,
    /// The snapshot, taken when the enumerator was created.
    pub vec: Vec<String>,
}

impl KvStoreIter {
    /// Returns the next formatted entry of the snapshot and advances the
    /// cursor, or `None` forever once the snapshot is exhausted.
    pub fn next(&mut self) -> (r: Option<String>)
        ensures
            final(self).vec == old(self).vec,
            old(self).index < old(self).vec@.len() ==> final(self).index == old(self).index + 1
                && r == Some(old(self).vec@[old(self).index as int]),
            old(self).index >= old(self).vec@.len() ==> final(self).index == old(self).index
                && r is None,
    {
        let max_length = self.vec.len();
        if self.index < max_length {
            let value = self.vec[self.index].clone();
            self.index = self.index + 1;
            Some(value)
        } else {
            None
        }
    }
}

} // verus!
