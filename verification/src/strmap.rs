//! A map keyed by strings, kept as a vector of entries with distinct keys.
use vstd::prelude::*;
use vstd::string::StringExecFns;

verus! {

/// Whether `a` and `b` hold the same characters.
pub fn str_eq(a: &str, b: &str) -> (r: bool)
    ensures
        r == (a@ == b@),
{
    String::from_str(a) == String::from_str(b)
}

/// The map that a sequence of (key, value) entries with distinct keys stands for.
pub open spec fn entries_map<V>(s: Seq<(Seq<char>, V)>) -> Map<Seq<char>, V> {
    Map::new(
        |k: Seq<char>| exists|i: int| 0 <= i < s.len() && s[i].0 == k,
        |k: Seq<char>| s[choose|i: int| 0 <= i < s.len() && s[i].0 == k].1,
    )
}

/// No key occurs twice.
pub open spec fn distinct_keys<V>(s: Seq<(Seq<char>, V)>) -> bool {
    forall|i: int, j: int| 0 <= i < s.len() && 0 <= j < s.len() && i != j ==> s[i].0 != s[j].0
}

/// In a sequence with distinct keys the entry at `i` is what the map gives for its key.
pub proof fn lemma_entries_map_at<V>(s: Seq<(Seq<char>, V)>, i: int)
    requires
        distinct_keys(s),
        0 <= i < s.len(),
    ensures
        entries_map(s).contains_key(s[i].0),
        entries_map(s)[s[i].0] == s[i].1,
{
    let k = s[i].0;
    assert(exists|j: int| 0 <= j < s.len() && s[j].0 == k);
    let j = choose|j: int| 0 <= j < s.len() && s[j].0 == k;
    assert(j == i);
}

/// A string-keyed map.
#[derive(Clone, Debug)]
pub struct StrMap<V> {
    entries: Vec<(String, V)>,
}

impl<V> StrMap<V> {
    /// The entries in their order, keys taken by their characters.
    pub closed spec fn entries(&self) -> Seq<(Seq<char>, V)> {
        self.entries@.map_values(|e: (String, V)| (e.0@, e.1))
    }

    /// Keys are distinct.
    pub open spec fn wf(&self) -> bool {
        distinct_keys(self.entries())
    }

    /// The map from keys to values.
    pub open spec fn view(&self) -> Map<Seq<char>, V> {
        entries_map(self.entries())
    }

    /// The values in the order of the entries.
    pub open spec fn values_seq(&self) -> Seq<V> {
        self.entries().map_values(|e: (Seq<char>, V)| e.1)
    }

    /// An empty map.
    pub fn new() -> (m: Self)
        ensures
            m.wf(),
            m.entries().len() == 0,
            m.view() =~= Map::<Seq<char>, V>::empty(),
    {
        let m = StrMap { entries: Vec::new() };
        assert(m.entries() =~= Seq::<(Seq<char>, V)>::empty());
        m
    }

    /// Number of entries.
    pub fn len(&self) -> (n: usize)
        requires
            self.wf(),
        ensures
            n == self.entries().len(),
            n == self.view().dom().len(),
    {
        proof {
            self.lemma_len();
        }
        self.entries.len()
    }

    proof fn lemma_len(&self)
        requires
            self.wf(),
        ensures
            self.view().dom().finite(),
            self.view().dom().len() == self.entries().len(),
        decreases self.entries().len(),
    {
        let s = self.entries();
        let keys = s.map_values(|e: (Seq<char>, V)| e.0);
        assert(keys.no_duplicates()) by {
            assert forall|i: int, j: int| 0 <= i < keys.len() && 0 <= j < keys.len() && i != j
                implies keys[i] != keys[j] by {}
        }
        keys.unique_seq_to_set();
        assert(self.view().dom() =~= keys.to_set()) by {
            assert forall|k: Seq<char>| self.view().dom().contains(k) implies keys.to_set().contains(k) by {
                let i = choose|i: int| 0 <= i < s.len() && s[i].0 == k;
                assert(keys[i] == k);
            }
            assert forall|k: Seq<char>| keys.to_set().contains(k) implies self.view().dom().contains(k) by {
                let i = choose|i: int| 0 <= i < keys.len() && keys[i] == k;
                assert(s[i].0 == k);
            }
        }
    }

    /// Index of the entry with key `key`, if any.
    pub fn position(&self, key: &str) -> (r: Option<usize>)
        requires
            self.wf(),
        ensures
            match r {
                Some(i) => i < self.entries().len() && self.entries()[i as int].0 == key@,
                None => !self.view().contains_key(key@),
            },
    {
        let mut i: usize = 0;
        while i < self.entries.len()
            invariant
                i <= self.entries@.len(),
                forall|j: int| 0 <= j < i ==> self.entries()[j].0 != key@,
            decreases self.entries@.len() - i,
        {
            if str_eq(self.entries[i].0.as_str(), key) {
                return Some(i);
            }
            i = i + 1;
        }
        proof {
            if self.view().contains_key(key@) {
                let j = choose|j: int| 0 <= j < self.entries().len() && self.entries()[j].0 == key@;
                assert(self.entries()[j].0 != key@);
            }
        }
        None
    }

    /// Whether `key` has an entry.
    pub fn contains_key(&self, key: &str) -> (r: bool)
        requires
            self.wf(),
        ensures
            r == self.view().contains_key(key@),
    {
        match self.position(key) {
            Some(i) => {
                proof {
                    lemma_entries_map_at(self.entries(), i as int);
                }
                true
            },
            None => false,
        }
    }

    /// The value stored for `key`, if any.
    pub fn get(&self, key: &str) -> (r: Option<&V>)
        requires
            self.wf(),
        ensures
            match r {
                Some(v) => self.view().contains_key(key@) && self.view()[key@] == *v,
                None => !self.view().contains_key(key@),
            },
    {
        match self.position(key) {
            Some(i) => {
                proof {
                    lemma_entries_map_at(self.entries(), i as int);
                }
                Some(&self.entries[i].1)
            },
            None => None,
        }
    }

    /// The entry at index `i`.
    pub fn entry_at(&self, i: usize) -> (r: (&String, &V))
        requires
            i < self.entries().len(),
        ensures
            r.0@ == self.entries()[i as int].0,
            *r.1 == self.entries()[i as int].1,
    {
        let e = &self.entries[i];
        (&e.0, &e.1)
    }

    /// Stores `value` for `key`, replacing a previous value in place or adding an
    /// entry at the end.
    pub fn insert(&mut self, key: String, value: V)
        requires
            old(self).wf(),
        ensures
            final(self).wf(),
            final(self).view() == old(self).view().insert(key@, value),
            match old(self).view().contains_key(key@) {
                true => final(self).entries().len() == old(self).entries().len(),
                false => final(self).entries() == old(self).entries().push((key@, value)),
            },
    {
        let ghost k = key@;
        match self.position(key.as_str()) {
            Some(i) => {
                proof {
                    lemma_entries_map_at(old(self).entries(), i as int);
                }
                self.entries.remove(i);
                self.entries.insert(i, (key, value));
                proof {
                    let s0 = old(self).entries();
                    let s1 = self.entries();
                    assert(s1 =~= s0.update(i as int, (k, value)));
                    assert(self.view() =~= old(self).view().insert(k, value)) by {
                        assert forall|q: Seq<char>| #![auto] self.view().contains_key(q)
                            == old(self).view().insert(k, value).contains_key(q) by {
                            if self.view().contains_key(q) {
                                let j = choose|j: int| 0 <= j < s1.len() && s1[j].0 == q;
                                if j != i {
                                    assert(s0[j].0 == q);
                                }
                            }
                            if old(self).view().contains_key(q) && q != k {
                                let j = choose|j: int| 0 <= j < s0.len() && s0[j].0 == q;
                                assert(s1[j].0 == q);
                            }
                            if q == k {
                                assert(s1[i as int].0 == q);
                            }
                        }
                        assert forall|q: Seq<char>| self.view().contains_key(q) implies self.view()[q]
                            == old(self).view().insert(k, value)[q] by {
                            let j = choose|j: int| 0 <= j < s1.len() && s1[j].0 == q;
                            lemma_entries_map_at(s1, j);
                            if j != i {
                                lemma_entries_map_at(s0, j);
                            }
                        }
                    }
                }
            },
            None => {
                self.entries.push((key, value));
                proof {
                    let s0 = old(self).entries();
                    let s1 = self.entries();
                    assert(s1 =~= s0.push((k, value)));
                    assert(self.view() =~= old(self).view().insert(k, value)) by {
                        assert forall|q: Seq<char>| #![auto] self.view().contains_key(q)
                            == old(self).view().insert(k, value).contains_key(q) by {
                            if self.view().contains_key(q) && q != k {
                                let j = choose|j: int| 0 <= j < s1.len() && s1[j].0 == q;
                                assert(j != s0.len());
                                assert(s0[j].0 == q);
                            }
                            if old(self).view().contains_key(q) {
                                let j = choose|j: int| 0 <= j < s0.len() && s0[j].0 == q;
                                assert(s1[j].0 == q);
                            }
                            if q == k {
                                assert(s1[s0.len() as int].0 == q);
                            }
                        }
                        assert forall|q: Seq<char>| self.view().contains_key(q) implies self.view()[q]
                            == old(self).view().insert(k, value)[q] by {
                            let j = choose|j: int| 0 <= j < s1.len() && s1[j].0 == q;
                            lemma_entries_map_at(s1, j);
                            if j != s0.len() {
                                lemma_entries_map_at(s0, j);
                            }
                        }
                    }
                }
            },
        }
    }

    /// Removes the entry of `key`, keeping the order of the others.
    pub fn remove(&mut self, key: &str) -> (r: Option<V>)
        requires
            old(self).wf(),
        ensures
            final(self).wf(),
            final(self).view() == old(self).view().remove(key@),
            match r {
                Some(v) => old(self).view().contains_key(key@) && old(self).view()[key@] == v,
                None => !old(self).view().contains_key(key@) && *final(self) == *old(self),
            },
    {
        match self.position(key) {
            Some(i) => {
                proof {
                    lemma_entries_map_at(old(self).entries(), i as int);
                }
                let (_k, v) = self.entries.remove(i);
                proof {
                    let k = key@;
                    let s0 = old(self).entries();
                    let s1 = self.entries();
                    assert(s1 =~= s0.remove(i as int));
                    assert(self.view() =~= old(self).view().remove(k)) by {
                        assert forall|q: Seq<char>| #![auto] self.view().contains_key(q)
                            == old(self).view().remove(k).contains_key(q) by {
                            if self.view().contains_key(q) {
                                let j = choose|j: int| 0 <= j < s1.len() && s1[j].0 == q;
                                if j < i {
                                    assert(s0[j].0 == q);
                                } else {
                                    assert(s0[j + 1].0 == q);
                                }
                            }
                            if old(self).view().contains_key(q) && q != k {
                                let j = choose|j: int| 0 <= j < s0.len() && s0[j].0 == q;
                                if j < i {
                                    assert(s1[j].0 == q);
                                } else {
                                    assert(s1[j - 1].0 == q);
                                }
                            }
                        }
                        assert forall|q: Seq<char>| self.view().contains_key(q) implies self.view()[q]
                            == old(self).view().remove(k)[q] by {
                            let j = choose|j: int| 0 <= j < s1.len() && s1[j].0 == q;
                            lemma_entries_map_at(s1, j);
                            if j < i {
                                lemma_entries_map_at(s0, j);
                            } else {
                                lemma_entries_map_at(s0, j + 1);
                            }
                        }
                    }
                }
                Some(v)
            },
            None => {
                proof {
                    assert(old(self).view().remove(key@) =~= old(self).view());
                }
                None
            },
        }
    }

    /// References to all values, in the order of the entries.
    pub fn values(&self) -> (r: Vec<&V>)
        ensures
            r@.len() == self.entries().len(),
            forall|i: int| 0 <= i < r@.len() ==> *r@[i] == self.entries()[i].1,
    {
        let mut r: Vec<&V> = Vec::new();
        let mut i: usize = 0;
        while i < self.entries.len()
            invariant
                i <= self.entries@.len(),
                r@.len() == i,
                forall|j: int| 0 <= j < i ==> *r@[j] == self.entries()[j].1,
            decreases self.entries@.len() - i,
        {
            r.push(&self.entries[i].1);
            i = i + 1;
        }
        r
    }
}

} // verus!
