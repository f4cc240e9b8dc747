use vstd::prelude::*;

verus! {

/// The map that a list of entries with distinct keys stands for.
pub open spec fn entries_map<V>(s: Seq<(u128, V)>) -> Map<u128, V> {
    Map::new(
        |k: u128| exists|i: int| 0 <= i < s.len() && s[i].0 == k,
        |k: u128| s[choose|i: int| 0 <= i < s.len() && s[i].0 == k].1,
    )
}

pub open spec fn keys_distinct<V>(s: Seq<(u128, V)>) -> bool {
    forall|i: int, j: int| 0 <= i < s.len() && 0 <= j < s.len() && i != j ==> s[i].0 != s[j].0
}

proof fn lemma_entry<V>(s: Seq<(u128, V)>, i: int)
    requires
        keys_distinct(s),
        0 <= i < s.len(),
    ensures
        entries_map(s).contains_key(s[i].0),
        entries_map(s)[s[i].0] == s[i].1,
{
    let k = s[i].0;
    assert(exists|j: int| 0 <= j < s.len() && s[j].0 == k);
    let j = choose|j: int| 0 <= j < s.len() && s[j].0 == k;
    assert(j == i);
}

/// A table from identifiers to values, one value per identifier.
pub struct Registry<V> {
    entries: Vec<(u128, V)>,
}

impl<V> View for Registry<V> {
    type V = Map<u128, V>;

    closed spec fn view(&self) -> Map<u128, V> {
        entries_map(self.entries@)
    }
}

impl<V> Registry<V> {
    pub closed spec fn wf(self) -> bool {
        keys_distinct(self.entries@)
    }

    pub fn new() -> (r: Self)
        ensures
            r.wf(),
            r@ == Map::<u128, V>::empty(),
    {
        let r = Registry { entries: Vec::new() };
        assert(r@ =~= Map::<u128, V>::empty());
        r
    }

    fn find(&self, k: u128) -> (r: Option<usize>)
        ensures
            match r {
                Some(i) => i < self.entries.len() && self.entries@[i as int].0 == k,
                None => forall|i: int| 0 <= i < self.entries.len() ==> self.entries@[i].0 != k,
            },
    {
        let mut i: usize = 0;
        while i < self.entries.len()
            invariant
                i <= self.entries.len(),
                forall|j: int| 0 <= j < i ==> self.entries@[j].0 != k,
            decreases self.entries.len() - i,
        {
            if self.entries[i].0 == k {
                return Some(i);
            }
            i += 1;
        }
        None
    }

    pub fn contains_key(&self, k: u128) -> (r: bool)
        requires
            self.wf(),
        ensures
            r == self@.contains_key(k),
    {
        match self.find(k) {
            Some(i) => {
                proof {
                    lemma_entry(self.entries@, i as int);
                }
                true
            },
            None => false,
        }
    }

    pub fn get(&self, k: u128) -> (r: Option<&V>)
        requires
            self.wf(),
        ensures
            match r {
                Some(v) => self@.contains_key(k) && self@[k] == *v,
                None => !self@.contains_key(k),
            },
    {
        match self.find(k) {
            Some(i) => {
                proof {
                    lemma_entry(self.entries@, i as int);
                }
                Some(&self.entries[i].1)
            },
            None => None,
        }
    }

    /// Binds `k` to `v`, replacing any earlier value.
    pub fn insert(&mut self, k: u128, v: V)
        requires
            old(self).wf(),
        ensures
            final(self).wf(),
            final(self)@ == old(self)@.insert(k, v),
    {
        let ghost s = self.entries@;
        match self.find(k) {
            Some(i) => {
                self.entries.set(i, (k, v));
                proof {
                    let t = self.entries@;
                    assert(keys_distinct(t));
                    assert forall|key: u128|
                        #![auto]
                        entries_map(t).contains_key(key) == entries_map(s).insert(
                            k,
                            v,
                        ).contains_key(key) by {
                        if entries_map(s).contains_key(key) {
                            let j = choose|j: int| 0 <= j < s.len() && s[j].0 == key;
                            assert(t[j].0 == key);
                        }
                        if entries_map(t).contains_key(key) {
                            let j = choose|j: int| 0 <= j < t.len() && t[j].0 == key;
                            if j != i {
                                assert(s[j].0 == key);
                            }
                        }
                    }
                    assert forall|key: u128| #[trigger]
                        entries_map(t).contains_key(key) implies entries_map(t)[key]
                        == entries_map(s).insert(k, v)[key] by {
                        let j = choose|j: int| 0 <= j < t.len() && t[j].0 == key;
                        lemma_entry(t, j);
                        if j != i {
                            lemma_entry(s, j);
                        }
                    }
                    assert(entries_map(t) =~= entries_map(s).insert(k, v));
                }
            },
            None => {
                self.entries.push((k, v));
                proof {
                    let t = self.entries@;
                    assert(keys_distinct(t));
                    assert forall|key: u128|
                        #![auto]
                        entries_map(t).contains_key(key) == entries_map(s).insert(
                            k,
                            v,
                        ).contains_key(key) by {
                        if entries_map(s).contains_key(key) {
                            let j = choose|j: int| 0 <= j < s.len() && s[j].0 == key;
                            assert(t[j].0 == key);
                        }
                        if key == k {
                            assert(t[s.len() as int].0 == key);
                        }
                    }
                    assert forall|key: u128| #[trigger]
                        entries_map(t).contains_key(key) implies entries_map(t)[key]
                        == entries_map(s).insert(k, v)[key] by {
                        let j = choose|j: int| 0 <= j < t.len() && t[j].0 == key;
                        lemma_entry(t, j);
                        if j < s.len() {
                            lemma_entry(s, j);
                        }
                    }
                    assert(entries_map(t) =~= entries_map(s).insert(k, v));
                }
            },
        }
    }

    /// Removes the value bound to `k` and hands it back.
    pub fn take(&mut self, k: u128) -> (r: Option<V>)
        requires
            old(self).wf(),
        ensures
            final(self).wf(),
            final(self)@ == old(self)@.remove(k),
            match r {
                Some(v) => old(self)@.contains_key(k) && old(self)@[k] == v,
                None => !old(self)@.contains_key(k),
            },
    {
        let ghost s = self.entries@;
        match self.find(k) {
            Some(i) => {
                proof {
                    lemma_entry(s, i as int);
                }
                let (_, v) = self.entries.remove(i);
                proof {
                    let t = self.entries@;
                    assert(t =~= s.remove(i as int));
                    assert(keys_distinct(t)) by {
                        assert forall|a: int, b: int|
                            0 <= a < t.len() && 0 <= b < t.len() && a != b implies t[a].0
                            != t[b].0 by {
                            let a2 = if a < i {
                                a
                            } else {
                                a + 1
                            };
                            let b2 = if b < i {
                                b
                            } else {
                                b + 1
                            };
                            assert(t[a] == s[a2] && t[b] == s[b2]);
                        }
                    }
                    assert forall|key: u128|
                        #![auto]
                        entries_map(t).contains_key(key) == entries_map(s).remove(
                            k,
                        ).contains_key(key) by {
                        if entries_map(s).contains_key(key) && key != k {
                            let j = choose|j: int| 0 <= j < s.len() && s[j].0 == key;
                            let j2 = if j < i {
                                j
                            } else {
                                j - 1
                            };
                            assert(t[j2] == s[j]);
                        }
                        if entries_map(t).contains_key(key) {
                            let j = choose|j: int| 0 <= j < t.len() && t[j].0 == key;
                            let j2 = if j < i {
                                j
                            } else {
                                j + 1
                            };
                            assert(t[j] == s[j2]);
                        }
                    }
                    assert forall|key: u128| #[trigger]
                        entries_map(t).contains_key(key) implies entries_map(t)[key]
                        == entries_map(s).remove(k)[key] by {
                        let j = choose|j: int| 0 <= j < t.len() && t[j].0 == key;
                        let j2 = if j < i {
                            j
                        } else {
                            j + 1
                        };
                        assert(t[j] == s[j2]);
                        lemma_entry(t, j);
                        lemma_entry(s, j2);
                    }
                    assert(entries_map(t) =~= entries_map(s).remove(k));
                }
                Some(v)
            },
            None => {
                proof {
                    assert(entries_map(s) =~= entries_map(s).remove(k));
                }
                None
            },
        }
    }

    /// The identifiers that have a value, each once.
    pub fn keys(&self) -> (r: Vec<u128>)
        requires
            self.wf(),
        ensures
            r@.no_duplicates(),
            r@.to_set() == self@.dom(),
    {
        let mut r: Vec<u128> = Vec::new();
        let mut i: usize = 0;
        while i < self.entries.len()
            invariant
                i <= self.entries.len(),
                keys_distinct(self.entries@),
                r@.len() == i,
                forall|j: int| 0 <= j < i ==> r@[j] == self.entries@[j].0,
            decreases self.entries.len() - i,
        {
            r.push(self.entries[i].0);
            i += 1;
        }
        proof {
            let s = self.entries@;
            assert forall|key: u128| r@.to_set().contains(key) == self@.dom().contains(key) by {
                if self@.dom().contains(key) {
                    let j = choose|j: int| 0 <= j < s.len() && s[j].0 == key;
                    assert(r@[j] == key);
                }
                if r@.to_set().contains(key) {
                    let j = choose|j: int| 0 <= j < r@.len() && r@[j] == key;
                    assert(s[j].0 == key);
                }
            }
            assert(r@.to_set() =~= self@.dom());
        }
        r
    }
}

} // verus!
