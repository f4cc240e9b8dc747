use vstd::prelude::*;

use crate::dag::FileStoreKey;

verus! {

/// How many times each key is pinned: a key pinned zero times may be
/// reclaimed from the store.
pub struct PinTable {
    entries: Vec<(Vec<u8>, u64)>,
}

pub open spec fn pins_of(m: Map<Seq<u8>, u64>, k: Seq<u8>) -> nat {
    if m.contains_key(k) {
        m[k] as nat
    } else {
        0
    }
}

fn same_bytes(a: &Vec<u8>, b: &Vec<u8>) -> (r: bool)
    ensures
        r == (a@ == b@),
{
    if a.len() != b.len() {
        return false;
    }
    let mut i: usize = 0;
    while i < a.len()
        invariant
            a.len() == b.len(),
            i <= a.len(),
            forall|j: int| 0 <= j < i ==> a@[j] == b@[j],
        decreases a.len() - i,
    {
        if a[i] != b[i] {
            return false;
        }
        i += 1;
    }
    assert(a@ =~= b@);
    true
}

fn copy_bytes(a: &Vec<u8>) -> (r: Vec<u8>)
    ensures
        r@ == a@,
{
    let mut r: Vec<u8> = Vec::new();
    let mut i: usize = 0;
    while i < a.len()
        invariant
            i <= a.len(),
            r@ == a@.take(i as int),
        decreases a.len() - i,
    {
        r.push(a[i]);
        proof {
            assert(a@.take(i + 1) =~= a@.take(i as int).push(a@[i as int]));
        }
        i += 1;
    }
    assert(a@.take(i as int) =~= a@);
    r
}

impl View for PinTable {
    type V = Map<Seq<u8>, u64>;

    closed spec fn view(&self) -> Map<Seq<u8>, u64> {
        let s = self.entries@;
        Map::new(
            |k: Seq<u8>| exists|i: int| 0 <= i < s.len() && s[i].0@ == k,
            |k: Seq<u8>| s[choose|i: int| 0 <= i < s.len() && s[i].0@ == k].1,
        )
    }
}

impl PinTable {
    pub closed spec fn wf(self) -> bool {
        forall|i: int, j: int|
            0 <= i < self.entries@.len() && 0 <= j < self.entries@.len() && i != j
                ==> self.entries@[i].0@ != self.entries@[j].0@
    }

    proof fn lemma_entry(self, i: int)
        requires
            self.wf(),
            0 <= i < self.entries@.len(),
        ensures
            self@.contains_key(self.entries@[i].0@),
            self@[self.entries@[i].0@] == self.entries@[i].1,
    {
        let s = self.entries@;
        let k = s[i].0@;
        assert(exists|j: int| 0 <= j < s.len() && s[j].0@ == k);
        let j = choose|j: int| 0 <= j < s.len() && s[j].0@ == k;
        assert(j == i);
    }

    pub fn new() -> (r: Self)
        ensures
            r.wf(),
            r@ == Map::<Seq<u8>, u64>::empty(),
    {
        let r = PinTable { entries: Vec::new() };
        assert(r@ =~= Map::<Seq<u8>, u64>::empty());
        r
    }

    fn find(&self, k: &Vec<u8>) -> (r: Option<usize>)
        ensures
            match r {
                Some(i) => i < self.entries.len() && self.entries@[i as int].0@ == k@,
                None => forall|i: int| 0 <= i < self.entries.len() ==> self.entries@[i].0@ != k@,
            },
    {
        let mut i: usize = 0;
        while i < self.entries.len()
            invariant
                i <= self.entries.len(),
                forall|j: int| 0 <= j < i ==> self.entries@[j].0@ != k@,
            decreases self.entries.len() - i,
        {
            if same_bytes(&self.entries[i].0, k) {
                return Some(i);
            }
            i += 1;
        }
        None
    }

    /// How many times `key` is pinned.
    pub fn count(&self, key: &FileStoreKey) -> (r: u64)
        requires
            self.wf(),
        ensures
            r as nat == pins_of(self@, key.hash@),
    {
        match self.find(&key.hash) {
            Some(i) => {
                proof {
                    self.lemma_entry(i as int);
                }
                self.entries[i].1
            },
            None => 0,
        }
    }

    /// Sets the count of entry `i` to `c`.
    fn set_count(&mut self, i: usize, c: u64)
        requires
            old(self).wf(),
            i < old(self).entries.len(),
        ensures
            final(self).wf(),
            final(self)@ == old(self)@.insert(old(self).entries@[i as int].0@, c),
    {
        let ghost s = self.entries@;
        let ghost k = s[i as int].0@;
        let (bytes, _) = self.entries.remove(i);
        self.entries.insert(i, (bytes, c));
        proof {
            let t = self.entries@;
            assert(t =~= s.update(i as int, (s[i as int].0, c)));
            assert(self.wf());
            assert forall|key: Seq<u8>| #[trigger] self@.contains_key(key) == old(self)@.insert(k, c).contains_key(key) by {
                if old(self)@.contains_key(key) {
                    let j = choose|j: int| 0 <= j < s.len() && s[j].0@ == key;
                    assert(t[j].0@ == key);
                }
                if self@.contains_key(key) {
                    let j = choose|j: int| 0 <= j < t.len() && t[j].0@ == key;
                    assert(s[j].0@ == key);
                }
            }
            assert forall|key: Seq<u8>| #[trigger] self@.contains_key(key) implies self@[key] == old(self)@.insert(k, c)[key] by {
                let j = choose|j: int| 0 <= j < t.len() && t[j].0@ == key;
                self.lemma_entry(j);
                if j != i {
                    old(self).lemma_entry(j);
                }
            }
            assert(self@ =~= old(self)@.insert(k, c));
        }
    }

    /// Pins `key` once more.
    pub fn pin(&mut self, key: &FileStoreKey)
        requires
            old(self).wf(),
            pins_of(old(self)@, key.hash@) < u64::MAX,
        ensures
            final(self).wf(),
            final(self)@ == old(self)@.insert(key.hash@, (pins_of(old(self)@, key.hash@) + 1) as u64),
    {
        match self.find(&key.hash) {
            Some(i) => {
                proof {
                    self.lemma_entry(i as int);
                }
                let c = self.entries[i].1;
                self.set_count(i, c + 1);
            },
            None => {
                let ghost s = self.entries@;
                let bytes = copy_bytes(&key.hash);
                self.entries.push((bytes, 1));
                proof {
                    let t = self.entries@;
                    let k = key.hash@;
                    assert(self.wf());
                    assert forall|kk: Seq<u8>| #[trigger] self@.contains_key(kk) == old(self)@.insert(k, 1).contains_key(kk) by {
                        if old(self)@.contains_key(kk) {
                            let j = choose|j: int| 0 <= j < s.len() && s[j].0@ == kk;
                            assert(t[j].0@ == kk);
                        }
                        if kk == k {
                            assert(t[s.len() as int].0@ == kk);
                        }
                    }
                    assert forall|kk: Seq<u8>| #[trigger] self@.contains_key(kk) implies self@[kk] == old(self)@.insert(k, 1)[kk] by {
                        let j = choose|j: int| 0 <= j < t.len() && t[j].0@ == kk;
                        self.lemma_entry(j);
                        if j < s.len() {
                            old(self).lemma_entry(j);
                        }
                    }
                    assert(self@ =~= old(self)@.insert(k, 1));
                }
            },
        }
    }

    /// Releases one pin of `key`; returns `false`, changing nothing, when
    /// `key` is not pinned.
    pub fn unpin(&mut self, key: &FileStoreKey) -> (r: bool)
        requires
            old(self).wf(),
        ensures
            final(self).wf(),
            r == (pins_of(old(self)@, key.hash@) > 0),
            r ==> final(self)@ == old(self)@.insert(key.hash@, (pins_of(old(self)@, key.hash@) - 1) as u64),
            !r ==> final(self)@ == old(self)@,
    {
        match self.find(&key.hash) {
            Some(i) => {
                proof {
                    self.lemma_entry(i as int);
                }
                let c = self.entries[i].1;
                if c == 0 {
                    return false;
                }
                self.set_count(i, c - 1);
                true
            },
            None => false,
        }
    }
}

/// Pinning a key twice and unpinning it twice leaves every count as it was.
pub proof fn lemma_pin_twice_unpin_twice(m: Map<Seq<u8>, u64>, k: Seq<u8>)
    requires
        pins_of(m, k) + 2 <= u64::MAX,
    ensures
        ({
            let a = m.insert(k, (pins_of(m, k) + 1) as u64);
            let b = a.insert(k, (pins_of(a, k) + 1) as u64);
            let c = b.insert(k, (pins_of(b, k) - 1) as u64);
            let d = c.insert(k, (pins_of(c, k) - 1) as u64);
            forall|k2: Seq<u8>| pins_of(d, k2) == pins_of(m, k2)
        }),
{
}

} // verus!
