//! The in-memory index: for each live key, where its freshest record lies.
use vstd::prelude::*;

verus! {

/// Where the value of a live key is stored.
#[derive(Clone, Copy, PartialEq, Eq, Structural, Debug)]
pub struct Entry {
    pub file_id: u64,
    pub value_offset: u64,
    pub value_size: u32,
    pub timestamp: u64,
}

/// Whether two byte strings are equal.
pub fn bytes_eq(a: &[u8], b: &[u8]) -> (r: bool)
    ensures
        r == (a@ == b@),
{
    if a.len() != b.len() {
        return false;
    }
    let mut i: usize = 0;
    while i < a.len()
        invariant
            a@.len() == b@.len(),
            i <= a@.len(),
            forall|j: int| 0 <= j < i ==> a@[j] == b@[j],
        decreases a@.len() - i,
    {
        if a[i] != b[i] {
            return false;
        }
        i = i + 1;
    }
    assert(a@ =~= b@);
    true
}

/// A map from keys to entries, keys kept once each in insertion order.
pub struct KeyDir {
    keys: Vec<Vec<u8>>,
    entries: Vec<Entry>,
    model: Ghost<Map<Seq<u8>, Entry>>,
}

impl View for KeyDir {
    type V = Map<Seq<u8>, Entry>;

    closed spec fn view(&self) -> Map<Seq<u8>, Entry> {
        self.model@
    }
}

/// The entry of `key` in `m`, if any.
pub open spec fn lookup(m: Map<Seq<u8>, Entry>, key: Seq<u8>) -> Option<Entry> {
    if m.contains_key(key) {
        Some(m[key])
    } else {
        None
    }
}

impl KeyDir {
    /// The keys in the order the index holds them.
    pub closed spec fn key_seq(&self) -> Seq<Seq<u8>> {
        self.keys@.map_values(|k: Vec<u8>| k@)
    }

    pub closed spec fn wf(&self) -> bool {
        &&& self.keys@.len() == self.entries@.len()
        &&& forall|i: int|
            0 <= i < self.keys@.len() ==> #[trigger] self.model@.contains_key(self.keys@[i]@)
                && self.model@[self.keys@[i]@] == self.entries@[i]
        &&& forall|k: Seq<u8>|
            #[trigger] self.model@.contains_key(k) ==> exists|i: int|
                0 <= i < self.keys@.len() && self.keys@[i]@ == k
        &&& forall|i: int, j: int|
            0 <= i < self.keys@.len() && 0 <= j < self.keys@.len() && i != j ==> self.keys@[i]@
                != self.keys@[j]@
    }

    /// What the key order says of the map: each key once, and exactly the
    /// keys of the map.
    pub proof fn lemma_keys(&self)
        requires
            self.wf(),
        ensures
            self.key_seq().no_duplicates(),
            forall|i: int| 0 <= i < self.key_seq().len() ==> #[trigger] self@.contains_key(self.key_seq()[i]),
            forall|k: Seq<u8>| #[trigger] self@.contains_key(k) ==> self.key_seq().contains(k),
            self@.dom().finite(),
    {
        assert forall|k: Seq<u8>| #[trigger] self@.contains_key(k) implies self.key_seq().contains(k) by {
            let i = choose|i: int| 0 <= i < self.keys@.len() && self.keys@[i]@ == k;
            assert(self.key_seq()[i] == k);
        }
        assert forall|i: int| 0 <= i < self.key_seq().len() implies #[trigger] self@.contains_key(self.key_seq()[i]) by {
            assert(self.model@.contains_key(self.keys@[i]@));
        }
        assert forall|i: int, j: int|
            0 <= i < self.key_seq().len() && 0 <= j < self.key_seq().len() && i != j implies self.key_seq()[i]
            != self.key_seq()[j] by {
            assert(self.keys@[i]@ != self.keys@[j]@);
        }
        assert(self@.dom() =~= self.key_seq().to_set());
        self.key_seq().unique_seq_to_set();
    }

    pub fn new() -> (r: KeyDir)
        ensures
            r.wf(),
            r@ == Map::<Seq<u8>, Entry>::empty(),
    {
        KeyDir { keys: Vec::new(), entries: Vec::new(), model: Ghost(Map::empty()) }
    }

    /// The number of live keys.
    pub fn len(&self) -> (r: usize)
        requires
            self.wf(),
        ensures
            r == self.key_seq().len(),
    {
        self.keys.len()
    }

    /// The `i`-th key and its entry.
    pub fn at(&self, i: usize) -> (r: (&Vec<u8>, Entry))
        requires
            self.wf(),
            i < self.key_seq().len(),
        ensures
            r.0@ == self.key_seq()[i as int],
            self@.contains_key(r.0@),
            self@[r.0@] == r.1,
    {
        (&self.keys[i], self.entries[i])
    }

    fn find(&self, key: &[u8]) -> (r: Option<usize>)
        requires
            self.wf(),
        ensures
            match r {
                Some(i) => i < self.keys@.len() && self.keys@[i as int]@ == key@,
                None => !self@.contains_key(key@),
            },
    {
        let mut i: usize = 0;
        while i < self.keys.len()
            invariant
                self.wf(),
                i <= self.keys@.len(),
                forall|j: int| 0 <= j < i ==> self.keys@[j]@ != key@,
            decreases self.keys@.len() - i,
        {
            if bytes_eq(self.keys[i].as_slice(), key) {
                return Some(i);
            }
            i = i + 1;
        }
        None
    }

    /// The entry of `key`.
    pub fn get(&self, key: &[u8]) -> (r: Option<Entry>)
        requires
            self.wf(),
        ensures
            r == lookup(self@, key@),
    {
        match self.find(key) {
            Some(i) => Some(self.entries[i]),
            None => None,
        }
    }

    /// Sets the entry of `key`, returning the one it replaces.
    pub fn upsert(&mut self, key: Vec<u8>, e: Entry) -> (prior: Option<Entry>)
        requires
            old(self).wf(),
        ensures
            final(self).wf(),
            final(self)@ == old(self)@.insert(key@, e),
            prior == lookup(old(self)@, key@),
    {
        match self.find(key.as_slice()) {
            Some(i) => {
                let p = self.entries[i];
                self.entries.set(i, e);
                self.model = Ghost(self.model@.insert(key@, e));
                Some(p)
            },
            None => {
                let ghost k = key@;
                self.keys.push(key);
                self.entries.push(e);
                self.model = Ghost(self.model@.insert(k, e));
                assert forall|q: Seq<u8>| #[trigger] self.model@.contains_key(q) implies exists|i: int|
                    0 <= i < self.keys@.len() && self.keys@[i]@ == q by {
                    if q != k {
                        assert(old(self).model@.contains_key(q));
                        let i = choose|i: int| 0 <= i < old(self).keys@.len() && old(self).keys@[i]@ == q;
                        assert(self.keys@[i]@ == q);
                    } else {
                        assert(self.keys@[self.keys@.len() - 1]@ == q);
                    }
                }
                None
            },
        }
    }

    /// Removes `key`, returning the entry it had.
    pub fn remove(&mut self, key: &[u8]) -> (prior: Option<Entry>)
        requires
            old(self).wf(),
        ensures
            final(self).wf(),
            final(self)@ == old(self)@.remove(key@),
            prior == lookup(old(self)@, key@),
    {
        match self.find(key) {
            Some(i) => {
                let ghost ok = self.keys@;
                let ghost oe = self.entries@;
                self.keys.remove(i);
                let p = self.entries.remove(i);
                self.model = Ghost(self.model@.remove(key@));
                assert forall|j: int| 0 <= j < self.keys@.len() implies #[trigger] self.model@.contains_key(self.keys@[j]@)
                    && self.model@[self.keys@[j]@] == self.entries@[j] by {
                    let oj = if j < i { j } else { j + 1 };
                    assert(self.keys@[j] == ok[oj]);
                    assert(self.entries@[j] == oe[oj]);
                }
                assert forall|q: Seq<u8>| #[trigger] self.model@.contains_key(q) implies exists|j: int|
                    0 <= j < self.keys@.len() && self.keys@[j]@ == q by {
                    let oj = choose|oj: int| 0 <= oj < ok.len() && ok[oj]@ == q;
                    assert(oj != i);
                    let j = if oj < i { oj } else { oj - 1 };
                    assert(self.keys@[j]@ == q);
                }
                assert forall|a: int, b: int|
                    0 <= a < self.keys@.len() && 0 <= b < self.keys@.len() && a != b implies self.keys@[a]@
                    != self.keys@[b]@ by {
                    let oa = if a < i { a } else { a + 1 };
                    let ob = if b < i { b } else { b + 1 };
                    assert(self.keys@[a] == ok[oa]);
                    assert(self.keys@[b] == ok[ob]);
                }
                Some(p)
            },
            None => {
                assert(self.model@.remove(key@) =~= self.model@);
                None
            },
        }
    }

    /// Replaces the entry of `key` by `new` only where it is still `expected`.
    pub fn compare_and_update(&mut self, key: &[u8], expected: Entry, new: Entry) -> (r: bool)
        requires
            old(self).wf(),
        ensures
            final(self).wf(),
            r == (lookup(old(self)@, key@) == Some(expected)),
            r ==> final(self)@ == old(self)@.insert(key@, new),
            !r ==> final(self)@ == old(self)@,
    {
        match self.find(key) {
            Some(i) => {
                assert(self.model@.contains_key(self.keys@[i as int]@));
                if self.entries[i] == expected {
                    self.entries.set(i, new);
                    self.model = Ghost(self.model@.insert(key@, new));
                    true
                } else {
                    false
                }
            },
            None => false,
        }
    }
}

} // verus!
