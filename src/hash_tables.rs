use vstd::prelude::*;

use crate::keyed::{describes, keyed_map, lemma_describes_keyed_map, lemma_keyed_map_describes};

verus! {

/// The key type of the table.
pub type Key = usize;

struct Entry {
    key: Key,
    value: String,
}

impl Entry {
    fn new(key: Key, value: String) -> (r: Self)
        ensures
            r.key == key,
            r.value == value,
    {
        Entry { key, value }
    }
}

/// A map from keys to strings with a fixed number of buckets, chained within a bucket.
pub struct HashTable {
    items: Vec<Option<Vec<Entry>>>,
    size: usize,
}

spec fn entry_keys(s: Seq<Entry>) -> Seq<Key> {
    s.map_values(|e: Entry| e.key)
}

spec fn entry_values(s: Seq<Entry>) -> Seq<Seq<char>> {
    s.map_values(|e: Entry| e.value@)
}

spec fn bucket_map(s: Seq<Entry>) -> Map<Key, Seq<char>> {
    keyed_map(entry_keys(s), entry_values(s))
}

impl View for HashTable {
    type V = Map<Key, Seq<char>>;

    closed spec fn view(&self) -> Map<Key, Seq<char>> {
        Map::new(
            |k: Key| bucket_map(self.bucket((k % self.size) as int)).contains_key(k),
            |k: Key| bucket_map(self.bucket((k % self.size) as int))[k],
        )
    }
}

impl HashTable {
    spec fn bucket(&self, b: int) -> Seq<Entry> {
        match self.items@[b] {
            Some(v) => v@,
            None => Seq::empty(),
        }
    }

    pub closed spec fn wf(&self) -> bool {
        &&& self.size > 0
        &&& self.items@.len() == self.size
        &&& forall|b: int| 0 <= b < self.size ==> entry_keys(#[trigger] self.bucket(b)).no_duplicates()
        &&& forall|b: int, i: int|
            0 <= b < self.size && 0 <= i < self.bucket(b).len() ==> (#[trigger] self.bucket(b)[i]).key
                % self.size == b
    }

    /// A table with `size` buckets.
    pub fn new(size: usize) -> (r: Self)
        requires
            size > 0,
        ensures
            r.wf(),
            r@ == Map::<Key, Seq<char>>::empty(),
    {
        let mut items: Vec<Option<Vec<Entry>>> = Vec::new();
        let mut i: usize = 0;
        while i < size
            invariant
                i <= size,
                items@.len() == i,
                forall|j: int| 0 <= j < i ==> (#[trigger] items@[j]).is_none(),
            decreases size - i,
        {
            items.push(None);
            i = i + 1;
        }
        let r = HashTable { items, size };
        proof {
            assert forall|b: int| 0 <= b < size implies #[trigger] r.bucket(b) == Seq::<Entry>::empty() by {}
            assert forall|b: int| 0 <= b < size implies entry_keys(#[trigger] r.bucket(b)).no_duplicates() by {
                assert(entry_keys(r.bucket(b)) =~= Seq::<Key>::empty());
            }
            assert forall|k: Key| !#[trigger] r@.contains_key(k) by {
                let b = (k % size) as int;
                assert(r.bucket(b) == Seq::<Entry>::empty());
                assert(entry_keys(r.bucket(b)) =~= Seq::<Key>::empty());
            }
            assert(r@ =~= Map::<Key, Seq<char>>::empty());
        }
        r
    }

    fn hash(&self, key: Key) -> (r: usize)
        requires
            self.wf(),
        ensures
            r == key % self.size,
            r < self.size,
    {
        key % self.size
    }

    fn position(list: &Vec<Entry>, key: Key) -> (r: Option<usize>)
        ensures
            match r {
                Some(i) => i < list@.len() && list@[i as int].key == key,
                None => !entry_keys(list@).contains(key),
            },
    {
        let mut i: usize = 0;
        while i < list.len()
            invariant
                i <= list@.len(),
                forall|j: int| 0 <= j < i ==> list@[j].key != key,
            decreases list@.len() - i,
        {
            if list[i].key == key {
                return Some(i);
            }
            i = i + 1;
        }
        proof {
            assert forall|j: int| 0 <= j < list@.len() implies entry_keys(list@)[j] != key by {}
        }
        None
    }

    /// The table is unchanged outside bucket `h`, whose map became `m`.
    proof fn lemma_bucket_replaced(&self, o: Self, h: int, m: Map<Key, Seq<char>>)
        requires
            o.wf(),
            self.size == o.size,
            self.items@.len() == o.items@.len(),
            0 <= h < o.size,
            forall|b: int| 0 <= b < o.size && b != h ==> self.items@[b] == o.items@[b],
            entry_keys(self.bucket(h)).no_duplicates(),
            forall|i: int| 0 <= i < self.bucket(h).len() ==> (#[trigger] self.bucket(h)[i]).key % self.size == h,
            bucket_map(self.bucket(h)) == m,
        ensures
            self.wf(),
            forall|k: Key| #[trigger] (k % self.size) != h ==> (self@.contains_key(k) == o@.contains_key(k))
                && (self@.contains_key(k) ==> self@[k] == o@[k]),
            forall|k: Key| #[trigger] (k % self.size) == h ==> (self@.contains_key(k) == m.contains_key(k))
                && (self@.contains_key(k) ==> self@[k] == m[k]),
    {
        assert forall|b: int| 0 <= b < self.size && b != h implies #[trigger] self.bucket(b) == o.bucket(b) by {}
        assert forall|b: int| 0 <= b < self.size implies entry_keys(#[trigger] self.bucket(b)).no_duplicates() by {
            if b != h {
                assert(entry_keys(o.bucket(b)).no_duplicates());
            }
        }
        assert forall|b: int, i: int|
            0 <= b < self.size && 0 <= i < self.bucket(b).len() implies (#[trigger] self.bucket(b)[i]).key
            % self.size == b by {
            if b != h {
                assert(o.bucket(b)[i].key % o.size == b);
            }
        }
        assert forall|k: Key| #[trigger] (k % self.size) != h implies (self@.contains_key(k) == o@.contains_key(k))
            && (self@.contains_key(k) ==> self@[k] == o@[k]) by {
            let b = (k % self.size) as int;
            assert(self.bucket(b) == o.bucket(b));
        }
    }

    /// Stores `value` under `key`, replacing what was there.
    pub fn put(&mut self, key: Key, value: String)
        requires
            old(self).wf(),
        ensures
            final(self).wf(),
            final(self)@ == old(self)@.insert(key, value@),
    {
        let ghost o = *self;
        let hash = self.hash(key);
        let mut list = match self.items[hash].take() {
            Some(list) => list,
            None => Vec::new(),
        };
        let ghost l0 = list@;
        proof {
            assert(l0 == o.bucket(hash as int));
            lemma_keyed_map_describes(entry_keys(l0), entry_values(l0));
        }
        let ghost m = bucket_map(l0).insert(key, value@);
        match Self::position(&list, key) {
            Some(i) => {
                list[i].value = value;
                proof {
                    let l = list@;
                    assert(entry_keys(l) =~= entry_keys(l0));
                    assert(entry_values(l) =~= entry_values(l0).update(i as int, m[key]));
                    assert(entry_keys(l0)[i as int] == key);
                    assert forall|j: int| 0 <= j < entry_keys(l).len() implies m.contains_key(
                        #[trigger] entry_keys(l)[j],
                    ) && m[entry_keys(l)[j]] == entry_values(l)[j] by {
                        if j != i {
                            assert(entry_keys(l0)[j] != key);
                        }
                    }
                    assert forall|k: Key| m.contains_key(k) implies entry_keys(l).contains(k) by {
                        if k == key {
                            assert(entry_keys(l)[i as int] == key);
                        }
                    }
                    lemma_describes_keyed_map(entry_keys(l), entry_values(l), m);
                    assert forall|j: int| 0 <= j < l.len() implies (#[trigger] l[j]).key % o.size == hash by {
                        assert(l0[j].key == l[j].key);
                        assert(o.bucket(hash as int)[j].key % o.size == hash);
                    }
                }
            },
            None => {
                list.push(Entry::new(key, value));
                proof {
                    let l = list@;
                    assert(entry_keys(l) =~= entry_keys(l0).push(key));
                    assert(entry_values(l) =~= entry_values(l0).push(m[key]));
                    assert forall|j: int| 0 <= j < entry_keys(l).len() implies m.contains_key(
                        #[trigger] entry_keys(l)[j],
                    ) && m[entry_keys(l)[j]] == entry_values(l)[j] by {
                        if j < l0.len() {
                            assert(entry_keys(l0).contains(entry_keys(l0)[j]));
                        }
                    }
                    assert forall|k: Key| m.contains_key(k) implies entry_keys(l).contains(k) by {
                        if k == key {
                            assert(entry_keys(l)[l0.len() as int] == key);
                        } else {
                            let j = choose|j: int| 0 <= j < entry_keys(l0).len() && entry_keys(l0)[j] == k;
                            assert(entry_keys(l)[j] == k);
                        }
                    }
                    lemma_describes_keyed_map(entry_keys(l), entry_values(l), m);
                    assert forall|j: int| 0 <= j < l.len() implies (#[trigger] l[j]).key % o.size == hash by {
                        if j < l0.len() {
                            assert(l0[j].key == l[j].key);
                            assert(o.bucket(hash as int)[j].key % o.size == hash);
                        }
                    }
                }
            },
        }
        self.items.set(hash, Some(list));
        proof {
            self.lemma_bucket_replaced(o, hash as int, m);
            o.lemma_bucket_map_of(key);
            assert forall|k: Key| #[trigger] self@.contains_key(k) == o@.insert(key, value@).contains_key(k) by {
                o.lemma_bucket_map_of(k);
            }
            assert forall|k: Key| #[trigger] self@.contains_key(k) implies self@[k] == o@.insert(key, value@)[k] by {
                o.lemma_bucket_map_of(k);
            }
            assert(self@ =~= o@.insert(key, value@));
        }
    }

    proof fn lemma_bucket_map_of(&self, k: Key)
        requires
            self.wf(),
        ensures
            self@.contains_key(k) == bucket_map(self.bucket((k % self.size) as int)).contains_key(k),
            self@.contains_key(k) ==> self@[k] == bucket_map(self.bucket((k % self.size) as int))[k],
    {
    }

    /// The value stored under `key`, if any.
    pub fn get(&self, key: Key) -> (r: Option<String>)
        requires
            self.wf(),
        ensures
            match r {
                Some(s) => self@.contains_key(key) && s@ == self@[key],
                None => !self@.contains_key(key),
            },
    {
        let hash = self.hash(key);
        proof {
            self.lemma_bucket_map_of(key);
        }
        match &self.items[hash] {
            None => {
                proof {
                    assert(entry_keys(self.bucket(hash as int)) =~= Seq::<Key>::empty());
                }
                None
            },
            Some(list) => {
                proof {
                    lemma_keyed_map_describes(entry_keys(list@), entry_values(list@));
                }
                match Self::position(list, key) {
                    Some(i) => {
                        proof {
                            assert(entry_keys(list@)[i as int] == key);
                        }
                        Some(list[i].value.clone())
                    },
                    None => None,
                }
            },
        }
    }

    /// Drops the value stored under `key`, if any.
    pub fn remove(&mut self, key: Key)
        requires
            old(self).wf(),
        ensures
            final(self).wf(),
            final(self)@ == old(self)@.remove(key),
    {
        let ghost o = *self;
        let hash = self.hash(key);
        if self.items[hash].is_none() {
            proof {
                o.lemma_bucket_map_of(key);
                assert(entry_keys(o.bucket(hash as int)) =~= Seq::<Key>::empty());
                assert(o@.remove(key) =~= o@);
            }
            return ;
        }
        let mut list = match self.items[hash].take() {
            Some(list) => list,
            None => Vec::new(),
        };
        let ghost l0 = list@;
        proof {
            assert(l0 == o.bucket(hash as int));
            lemma_keyed_map_describes(entry_keys(l0), entry_values(l0));
        }
        let ghost m = bucket_map(l0).remove(key);
        match Self::position(&list, key) {
            Some(i) => {
                list.remove(i);
                proof {
                    let l = list@;
                    assert(l =~= l0.remove(i as int));
                    assert(entry_keys(l0)[i as int] == key);
                    assert forall|j: int| 0 <= j < l.len() implies #[trigger] l[j] == (if j < i {
                        l0[j]
                    } else {
                        l0[j + 1]
                    }) by {}
                    assert forall|j: int| 0 <= j < entry_keys(l).len() implies m.contains_key(
                        #[trigger] entry_keys(l)[j],
                    ) && m[entry_keys(l)[j]] == entry_values(l)[j] by {
                        let j2 = if j < i { j } else { j + 1 };
                        assert(entry_keys(l0)[j2] != entry_keys(l0)[i as int]);
                        assert(entry_keys(l0)[j2] == entry_keys(l)[j]);
                    }
                    assert forall|k: Key| m.contains_key(k) implies entry_keys(l).contains(k) by {
                        let t = choose|t: int| 0 <= t < entry_keys(l0).len() && entry_keys(l0)[t] == k;
                        if t < i {
                            assert(entry_keys(l)[t] == k);
                        } else {
                            assert(t != i);
                            assert(entry_keys(l)[t - 1] == k);
                        }
                    }
                    assert(entry_keys(l).no_duplicates()) by {
                        assert forall|a: int, b: int|
                            0 <= a < l.len() && 0 <= b < l.len() && a != b implies entry_keys(l)[a]
                            != entry_keys(l)[b] by {
                            let a2 = if a < i { a } else { a + 1 };
                            let b2 = if b < i { b } else { b + 1 };
                            assert(entry_keys(l0)[a2] != entry_keys(l0)[b2]);
                        }
                    }
                    lemma_describes_keyed_map(entry_keys(l), entry_values(l), m);
                    assert forall|j: int| 0 <= j < l.len() implies (#[trigger] l[j]).key % o.size == hash by {
                        let j2 = if j < i { j } else { j + 1 };
                        assert(o.bucket(hash as int)[j2].key % o.size == hash);
                    }
                }
            },
            None => {
                proof {
                    assert(bucket_map(l0).remove(key) =~= bucket_map(l0));
                    assert forall|j: int| 0 <= j < l0.len() implies (#[trigger] l0[j]).key % o.size == hash by {
                        assert(o.bucket(hash as int)[j].key % o.size == hash);
                    }
                }
            },
        }
        self.items.set(hash, Some(list));
        proof {
            self.lemma_bucket_replaced(o, hash as int, m);
            assert forall|k: Key| #[trigger] self@.contains_key(k) == o@.remove(key).contains_key(k) by {
                o.lemma_bucket_map_of(k);
            }
            assert forall|k: Key| #[trigger] self@.contains_key(k) implies self@[k] == o@.remove(key)[k] by {
                o.lemma_bucket_map_of(k);
            }
            assert(self@ =~= o@.remove(key));
        }
    }
}

} // verus!
