use core::hash::{Hash, Hasher};
use vstd::prelude::*;
use vstd::std_specs::cmp::PartialEqSpec;

verus! {

/// Number of buckets of every map.
pub const INITIAL_CAPACITY: usize = 150_000;

/// Keys whose `==` is exactly equality of values.
pub open spec fn key_eq_exact<K: PartialEq>() -> bool {
    &&& K::obeys_eq_spec()
    &&& forall|a: K, b: K| #[trigger] a.eq_spec(&b) <==> a == b
}

/// Bucket `i` of `entries` holds key `k`.
pub open spec fn slot_holds<K, V>(entries: Seq<Option<(K, V)>>, i: int, k: K) -> bool {
    &&& 0 <= i < entries.len()
    &&& entries[i] is Some
    &&& entries[i]->Some_0.0 == k
}

/// Some bucket of `entries` holds key `k`.
pub open spec fn has_key<K, V>(entries: Seq<Option<(K, V)>>, k: K) -> bool {
    exists|i: int| #[trigger] slot_holds(entries, i, k)
}

/// Some bucket of `entries` is empty.
pub open spec fn has_vacancy<K, V>(entries: Seq<Option<(K, V)>>) -> bool {
    exists|i: int| 0 <= i < entries.len() && #[trigger] entries[i] is None
}

/// No key is held by two buckets.
pub open spec fn keys_unique<K, V>(entries: Seq<Option<(K, V)>>) -> bool {
    forall|i: int, j: int, k: K|
        #[trigger] slot_holds(entries, i, k) && #[trigger] slot_holds(entries, j, k) ==> i == j
}

/// The key-value pairs held by `entries`.
pub open spec fn entries_map<K, V>(entries: Seq<Option<(K, V)>>) -> Map<K, V> {
    Map::new(
        |k: K| has_key(entries, k),
        |k: K| entries[choose|i: int| slot_holds(entries, i, k)]->Some_0.1,
    )
}

proof fn lemma_map_value<K, V>(entries: Seq<Option<(K, V)>>, j: int, k: K)
    requires
        keys_unique(entries),
        slot_holds(entries, j, k),
    ensures
        entries_map(entries).contains_key(k),
        entries_map(entries)[k] == entries[j]->Some_0.1,
{
    assert(has_key(entries, k));
    let i = choose|i: int| slot_holds(entries, i, k);
    assert(slot_holds(entries, i, k) && slot_holds(entries, j, k));
}

proof fn lemma_map_after_put<K, V>(before: Seq<Option<(K, V)>>, j: int, key: K, value: V)
    requires
        keys_unique(before),
        keys_unique(before.update(j, Some((key, value)))),
        0 <= j < before.len(),
        before[j] is None || slot_holds(before, j, key),
        before[j] is None ==> !has_key(before, key),
    ensures
        entries_map(before.update(j, Some((key, value)))) == entries_map(before).insert(key, value),
{
    let after = before.update(j, Some((key, value)));
    assert(slot_holds(after, j, key));
    lemma_map_value(after, j, key);
    assert forall|k: K| k != key implies has_key(after, k) == has_key(before, k) by {
        if has_key(after, k) {
            let i = choose|i: int| slot_holds(after, i, k);
            assert(slot_holds(before, i, k));
        }
        if has_key(before, k) {
            let i = choose|i: int| slot_holds(before, i, k);
            assert(slot_holds(after, i, k));
        }
    }
    assert forall|k: K| k != key && has_key(before, k) implies entries_map(after)[k] == entries_map(
        before,
    )[k] by {
        let i = choose|i: int| slot_holds(before, i, k);
        assert(slot_holds(after, i, k));
        lemma_map_value(after, i, k);
        lemma_map_value(before, i, k);
    }
    assert(entries_map(after) =~= entries_map(before).insert(key, value));
}

proof fn lemma_map_after_clear<K, V>(before: Seq<Option<(K, V)>>, j: int, key: K)
    requires
        keys_unique(before),
        slot_holds(before, j, key),
    ensures
        keys_unique(before.update(j, None)),
        entries_map(before.update(j, None)) == entries_map(before).remove(key),
{
    let after = before.update(j, None::<(K, V)>);
    assert forall|a: int, b: int, k: K|
        #[trigger] slot_holds(after, a, k) && #[trigger] slot_holds(after, b, k) implies a == b by {
        assert(slot_holds(before, a, k) && slot_holds(before, b, k));
    }
    assert(!has_key(after, key)) by {
        if has_key(after, key) {
            let i = choose|i: int| slot_holds(after, i, key);
            assert(slot_holds(before, i, key));
        }
    }
    assert forall|k: K| k != key implies has_key(after, k) == has_key(before, k) by {
        if has_key(after, k) {
            let i = choose|i: int| slot_holds(after, i, k);
            assert(slot_holds(before, i, k));
        }
        if has_key(before, k) {
            let i = choose|i: int| slot_holds(before, i, k);
            assert(slot_holds(after, i, k));
        }
    }
    assert forall|k: K| k != key && has_key(before, k) implies entries_map(after)[k] == entries_map(
        before,
    )[k] by {
        let i = choose|i: int| slot_holds(before, i, k);
        assert(slot_holds(after, i, k));
        lemma_map_value(after, i, k);
        lemma_map_value(before, i, k);
    }
    assert(entries_map(after) =~= entries_map(before).remove(key));
}

/// Hash map with open addressing over a fixed number of buckets. A key's
/// hash picks the bucket where the search for it starts.
pub struct HashMap<K, V> where K: Eq + Hash {
    buckets: Vec<Option<(K, V)>>,
    capacity: usize,
}

/// Relies on `core::hash::SipHasher` (fixed keys) through `Hash::hash` and
/// `Hasher::finish`: the 64-bit hash of `key`. Nothing is claimed of its value.
#[verifier::external_body]
#[allow(deprecated)]
fn sip_hash<K: Hash>(key: &K) -> u64 {
    let mut hasher = core::hash::SipHasher::new();
    key.hash(&mut hasher);
    hasher.finish()
}

impl<K: Eq + Hash + Clone, V> View for HashMap<K, V> {
    type V = Map<K, V>;

    open spec fn view(&self) -> Map<K, V> {
        entries_map(self.entries())
    }
}

impl<K: Eq + Hash + Clone, V> HashMap<K, V> {
    /// The buckets, in order.
    pub closed spec fn entries(&self) -> Seq<Option<(K, V)>> {
        self.buckets@
    }

    /// The map's buckets are all there and no key is held twice.
    pub closed spec fn wf(&self) -> bool {
        &&& self.buckets@.len() == self.capacity
        &&& self.capacity == INITIAL_CAPACITY
        &&& keys_unique(self.buckets@)
    }

    /// A map with `INITIAL_CAPACITY` empty buckets.
    pub fn new() -> (r: Self)
        ensures
            r.wf(),
            r@ == Map::<K, V>::empty(),
            r.entries().len() == INITIAL_CAPACITY,
            forall|i: int| 0 <= i < r.entries().len() ==> #[trigger] r.entries()[i] is None,
    {
        let capacity = INITIAL_CAPACITY;
        let mut buckets: Vec<Option<(K, V)>> = Vec::with_capacity(capacity);
        let mut i: usize = 0;
        while i < capacity
            invariant
                i <= capacity,
                capacity == INITIAL_CAPACITY,
                buckets@.len() == i,
                forall|j: int| 0 <= j < i ==> #[trigger] buckets@[j] is None,
            decreases capacity - i,
        {
            buckets.push(None);
            i = i + 1;
        }
        let r = HashMap { buckets, capacity };
        proof {
            assert forall|a: int, b: int, k: K|
                #[trigger] slot_holds(r.buckets@, a, k) && #[trigger] slot_holds(
                    r.buckets@,
                    b,
                    k,
                ) implies a == b by {}
            assert(r@ =~= Map::<K, V>::empty());
        }
        r
    }

    /// The bucket where the search for `key` starts.
    fn hash(&self, key: &K) -> (r: usize)
        requires
            self.wf(),
        ensures
            r < self.entries().len(),
    {
        (sip_hash(key) % (self.capacity as u64)) as usize
    }

    /// The bucket in `[lo, hi)` that holds `key`, if any.
    fn find_in(&self, key: &K, lo: usize, hi: usize) -> (r: Option<usize>)
        requires
            self.wf(),
            key_eq_exact::<K>(),
            lo <= hi <= self.entries().len(),
        ensures
            match r {
                Some(j) => lo <= j < hi && slot_holds(self.entries(), j as int, *key),
                None => forall|j: int| lo <= j < hi ==> !slot_holds(self.entries(), j, *key),
            },
    {
        let mut j: usize = lo;
        while j < hi
            invariant
                self.wf(),
                key_eq_exact::<K>(),
                lo <= j <= hi <= self.entries().len(),
                forall|t: int| lo <= t < j ==> !slot_holds(self.entries(), t, *key),
            decreases hi - j,
        {
            match &self.buckets[j] {
                Some(entry) => {
                    let same = entry.0.eq(key);
                    if same {
                        return Some(j);
                    }
                },
                None => {},
            }
            j = j + 1;
        }
        None
    }

    /// The bucket that holds `key`, searching from bucket `h` round to it.
    fn find(&self, key: &K, h: usize) -> (r: Option<usize>)
        requires
            self.wf(),
            key_eq_exact::<K>(),
            h < self.entries().len(),
        ensures
            match r {
                Some(j) => slot_holds(self.entries(), j as int, *key),
                None => !has_key(self.entries(), *key),
            },
    {
        match self.find_in(key, h, self.capacity) {
            Some(j) => Some(j),
            None => self.find_in(key, 0, h),
        }
    }

    /// An empty bucket in `[lo, hi)`, if any.
    fn vacant_in(&self, lo: usize, hi: usize) -> (r: Option<usize>)
        requires
            self.wf(),
            lo <= hi <= self.entries().len(),
        ensures
            match r {
                Some(j) => lo <= j < hi && self.entries()[j as int] is None,
                None => forall|j: int| lo <= j < hi ==> #[trigger] self.entries()[j] is Some,
            },
    {
        let mut j: usize = lo;
        while j < hi
            invariant
                self.wf(),
                lo <= j <= hi <= self.entries().len(),
                forall|t: int| lo <= t < j ==> #[trigger] self.entries()[t] is Some,
            decreases hi - j,
        {
            if self.buckets[j].is_none() {
                return Some(j);
            }
            j = j + 1;
        }
        None
    }

    /// The first empty bucket from bucket `h` round to it.
    fn vacant(&self, h: usize) -> (r: Option<usize>)
        requires
            self.wf(),
            h < self.entries().len(),
        ensures
            match r {
                Some(j) => 0 <= j < self.entries().len() && self.entries()[j as int] is None,
                None => !has_vacancy(self.entries()),
            },
    {
        match self.vacant_in(h, self.capacity) {
            Some(j) => Some(j),
            None => self.vacant_in(0, h),
        }
    }

    /// Maps `key` to `value`: the bucket that holds `key` is overwritten, or
    /// else an empty bucket takes the pair.
    pub fn insert(&mut self, key: K, value: V)
        requires
            old(self).wf(),
            key_eq_exact::<K>(),
            old(self)@.contains_key(key) || has_vacancy(old(self).entries()),
        ensures
            final(self).wf(),
            final(self)@ == old(self)@.insert(key, value),
    {
        let h = self.hash(&key);
        let ghost before = self.buckets@;
        match self.find(&key, h) {
            Some(j) => {
                self.buckets.set(j, Some((key, value)));
                proof {
                    self.lemma_unique_after_put(before, j as int, key, value);
                    lemma_map_after_put(before, j as int, key, value);
                }
            },
            None => {
                match self.vacant(h) {
                    Some(j) => {
                        self.buckets.set(j, Some((key, value)));
                        proof {
                            self.lemma_unique_after_put(before, j as int, key, value);
                            lemma_map_after_put(before, j as int, key, value);
                        }
                    },
                    None => {},
                }
            },
        }
    }

    proof fn lemma_unique_after_put(&self, before: Seq<Option<(K, V)>>, j: int, key: K, value: V)
        requires
            keys_unique(before),
            0 <= j < before.len(),
            before[j] is None || slot_holds(before, j, key),
            before[j] is None ==> !has_key(before, key),
            self.buckets@ == before.update(j, Some((key, value))),
        ensures
            keys_unique(self.buckets@),
    {
        let after = self.buckets@;
        assert forall|a: int, b: int, k: K|
            #[trigger] slot_holds(after, a, k) && #[trigger] slot_holds(after, b, k) implies a
            == b by {
            if a != j && b != j {
                assert(slot_holds(before, a, k) && slot_holds(before, b, k));
            } else if a == j && b != j {
                assert(slot_holds(before, b, key));
                if before[j] is None {
                    assert(has_key(before, key));
                } else {
                    assert(slot_holds(before, j, key));
                }
            } else if a != j && b == j {
                assert(slot_holds(before, a, key));
                if before[j] is None {
                    assert(has_key(before, key));
                } else {
                    assert(slot_holds(before, j, key));
                }
            }
        }
    }

    /// The value that `key` maps to, if any.
    pub fn get(&self, key: &K) -> (r: Option<&V>)
        requires
            self.wf(),
            key_eq_exact::<K>(),
        ensures
            match r {
                Some(v) => self@.contains_key(*key) && *v == self@[*key],
                None => !self@.contains_key(*key),
            },
    {
        let h = self.hash(key);
        match self.find(key, h) {
            Some(j) => {
                proof {
                    lemma_map_value(self.buckets@, j as int, *key);
                }
                match &self.buckets[j] {
                    Some(entry) => Some(&entry.1),
                    None => None,
                }
            },
            None => None,
        }
    }

    /// Takes `key` out of the map, returning the value it mapped to; the
    /// bucket that held it becomes empty.
    pub fn remove(&mut self, key: &K) -> (r: Option<V>)
        requires
            old(self).wf(),
            key_eq_exact::<K>(),
        ensures
            final(self).wf(),
            final(self)@ == old(self)@.remove(*key),
            r == (if old(self)@.contains_key(*key) {
                Some(old(self)@[*key])
            } else {
                None::<V>
            }),
    {
        let h = self.hash(key);
        let ghost before = self.buckets@;
        match self.find(key, h) {
            Some(j) => {
                let mut out: Option<(K, V)> = None;
                self.buckets.set_and_swap(j, &mut out);
                proof {
                    lemma_map_value(before, j as int, *key);
                    lemma_map_after_clear(before, j as int, *key);
                }
                match out {
                    Some(entry) => Some(entry.1),
                    None => None,
                }
            },
            None => {
                proof {
                    assert(entries_map(before).remove(*key) =~= entries_map(before));
                }
                None
            },
        }
    }

    /// Walks the buckets in order, yielding each pair held.
    pub fn iter(&self) -> (r: HashMapIter<'_, K, V>)
        requires
            self.wf(),
        ensures
            r.wf(),
            r.entries() == self.entries(),
            r.index() == 0,
    {
        HashMapIter { map: self, current_index: 0 }
    }
}

/// Walk over the pairs of a `HashMap`, bucket by bucket.
pub struct HashMapIter<'a, K, V> where K: Eq + Hash {
    map: &'a HashMap<K, V>,
    current_index: usize,
}

impl<'a, K: Eq + Hash + Clone, V> HashMapIter<'a, K, V> {
    /// The buckets walked over.
    pub closed spec fn entries(&self) -> Seq<Option<(K, V)>> {
        self.map.entries()
    }

    /// The next bucket to look at.
    pub closed spec fn index(&self) -> nat {
        self.current_index as nat
    }

    /// The walk stays within the map's buckets.
    pub closed spec fn wf(&self) -> bool {
        &&& self.map.wf()
        &&& self.current_index <= self.map.entries().len()
    }

    /// The pair in the next non-empty bucket, or `None` once every bucket
    /// has been looked at.
    pub fn next(&mut self) -> (r: Option<(&'a K, &'a V)>)
        requires
            old(self).wf(),
        ensures
            final(self).wf(),
            final(self).entries() == old(self).entries(),
            forall|t: int|
                old(self).index() <= t < final(self).index() - 1 ==> #[trigger] old(
                    self,
                ).entries()[t] is None,
            match r {
                Some(pair) => {
                    &&& old(self).index() < final(self).index()
                    &&& old(self).entries()[final(self).index() - 1] == Some((*pair.0, *pair.1))
                },
                None => {
                    &&& final(self).index() == old(self).entries().len()
                    &&& forall|t: int|
                        old(self).index() <= t < old(self).entries().len() ==> #[trigger] old(
                            self,
                        ).entries()[t] is None
                },
            },
    {
        while self.current_index < self.map.capacity
            invariant
                self.wf(),
                self.map == old(self).map,
                old(self).index() <= self.index(),
                forall|t: int| old(self).index() <= t < self.index() ==> #[trigger] self.entries()[t] is None,
            decreases self.map.capacity - self.current_index,
        {
            let i = self.current_index;
            let map = self.map;
            match &map.buckets[i] {
                Some(entry) => {
                    self.current_index = i + 1;
                    return Some((&entry.0, &entry.1));
                },
                None => {
                    assert(self.entries()[i as int] is None);
                    self.current_index = i + 1;
                },
            }
        }
        None
    }
}

} // verus!
