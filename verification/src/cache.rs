//! The key-value store: string keys, string values, and lazy per-key
//! time-to-live expiry, evaluated against a caller-supplied monotonic
//! clock in milliseconds.
//!
//! The store itself is a plain sequential structure; the server shares
//! one instance across connections behind a single mutual-exclusion
//! lock, a deliberate coarse-grained simplification for a point-access
//! workload.

use vstd::prelude::*;

verus! {

/// The mathematical model of a stored entry.
pub struct ItemModel {
    pub value: Seq<u8>,
    pub created: int,
    pub expires: Option<u64>,
}

/// One stored value, stamped with its creation time and an optional
/// time-to-live in milliseconds.
#[derive(Debug)]
pub struct CacheItem {
    value: Vec<u8>,
    created: u64,
    expires: Option<u64>,
}

impl View for CacheItem {
    type V = ItemModel;

    closed spec fn view(&self) -> ItemModel {
        ItemModel { value: self.value@, created: self.created as int, expires: self.expires }
    }
}

/// Whether an entry is expired at time `now`: it carries a
/// time-to-live and strictly more than that many milliseconds have
/// elapsed since it was created. An entry at exactly its deadline is
/// still live.
pub open spec fn spec_is_expired(item: ItemModel, now: int) -> bool {
    match item.expires {
        Some(ttl) => now - item.created > ttl,
        None => false,
    }
}

impl CacheItem {
    /// Builds a live entry stamped at time `now`.
    pub fn new(value: &Vec<u8>, expires: &Option<u64>, now: u64) -> (r: CacheItem)
        ensures
            r@ == (ItemModel { value: value@, created: now as int, expires: *expires }),
    {
        CacheItem {
            value: vstd::slice::slice_to_vec(value.as_slice()),
            created: now,
            expires: match expires {
                Some(t) => Some(*t),
                None => None,
            },
        }
    }

    /// Evaluates the lazy-expiry rule against the clock reading `now`.
    pub fn is_expired(&self, now: u64) -> (r: bool)
        ensures
            r == spec_is_expired(self@, now as int),
    {
        match self.expires {
            Some(t) => now > self.created && now - self.created > t,
            None => false,
        }
    }
}

/// The mapping a sequence of key-entry pairs denotes; a later pair
/// with the same key wins.
pub open spec fn entries_map(s: Seq<(Vec<u8>, CacheItem)>) -> Map<Seq<u8>, ItemModel>
    decreases s.len(),
{
    if s.len() == 0 {
        Map::empty()
    } else {
        entries_map(s.drop_last()).insert(s.last().0@, s.last().1@)
    }
}

/// Whether the pairs carry pairwise distinct keys.
pub open spec fn distinct_keys(s: Seq<(Vec<u8>, CacheItem)>) -> bool {
    forall|i: int, j: int| 0 <= i < j < s.len() ==> s[i].0@ != s[j].0@
}

/// The in-memory mapping from key to entry.
#[derive(Debug)]
pub struct Cache {
    store: Vec<(Vec<u8>, CacheItem)>,
}

impl View for Cache {
    type V = Map<Seq<u8>, ItemModel>;

    closed spec fn view(&self) -> Map<Seq<u8>, ItemModel> {
        entries_map(self.store@)
    }
}

/// What a lookup returns: the entry's value, if the key holds an entry
/// that is live at time `now`. A missing key and an expired entry are
/// the same absent result.
pub open spec fn spec_get(m: Map<Seq<u8>, ItemModel>, key: Seq<u8>, now: int) -> Option<Seq<u8>> {
    if m.contains_key(key) && !spec_is_expired(m[key], now) {
        Some(m[key].value)
    } else {
        None
    }
}

/// What a store does: it unconditionally replaces any entry for the
/// key with a fresh live entry stamped at time `now`.
pub open spec fn spec_set(
    m: Map<Seq<u8>, ItemModel>,
    key: Seq<u8>,
    value: Seq<u8>,
    expires: Option<u64>,
    now: int,
) -> Map<Seq<u8>, ItemModel> {
    m.insert(key, ItemModel { value: value, created: now, expires: expires })
}

/// A key is in the denoted mapping exactly when some pair carries it.
proof fn lemma_entries_map_contains(s: Seq<(Vec<u8>, CacheItem)>, key: Seq<u8>)
    ensures
        entries_map(s).contains_key(key) <==> exists|i: int| 0 <= i < s.len() && s[i].0@ == key,
    decreases s.len(),
{
    if s.len() > 0 {
        lemma_entries_map_contains(s.drop_last(), key);
        if s.last().0@ == key {
            assert(s[s.len() - 1].0@ == key);
        } else if entries_map(s).contains_key(key) {
            let i = choose|i: int| 0 <= i < s.drop_last().len() && s.drop_last()[i].0@ == key;
            assert(s[i].0@ == key);
        } else if exists|i: int| 0 <= i < s.len() && s[i].0@ == key {
            let i = choose|i: int| 0 <= i < s.len() && s[i].0@ == key;
            assert(s.drop_last()[i].0@ == key);
        }
    }
}

/// With distinct keys, the pair that carries `key` decides its entry.
proof fn lemma_entries_map_at(s: Seq<(Vec<u8>, CacheItem)>, key: Seq<u8>, i: int)
    requires
        distinct_keys(s),
        0 <= i < s.len(),
        s[i].0@ == key,
    ensures
        entries_map(s).contains_key(key),
        entries_map(s)[key] == s[i].1@,
    decreases s.len(),
{
    lemma_entries_map_contains(s, key);
    if i == s.len() - 1 {
    } else {
        assert(distinct_keys(s.drop_last()));
        assert(s.drop_last()[i].0@ == key);
        lemma_entries_map_at(s.drop_last(), key, i);
        assert(s.last().0@ != key);
    }
}

/// Compares two byte strings for equality.
pub fn bytes_eq(a: &Vec<u8>, b: &Vec<u8>) -> (r: bool)
    ensures
        r == (a@ == b@),
{
    if a.len() != b.len() {
        return false;
    }
    let mut i: usize = 0;
    while i < a.len()
        invariant
            i <= a.len(),
            a@.len() == b@.len(),
            forall|j: int| 0 <= j < i ==> a@[j] == b@[j],
        decreases a.len() - i,
    {
        if a[i] != b[i] {
            return false;
        }
        i = i + 1;
    }
    proof {
        assert(a@ =~= b@);
    }
    true
}

impl Cache {
    /// Whether the representation is well formed: no key occurs twice.
    pub closed spec fn wf(&self) -> bool {
        distinct_keys(self.store@)
    }

    /// Builds an empty store.
    pub fn new() -> (r: Cache)
        ensures
            r@ == Map::<Seq<u8>, ItemModel>::empty(),
            r.wf(),
    {
        Cache { store: Vec::with_capacity(1024) }
    }

    /// Finds the position of `key`, if any pair carries it.
    fn find(&self, key: &Vec<u8>) -> (r: Option<usize>)
        ensures
            match r {
                Some(i) => i < self.store@.len() && self.store@[i as int].0@ == key@,
                None => forall|j: int| 0 <= j < self.store@.len() ==> self.store@[j].0@ != key@,
            },
    {
        let mut i: usize = 0;
        while i < self.store.len()
            invariant
                i <= self.store@.len(),
                forall|j: int| 0 <= j < i ==> self.store@[j].0@ != key@,
            decreases self.store@.len() - i,
        {
            if bytes_eq(&self.store[i].0, key) {
                return Some(i);
            }
            i = i + 1;
        }
        None
    }

    /// Unconditionally overwrites any entry for `key` with a fresh
    /// live entry stamped at time `now`. Never fails; any previous
    /// entry is discarded.
    pub fn set(&mut self, key: &Vec<u8>, value: &Vec<u8>, expires: &Option<u64>, now: u64)
        requires
            old(self).wf(),
        ensures
            final(self).wf(),
            final(self)@ == spec_set(old(self)@, key@, value@, *expires, now as int),
    {
        let item = CacheItem::new(value, expires, now);
        let owned_key = vstd::slice::slice_to_vec(key.as_slice());
        let ghost s0 = self.store@;
        match self.find(key) {
            Some(i) => {
                self.store[i] = (owned_key, item);
                proof {
                    lemma_set_update(s0, self.store@, key@, i as int);
                }
            },
            None => {
                self.store.push((owned_key, item));
                proof {
                    assert(self.store@.drop_last() =~= s0);
                    lemma_entries_map_contains(s0, key@);
                }
            },
        }
    }

    /// Looks `key` up at time `now`: its value if a live entry exists,
    /// absent otherwise, whether the key was never set or its entry
    /// has expired. Reading mutates nothing.
    pub fn get(&self, key: &Vec<u8>, now: u64) -> (r: Option<Vec<u8>>)
        requires
            self.wf(),
        ensures
            match r {
                Some(v) => spec_get(self@, key@, now as int) == Some(v@),
                None => spec_get(self@, key@, now as int) is None,
            },
    {
        match self.find(key) {
            Some(i) => {
                proof {
                    lemma_entries_map_at(self.store@, key@, i as int);
                }
                let item = &self.store[i].1;
                if item.is_expired(now) {
                    None
                } else {
                    Some(vstd::slice::slice_to_vec(item.value.as_slice()))
                }
            },
            None => {
                proof {
                    lemma_entries_map_contains(self.store@, key@);
                }
                None
            },
        }
    }
}

/// Replacing the pair that carries `key` denotes the same mapping as
/// inserting the new entry, and keeps the keys distinct.
proof fn lemma_set_update(
    s0: Seq<(Vec<u8>, CacheItem)>,
    s1: Seq<(Vec<u8>, CacheItem)>,
    key: Seq<u8>,
    i: int,
)
    requires
        distinct_keys(s0),
        0 <= i < s0.len(),
        s0[i].0@ == key,
        s1.len() == s0.len(),
        s1[i].0@ == key,
        forall|j: int| 0 <= j < s0.len() && j != i ==> s1[j] == s0[j],
    ensures
        distinct_keys(s1),
        entries_map(s1) == entries_map(s0).insert(key, s1[i].1@),
    decreases s0.len(),
{
    assert(distinct_keys(s1));
    if i == s0.len() - 1 {
        assert(s1.drop_last() =~= s0.drop_last());
        assert(entries_map(s1) =~= entries_map(s0).insert(key, s1[i].1@));
    } else {
        assert(distinct_keys(s0.drop_last()));
        assert(s0.drop_last()[i].0@ == key);
        lemma_set_update(s0.drop_last(), s1.drop_last(), key, i);
        assert(s1.last() == s0.last());
        assert(s0.last().0@ != key);
        assert(entries_map(s1) =~= entries_map(s0).insert(key, s1[i].1@));
    }
}

/// Reading a live key twice in succession returns the same value both
/// times: a lookup has no side effect, and an entry live at the later
/// time was live at the earlier one.
pub proof fn lemma_get_idempotent(m: Map<Seq<u8>, ItemModel>, key: Seq<u8>, t1: int, t2: int)
    requires
        t1 <= t2,
        spec_get(m, key, t2) is Some,
    ensures
        spec_get(m, key, t1) == spec_get(m, key, t2),
{
}

/// A store followed by an immediate lookup of the same key returns the
/// new value: the write replaced both the old value and the old
/// time-to-live.
pub proof fn lemma_set_then_get(
    m: Map<Seq<u8>, ItemModel>,
    key: Seq<u8>,
    value: Seq<u8>,
    expires: Option<u64>,
    now: int,
)
    ensures
        spec_get(spec_set(m, key, value, expires, now), key, now) == Some(value),
{
}

} // verus!
