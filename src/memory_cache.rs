//! The in-memory tier: a fixed-capacity least-recently-used map from cache
//! keys to markdown, kept in the `lru` crate's `LruCache`.
use vstd::prelude::*;
use lru::LruCache;
use std::collections::hash_map::RandomState;

verus! {

#[verifier::external_type_specification]
#[verifier::external_body]
#[verifier::reject_recursive_types(K)]
#[verifier::reject_recursive_types(V)]
#[verifier::reject_recursive_types(S)]
pub struct ExLruCache<K, V, S>(LruCache<K, V, S>);

/// The entries of an `LruCache`, most recently used first.
pub uninterp spec fn lru_entries(c: LruCache<String, String, RandomState>) -> Seq<(Seq<char>, Seq<char>)>;

/// The capacity an `LruCache` was made with.
pub uninterp spec fn lru_capacity(c: LruCache<String, String, RandomState>) -> nat;

/// The index of the entry with key `k`, or -1.
pub open spec fn key_index(e: Seq<(Seq<char>, Seq<char>)>, k: Seq<char>) -> int
    decreases e.len(),
{
    if e.len() == 0 {
        -1
    } else if e.last().0 == k {
        e.len() - 1
    } else {
        key_index(e.drop_last(), k)
    }
}

/// The value stored under `k`.
pub open spec fn lookup(e: Seq<(Seq<char>, Seq<char>)>, k: Seq<char>) -> Option<Seq<char>> {
    let i = key_index(e, k);
    if i >= 0 {
        Some(e[i].1)
    } else {
        None
    }
}

/// The entries after a lookup of `k`: a hit moves to the front.
pub open spec fn touched(e: Seq<(Seq<char>, Seq<char>)>, k: Seq<char>) -> Seq<(Seq<char>, Seq<char>)> {
    let i = key_index(e, k);
    if i >= 0 {
        seq![e[i]] + e.remove(i)
    } else {
        e
    }
}

/// The entries after storing `v` under `k`: an existing entry is replaced and
/// moved to the front; a new one goes to the front, and when the cache is
/// full the least recently used entry (the last) leaves.
pub open spec fn after_put(e: Seq<(Seq<char>, Seq<char>)>, cap: nat, k: Seq<char>, v: Seq<char>) -> Seq<(Seq<char>, Seq<char>)> {
    let i = key_index(e, k);
    if i >= 0 {
        seq![(k, v)] + e.remove(i)
    } else if e.len() == cap {
        seq![(k, v)] + e.drop_last()
    } else {
        seq![(k, v)] + e
    }
}

/// Relies on `LruCache::with_hasher`: an empty cache with the given capacity.
#[verifier::external_body]
fn lru_new(cap: usize) -> (r: LruCache<String, String, RandomState>)
    requires
        cap >= 1,
    ensures
        lru_entries(r) == Seq::<(Seq<char>, Seq<char>)>::empty(),
        lru_capacity(r) == cap,
{
    LruCache::with_hasher(std::num::NonZeroUsize::new(cap).unwrap(), RandomState::new())
}

/// Relies on `LruCache::get`: returns the value under `key` and moves that
/// entry to the front; a miss changes nothing.
#[verifier::external_body]
fn lru_get(c: &mut LruCache<String, String, RandomState>, key: &str) -> (r: Option<String>)
    ensures
        r matches Some(v) ==> Some(v@) == lookup(lru_entries(*old(c)), key@),
        r is None ==> lookup(lru_entries(*old(c)), key@) is None,
        lru_entries(*final(c)) == touched(lru_entries(*old(c)), key@),
        lru_capacity(*final(c)) == lru_capacity(*old(c)),
{
    c.get(key).cloned()
}

/// Relies on `LruCache::put`: see `after_put`.
#[verifier::external_body]
fn lru_put(c: &mut LruCache<String, String, RandomState>, key: String, value: String)
    ensures
        lru_entries(*final(c)) == after_put(lru_entries(*old(c)), lru_capacity(*old(c)), key@, value@),
        lru_capacity(*final(c)) == lru_capacity(*old(c)),
{
    c.put(key, value);
}

/// Relies on `LruCache::len`: the number of entries.
#[verifier::external_body]
fn lru_len(c: &LruCache<String, String, RandomState>) -> (r: usize)
    ensures
        r == lru_entries(*c).len(),
{
    c.len()
}

/// Keys are distinct and the entries fit the capacity.
pub open spec fn entries_wf(e: Seq<(Seq<char>, Seq<char>)>, cap: nat) -> bool {
    &&& cap >= 1
    &&& e.len() <= cap
    &&& forall|a: int, b: int| 0 <= a < b < e.len() ==> e[a].0 != e[b].0
}

/// The in-memory cache of markdown by key.
pub struct MkCache {
    inner: LruCache<String, String, RandomState>,
}

impl MkCache {
    /// The entries, most recently used first.
    pub closed spec fn entries(&self) -> Seq<(Seq<char>, Seq<char>)> {
        lru_entries(self.inner)
    }

    pub closed spec fn capacity(&self) -> nat {
        lru_capacity(self.inner)
    }

    pub open spec fn wf(&self) -> bool {
        entries_wf(self.entries(), self.capacity())
    }

    /// An empty cache holding at most `capacity` entries (at least one).
    pub fn new(capacity: usize) -> (r: MkCache)
        ensures
            r.wf(),
            r.entries() == Seq::<(Seq<char>, Seq<char>)>::empty(),
            r.capacity() == if capacity == 0 { 1 } else { capacity as nat },
    {
        let cap = if capacity == 0 { 1 } else { capacity };
        MkCache { inner: lru_new(cap) }
    }

    /// The value under `key`, if any; a hit becomes the most recently used entry.
    pub fn get(&mut self, key: &str) -> (r: Option<String>)
        requires
            old(self).wf(),
        ensures
            final(self).wf(),
            match r {
                Some(v) => lookup(old(self).entries(), key@) == Some(v@),
                None => lookup(old(self).entries(), key@) is None,
            },
            final(self).entries() == touched(old(self).entries(), key@),
            final(self).capacity() == old(self).capacity(),
    {
        let r = lru_get(&mut self.inner, key);
        proof {
            lemma_touched_wf(old(self).entries(), old(self).capacity(), key@);
        }
        r
    }

    /// Stores `value` under `key` as the most recently used entry, evicting
    /// the least recently used one when a new key finds the cache full.
    pub fn put(&mut self, key: String, value: String)
        requires
            old(self).wf(),
        ensures
            final(self).wf(),
            final(self).entries() == after_put(old(self).entries(), old(self).capacity(), key@, value@),
            final(self).capacity() == old(self).capacity(),
    {
        let ghost k = key@;
        let ghost v = value@;
        lru_put(&mut self.inner, key, value);
        proof {
            lemma_put_wf(old(self).entries(), old(self).capacity(), k, v);
        }
    }

    /// The number of entries.
    pub fn len(&self) -> (r: usize)
        ensures
            r == self.entries().len(),
    {
        lru_len(&self.inner)
    }
}

proof fn lemma_key_index(e: Seq<(Seq<char>, Seq<char>)>, k: Seq<char>)
    ensures
        -1 <= key_index(e, k) < e.len(),
        key_index(e, k) >= 0 ==> e[key_index(e, k)].0 == k,
        key_index(e, k) == -1 ==> forall|j: int| 0 <= j < e.len() ==> e[j].0 != k,
    decreases e.len(),
{
    if e.len() > 0 && e.last().0 != k {
        lemma_key_index(e.drop_last(), k);
        assert forall|j: int| 0 <= j < e.len() - 1 implies e.drop_last()[j] == e[j] by {}
    }
}

/// With distinct keys, the entry found under `k` is the only one with that key.
proof fn lemma_key_index_unique(e: Seq<(Seq<char>, Seq<char>)>, k: Seq<char>, j: int)
    requires
        forall|a: int, b: int| 0 <= a < b < e.len() ==> e[a].0 != e[b].0,
        0 <= j < e.len(),
        e[j].0 == k,
    ensures
        key_index(e, k) == j,
{
    lemma_key_index(e, k);
}

proof fn lemma_touched_wf(e: Seq<(Seq<char>, Seq<char>)>, cap: nat, k: Seq<char>)
    requires
        entries_wf(e, cap),
    ensures
        entries_wf(touched(e, k), cap),
{
    lemma_key_index(e, k);
    let i = key_index(e, k);
    if i >= 0 {
        let t = touched(e, k);
        let r = e.remove(i);
        assert forall|a: int, b: int| 0 <= a < b < t.len() implies t[a].0 != t[b].0 by {
            let ia = if a == 0 { i } else if a - 1 < i { a - 1 } else { a };
            let ib = if b - 1 < i { b - 1 } else { b };
            assert(t[a] == e[ia]);
            assert(t[b] == e[ib]);
        }
    }
}

proof fn lemma_put_wf(e: Seq<(Seq<char>, Seq<char>)>, cap: nat, k: Seq<char>, v: Seq<char>)
    requires
        entries_wf(e, cap),
    ensures
        entries_wf(after_put(e, cap, k, v), cap),
{
    lemma_key_index(e, k);
    let i = key_index(e, k);
    let t = after_put(e, cap, k, v);
    if i >= 0 {
        assert forall|a: int, b: int| 0 <= a < b < t.len() implies t[a].0 != t[b].0 by {
            let ib = if b - 1 < i { b - 1 } else { b };
            assert(t[b] == e[ib]);
            if a > 0 {
                let ia = if a - 1 < i { a - 1 } else { a };
                assert(t[a] == e[ia]);
            }
        }
    } else {
        assert forall|a: int, b: int| 0 <= a < b < t.len() implies t[a].0 != t[b].0 by {
            assert(t[b] == e[b - 1]);
            if a > 0 {
                assert(t[a] == e[a - 1]);
            }
        }
    }
}

} // verus!

verus! {

/// Storing `v` under `k` and then looking `k` up gives `v`.
pub proof fn memory_cache_roundtrip(e: Seq<(Seq<char>, Seq<char>)>, cap: nat, k: Seq<char>, v: Seq<char>)
    requires
        entries_wf(e, cap),
    ensures
        lookup(after_put(e, cap, k, v), k) == Some(v),
{
    lemma_put_wf(e, cap, k, v);
    let t = after_put(e, cap, k, v);
    assert(t[0] == (k, v));
    lemma_key_index_unique(t, k, 0);
}

/// When a full cache takes a new key, exactly the least recently used entry
/// (the last) leaves: every other entry keeps its value and the new one is there.
pub proof fn lru_evicts_least_recent(e: Seq<(Seq<char>, Seq<char>)>, cap: nat, k: Seq<char>, v: Seq<char>)
    requires
        entries_wf(e, cap),
        e.len() == cap,
        lookup(e, k) is None,
    ensures
        after_put(e, cap, k, v).len() == cap,
        lookup(after_put(e, cap, k, v), e.last().0) is None,
        forall|j: int| 0 <= j < e.len() - 1 ==> lookup(after_put(e, cap, k, v), #[trigger] e[j].0) == Some(e[j].1),
        lookup(after_put(e, cap, k, v), k) == Some(v),
{
    memory_cache_roundtrip(e, cap, k, v);
    lemma_put_wf(e, cap, k, v);
    lemma_key_index(e, k);
    let t = after_put(e, cap, k, v);
    assert(t =~= seq![(k, v)] + e.drop_last());
    lemma_key_index(t, e.last().0);
    assert forall|j: int| 0 <= j < t.len() implies t[j].0 != e.last().0 by {
        if j > 0 {
            assert(t[j] == e[j - 1]);
        }
    }
    assert forall|j: int| 0 <= j < e.len() - 1 implies lookup(t, #[trigger] e[j].0) == Some(e[j].1) by {
        assert(t[j + 1] == e[j]);
        lemma_key_index_unique(t, e[j].0, j + 1);
    }
}

} // verus!
