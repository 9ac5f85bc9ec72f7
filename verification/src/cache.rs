//! LRU cache for active ephemeris data.
//!
//! Caches two kinds of hot data, each with its own fixed capacity and
//! least-recently-used eviction:
//!
//! 1. **Segment records**: the Chebyshev coefficients of a
//!    `(first_data_record, record_index)` pair.
//! 2. **Body states**: the state of a body at an epoch, keyed by
//!    `(body, epoch in whole nanoseconds)`.
//!
//! The cache is generic over what it stores for each kind.
use vstd::prelude::*;

use crate::error::NaifId;

verus! {

/// A cache key: two integers.
pub type CacheKey = (i64, i64);

// ---------------------------------------------------------------------------
// Specification: an LRU store is a sequence of (key, value) pairs, least
// recently used first.
// ---------------------------------------------------------------------------

/// No key occurs twice.
pub open spec fn distinct_keys<V>(s: Seq<(CacheKey, V)>) -> bool {
    forall|i: int, j: int| 0 <= i < j < s.len() ==> s[i].0 != s[j].0
}

/// The index of `k` in `s` (searching from the most recent end), or -1.
pub open spec fn key_index<V>(s: Seq<(CacheKey, V)>, k: CacheKey) -> int
    decreases s.len(),
{
    if s.len() == 0 {
        -1
    } else if s.last().0 == k {
        s.len() - 1
    } else {
        key_index(s.drop_last(), k)
    }
}

/// The value stored under `k`, if any.
pub open spec fn lru_lookup<V>(s: Seq<(CacheKey, V)>, k: CacheKey) -> Option<V> {
    let i = key_index(s, k);
    if i >= 0 {
        Some(s[i].1)
    } else {
        None
    }
}

/// The store after a lookup of `k`: a present key becomes the most recent.
pub open spec fn lru_touch<V>(s: Seq<(CacheKey, V)>, k: CacheKey) -> Seq<(CacheKey, V)> {
    let i = key_index(s, k);
    if i >= 0 {
        s.remove(i).push(s[i])
    } else {
        s
    }
}

/// The store after putting `v` under `k`: a present key gets the new value
/// and becomes the most recent; a new key is added as the most recent, the
/// least recently used entry being evicted first when the store already
/// holds `cap` or more entries.
pub open spec fn lru_put<V>(s: Seq<(CacheKey, V)>, k: CacheKey, v: V, cap: nat) -> Seq<
    (CacheKey, V),
> {
    let i = key_index(s, k);
    if i >= 0 {
        s.remove(i).push((k, v))
    } else if s.len() >= cap && s.len() > 0 {
        s.drop_first().push((k, v))
    } else {
        s.push((k, v))
    }
}

// ---------------------------------------------------------------------------
// Lemmas and laws
// ---------------------------------------------------------------------------

proof fn lemma_key_index<V>(s: Seq<(CacheKey, V)>, k: CacheKey)
    ensures
        -1 <= key_index(s, k) < s.len(),
        key_index(s, k) >= 0 ==> s[key_index(s, k)].0 == k,
        key_index(s, k) == -1 ==> forall|i: int| 0 <= i < s.len() ==> #[trigger] s[i].0 != k,
        forall|i: int| key_index(s, k) < i < s.len() ==> #[trigger] s[i].0 != k,
    decreases s.len(),
{
    if s.len() > 0 {
        let t = s.drop_last();
        lemma_key_index(t, k);
        if s.last().0 != k {
            assert forall|i: int| key_index(s, k) < i < s.len() implies #[trigger] s[i].0 != k by {
                if i < s.len() - 1 {
                    assert(s[i] == t[i]);
                }
            }
            if key_index(s, k) == -1 {
                assert forall|i: int| 0 <= i < s.len() implies #[trigger] s[i].0 != k by {
                    if i < s.len() - 1 {
                        assert(s[i] == t[i]);
                    }
                }
            }
        }
    }
}

proof fn lemma_key_index_of<V>(s: Seq<(CacheKey, V)>, k: CacheKey, i: int)
    requires
        distinct_keys(s),
        0 <= i < s.len(),
        s[i].0 == k,
    ensures
        key_index(s, k) == i,
{
    lemma_key_index(s, k);
}

/// Putting keeps the keys distinct and the size within
/// `max(capacity, 1)` when it was within it before.
proof fn lemma_put_props<V>(s: Seq<(CacheKey, V)>, k: CacheKey, v: V, cap: nat)
    requires
        distinct_keys(s),
    ensures
        distinct_keys(lru_put(s, k, v, cap)),
        s.len() <= cap ==> lru_put(s, k, v, cap).len() <= if cap == 0 { 1 } else { cap },
        lru_put(s, k, v, cap).len() <= s.len() + 1,
{
    lemma_key_index(s, k);
    let i = key_index(s, k);
    let r = lru_put(s, k, v, cap);
    if i >= 0 {
        let t = s.remove(i);
        assert forall|a: int, b: int| 0 <= a < b < r.len() implies r[a].0 != r[b].0 by {
            if b == r.len() - 1 {
                let ia = if a < i { a } else { a + 1 };
                assert(t[a] == s[ia]);
            } else {
                let ia = if a < i { a } else { a + 1 };
                let ib = if b < i { b } else { b + 1 };
                assert(t[a] == s[ia]);
                assert(t[b] == s[ib]);
            }
        }
    } else if s.len() >= cap && s.len() > 0 {
        let t = s.drop_first();
        assert forall|a: int, b: int| 0 <= a < b < r.len() implies r[a].0 != r[b].0 by {
            assert(t[a] == s[a + 1]);
            if b < r.len() - 1 {
                assert(t[b] == s[b + 1]);
            }
        }
    } else {
        assert forall|a: int, b: int| 0 <= a < b < r.len() implies r[a].0 != r[b].0 by {
            if b < r.len() - 1 {
                assert(r[a] == s[a] && r[b] == s[b]);
            } else {
                assert(r[a] == s[a]);
            }
        }
    }
}

/// Touching keeps the keys distinct and the entries the same.
proof fn lemma_touch_props<V>(s: Seq<(CacheKey, V)>, k: CacheKey)
    requires
        distinct_keys(s),
    ensures
        distinct_keys(lru_touch(s, k)),
        lru_touch(s, k).len() == s.len(),
        forall|k2: CacheKey| lru_lookup(lru_touch(s, k), k2) == lru_lookup(s, k2),
{
    lemma_key_index(s, k);
    let i = key_index(s, k);
    let r = lru_touch(s, k);
    if i >= 0 {
        let t = s.remove(i);
        assert forall|a: int, b: int| 0 <= a < b < r.len() implies r[a].0 != r[b].0 by {
            let ia = if a < i { a } else { a + 1 };
            assert(t[a] == s[ia]);
            if b < r.len() - 1 {
                let ib = if b < i { b } else { b + 1 };
                assert(t[b] == s[ib]);
            }
        }
        assert forall|k2: CacheKey| lru_lookup(r, k2) == lru_lookup(s, k2) by {
            lemma_key_index(s, k2);
            lemma_key_index(r, k2);
            let j = key_index(s, k2);
            if j >= 0 {
                let jr = if j == i { r.len() - 1 } else if j < i { j } else { j - 1 };
                if j != i {
                    assert(t[jr] == s[j]);
                }
                lemma_key_index_of(r, k2, jr);
            } else {
                if key_index(r, k2) >= 0 {
                    let jr = key_index(r, k2);
                    if jr < r.len() - 1 {
                        let js = if jr < i { jr } else { jr + 1 };
                        assert(t[jr] == s[js]);
                    }
                }
            }
        }
    }
}

/// Reading a key after putting it gives the value put, and putting one key
/// does not change what another key reads, unless that key is the one
/// evicted.
pub proof fn lemma_get_after_put<V>(
    s: Seq<(CacheKey, V)>,
    k: CacheKey,
    v: V,
    cap: nat,
    other: CacheKey,
)
    requires
        distinct_keys(s),
    ensures
        lru_lookup(lru_put(s, k, v, cap), k) == Some(v),
        other != k && !(key_index(s, k) < 0 && s.len() >= cap && s.len() > 0 && s[0].0 == other)
            ==> lru_lookup(lru_put(s, k, v, cap), other) == lru_lookup(s, other),
{
    lemma_put_props(s, k, v, cap);
    let r = lru_put(s, k, v, cap);
    lemma_key_index_of(r, k, r.len() - 1);
    lemma_key_index(s, k);
    lemma_key_index(s, other);
    lemma_key_index(r, other);
    let i = key_index(s, k);
    if other != k && !(i < 0 && s.len() >= cap && s.len() > 0 && s[0].0 == other) {
        let j = key_index(s, other);
        if i >= 0 {
            let t = s.remove(i);
            if j >= 0 {
                let jr = if j < i { j } else { j - 1 };
                assert(t[jr] == s[j]);
                lemma_key_index_of(r, other, jr);
            } else if key_index(r, other) >= 0 {
                let jr = key_index(r, other);
                let js = if jr < i { jr } else { jr + 1 };
                assert(t[jr] == s[js]);
            }
        } else if s.len() >= cap && s.len() > 0 {
            let t = s.drop_first();
            if j >= 0 {
                assert(j != 0);
                assert(t[j - 1] == s[j]);
                lemma_key_index_of(r, other, j - 1);
            } else if key_index(r, other) >= 0 {
                let jr = key_index(r, other);
                assert(t[jr] == s[jr + 1]);
            }
        } else {
            if j >= 0 {
                assert(r[j] == s[j]);
                lemma_key_index_of(r, other, j);
            } else if key_index(r, other) >= 0 {
                let jr = key_index(r, other);
                assert(r[jr] == s[jr]);
            }
        }
    }
}

/// Least-recently-used eviction: putting a new key into a full store
/// removes exactly the least recently used entry, keeps every other entry
/// in its order, and adds the new one as the most recent.
pub proof fn lemma_evicts_least_recent<V>(s: Seq<(CacheKey, V)>, k: CacheKey, v: V, cap: nat)
    requires
        distinct_keys(s),
        lru_lookup(s, k) is None,
        s.len() >= cap,
        s.len() > 0,
    ensures
        lru_put(s, k, v, cap) == s.subrange(1, s.len() as int).push((k, v)),
        lru_lookup(lru_put(s, k, v, cap), s[0].0) is None,
{
    lemma_key_index(s, k);
    lemma_put_props(s, k, v, cap);
    let r = lru_put(s, k, v, cap);
    lemma_key_index(r, s[0].0);
    assert(s.drop_first() == s.subrange(1, s.len() as int));
    if key_index(r, s[0].0) >= 0 {
        let jr = key_index(r, s[0].0);
        if jr < r.len() - 1 {
            assert(r[jr] == s[jr + 1]);
        }
    }
}

/// A lookup makes the key the most recently used, so that filling the
/// store afterwards evicts other entries first.
pub proof fn lemma_touch_makes_recent<V>(s: Seq<(CacheKey, V)>, k: CacheKey)
    requires
        distinct_keys(s),
        lru_lookup(s, k) is Some,
    ensures
        lru_touch(s, k).last() == (k, lru_lookup(s, k)->Some_0),
        lru_touch(s, k).len() == s.len(),
{
    lemma_key_index(s, k);
}

/// A lookup moves only the entry it hits: an entry at position `i` under
/// `k` goes to the most recent end and every other entry keeps its order;
/// a lookup of a key that no entry holds changes nothing.
pub proof fn lemma_touch_moves_only_hit<V>(s: Seq<(CacheKey, V)>, k: CacheKey, i: int)
    requires
        distinct_keys(s),
    ensures
        0 <= i < s.len() && s[i].0 == k ==> lru_touch(s, k) == (s.subrange(0, i) + s.subrange(
            i + 1,
            s.len() as int,
        )).push(s[i]),
        (forall|j: int| 0 <= j < s.len() ==> s[j].0 != k) ==> lru_touch(s, k) == s,
{
    lemma_key_index(s, k);
    if 0 <= i < s.len() && s[i].0 == k {
        lemma_key_index_of(s, k, i);
        assert(s.remove(i) =~= s.subrange(0, i) + s.subrange(i + 1, s.len() as int));
    }
    if forall|j: int| 0 <= j < s.len() ==> s[j].0 != k {
        if key_index(s, k) >= 0 {
            assert(s[key_index(s, k)].0 != k);
        }
    }
}

/// Putting makes the entry put the most recently used. Under a key held at
/// position `i`, the old entry leaves and every other entry keeps its order.
/// Under a new key, the least recently used entry leaves first when the
/// store holds `cap` or more entries (and at least one), and nothing
/// leaves otherwise.
pub proof fn lemma_put_makes_recent<V>(s: Seq<(CacheKey, V)>, k: CacheKey, v: V, cap: nat, i: int)
    requires
        distinct_keys(s),
    ensures
        lru_put(s, k, v, cap).last() == (k, v),
        0 <= i < s.len() && s[i].0 == k ==> lru_put(s, k, v, cap) == (s.subrange(0, i)
            + s.subrange(i + 1, s.len() as int)).push((k, v)),
        (forall|j: int| 0 <= j < s.len() ==> s[j].0 != k) ==> lru_put(s, k, v, cap) == if s.len()
            >= cap && s.len() > 0 {
            s.subrange(1, s.len() as int).push((k, v))
        } else {
            s.push((k, v))
        },
{
    lemma_key_index(s, k);
    if 0 <= i < s.len() && s[i].0 == k {
        lemma_key_index_of(s, k, i);
        assert(s.remove(i) =~= s.subrange(0, i) + s.subrange(i + 1, s.len() as int));
    }
    if forall|j: int| 0 <= j < s.len() ==> s[j].0 != k {
        if key_index(s, k) >= 0 {
            assert(s[key_index(s, k)].0 != k);
        }
        assert(s.drop_first() =~= s.subrange(1, s.len() as int));
    }
}

/// Records of different `(first_data_record, record_index)` pairs have
/// different keys.
pub proof fn lemma_record_key_injective(a: i32, b: i32, c: i32, d: i32)
    ensures
        record_key(a, b) == record_key(c, d) <==> (a == c && b == d),
{
}

/// States of different `(body, epoch)` pairs have different keys.
pub proof fn lemma_state_key_injective(b1: NaifId, e1: i64, b2: NaifId, e2: i64)
    ensures
        state_key(b1, e1) == state_key(b2, e2) <==> (b1 == b2 && e1 == e2),
{
}

/// Reading a record after putting one: the pair put reads the value put,
/// and any other pair reads what it read before, unless it held the least
/// recently used entry and the put evicted it.
pub proof fn lemma_record_get_after_put<R>(
    s: Seq<(CacheKey, R)>,
    a: i32,
    b: i32,
    v: R,
    cap: nat,
    c: i32,
    d: i32,
)
    requires
        distinct_keys(s),
    ensures
        lru_lookup(lru_put(s, record_key(a, b), v, cap), record_key(a, b)) == Some(v),
        (a != c || b != d) && !(lru_lookup(s, record_key(a, b)) is None && s.len() >= cap
            && s.len() > 0 && s[0].0 == record_key(c, d)) ==> lru_lookup(
            lru_put(s, record_key(a, b), v, cap),
            record_key(c, d),
        ) == lru_lookup(s, record_key(c, d)),
{
    lemma_get_after_put(s, record_key(a, b), v, cap, record_key(c, d));
}

/// Reading a state after putting one: the body and epoch put read the
/// state put, and any other body or epoch reads what it read before, unless
/// it held the least recently used entry and the put evicted it.
pub proof fn lemma_state_get_after_put<S>(
    s: Seq<(CacheKey, S)>,
    b1: NaifId,
    e1: i64,
    v: S,
    cap: nat,
    b2: NaifId,
    e2: i64,
)
    requires
        distinct_keys(s),
    ensures
        lru_lookup(lru_put(s, state_key(b1, e1), v, cap), state_key(b1, e1)) == Some(v),
        (b1 != b2 || e1 != e2) && !(lru_lookup(s, state_key(b1, e1)) is None && s.len() >= cap
            && s.len() > 0 && s[0].0 == state_key(b2, e2)) ==> lru_lookup(
            lru_put(s, state_key(b1, e1), v, cap),
            state_key(b2, e2),
        ) == lru_lookup(s, state_key(b2, e2)),
{
    lemma_get_after_put(s, state_key(b1, e1), v, cap, state_key(b2, e2));
}

// ---------------------------------------------------------------------------
// Implementation
// ---------------------------------------------------------------------------

/// Fixed-capacity LRU store of values under integer-pair keys.
///
/// The entries are held in one vector, least recently used first, and a
/// lookup scans it. A hash map beside the recency order would speed up
/// lookups, but its keys are pairs, and vstd specifies `HashMap` lookups
/// only for key types whose hashing it models (integers, not tuples), so
/// such a map would carry no contract to prove the cache against. A
/// capacity-bounded scan is the form whose every step is verified.
struct LruStore<V> {
    capacity: usize,
    entries: Vec<(CacheKey, V)>,
}

impl<V> LruStore<V> {
    spec fn wf(&self) -> bool {
        &&& distinct_keys(self.entries@)
        &&& self.entries@.len() <= if self.capacity == 0 { 1 } else { self.capacity as int }
    }

    fn new(capacity: usize) -> (r: Self)
        ensures
            r.capacity == capacity,
            r.entries@ == Seq::<(CacheKey, V)>::empty(),
            r.wf(),
    {
        LruStore { capacity, entries: Vec::new() }
    }

    fn position(&self, key: CacheKey) -> (r: Option<usize>)
        ensures
            match r {
                Some(i) => key_index(self.entries@, key) == i as int,
                None => key_index(self.entries@, key) == -1,
            },
    {
        let mut i = self.entries.len();
        assert(self.entries@.take(i as int) == self.entries@);
        while i > 0
            invariant
                i <= self.entries@.len(),
                key_index(self.entries@, key) == key_index(self.entries@.take(i as int), key),
            decreases i,
        {
            let ghost t = self.entries@.take(i as int);
            assert(t.drop_last() == self.entries@.take(i - 1));
            assert(t.last() == self.entries@[i - 1]);
            let k = self.entries[i - 1].0;
            if k.0 == key.0 && k.1 == key.1 {
                return Some(i - 1);
            }
            i -= 1;
        }
        None
    }

    /// Makes `key` the most recently used; whether it is present.
    fn touch(&mut self, key: CacheKey) -> (found: bool)
        requires
            old(self).wf(),
        ensures
            final(self).wf(),
            final(self).entries@ == lru_touch(old(self).entries@, key),
            final(self).capacity == old(self).capacity,
            found == (key_index(old(self).entries@, key) >= 0),
    {
        proof {
            lemma_touch_props(self.entries@, key);
            lemma_key_index(self.entries@, key);
        }
        match self.position(key) {
            Some(i) => {
                let e = self.entries.remove(i);
                self.entries.push(e);
                true
            },
            None => false,
        }
    }

    fn peek(&self, key: CacheKey) -> (r: Option<&V>)
        ensures
            match r {
                Some(v) => lru_lookup(self.entries@, key) == Some(*v),
                None => lru_lookup(self.entries@, key) is None,
            },
    {
        proof {
            lemma_key_index(self.entries@, key);
        }
        match self.position(key) {
            Some(i) => Some(&self.entries[i].1),
            None => None,
        }
    }

    fn put(&mut self, key: CacheKey, value: V)
        requires
            old(self).wf(),
        ensures
            final(self).wf(),
            final(self).entries@ == lru_put(old(self).entries@, key, value, old(self).capacity as nat),
            final(self).capacity == old(self).capacity,
    {
        proof {
            lemma_put_props(self.entries@, key, value, self.capacity as nat);
            lemma_key_index(self.entries@, key);
        }
        match self.position(key) {
            Some(i) => {
                let _old = self.entries.remove(i);
                self.entries.push((key, value));
            },
            None => {
                if self.entries.len() >= self.capacity && self.entries.len() > 0 {
                    let _evicted = self.entries.remove(0);
                }
                self.entries.push((key, value));
            },
        }
    }

    fn clear(&mut self)
        ensures
            final(self).wf(),
            final(self).entries@ == Seq::<(CacheKey, V)>::empty(),
            final(self).capacity == old(self).capacity,
    {
        self.entries.clear();
    }

    fn len(&self) -> (n: usize)
        ensures
            n == self.entries@.len(),
    {
        self.entries.len()
    }
}

/// Fixed-capacity LRU cache for ephemeris record coefficients (`R`) and
/// body states (`S`).
pub struct EphemerisCache<R, S> {
    capacity: usize,
    records: LruStore<R>,
    states: LruStore<S>,
}

/// The key of a cached record.
pub open spec fn record_key(first_data_record: i32, record_index: i32) -> CacheKey {
    (first_data_record as i64, record_index as i64)
}

/// The key of a cached state.
pub open spec fn state_key(body: NaifId, epoch_et_ns: i64) -> CacheKey {
    (body as i64, epoch_et_ns)
}

impl<R, S> EphemerisCache<R, S> {
    /// The cached records, least recently used first.
    pub closed spec fn records_view(&self) -> Seq<(CacheKey, R)> {
        self.records.entries@
    }

    /// The cached states, least recently used first.
    pub closed spec fn states_view(&self) -> Seq<(CacheKey, S)> {
        self.states.entries@
    }

    /// The capacity per category.
    pub closed spec fn capacity_view(&self) -> nat {
        self.capacity as nat
    }

    /// The cache is well formed: in each category no key occurs twice and
    /// there are at most `max(capacity, 1)` entries.
    pub closed spec fn wf(&self) -> bool {
        &&& self.records.capacity == self.capacity
        &&& self.states.capacity == self.capacity
        &&& self.records.wf()
        &&& self.states.wf()
    }

    /// What well-formedness says of the contents: in each category no key
    /// occurs twice and there are at most `max(capacity, 1)` entries, so the
    /// laws on `lru_lookup`, `lru_touch` and `lru_put` apply to a cache.
    pub proof fn lemma_wf_contents(&self)
        requires
            self.wf(),
        ensures
            distinct_keys(self.records_view()),
            distinct_keys(self.states_view()),
            self.records_view().len() <= if self.capacity_view() == 0 {
                1
            } else {
                self.capacity_view()
            },
            self.states_view().len() <= if self.capacity_view() == 0 {
                1
            } else {
                self.capacity_view()
            },
    {
    }

    /// Create a new cache with the given maximum number of cached items of
    /// each type (record coefficients and body states).
    pub fn new(capacity: usize) -> (c: Self)
        ensures
            c.wf(),
            c.capacity_view() == capacity,
            c.records_view() == Seq::<(CacheKey, R)>::empty(),
            c.states_view() == Seq::<(CacheKey, S)>::empty(),
    {
        EphemerisCache {
            capacity,
            records: LruStore::new(capacity),
            states: LruStore::new(capacity),
        }
    }

    /// Maximum number of cached items per category.
    pub fn capacity(&self) -> (n: usize)
        ensures
            n == self.capacity_view(),
    {
        self.capacity
    }

    /// Look up a cached record coefficient set; a hit makes it the most
    /// recently used record.
    pub fn get_record(&mut self, first_data_record: i32, record_index: i32) -> (r: Option<&R>)
        requires
            old(self).wf(),
        ensures
            final(self).wf(),
            final(self).records_view() == lru_touch(
                old(self).records_view(),
                record_key(first_data_record, record_index),
            ),
            final(self).states_view() == old(self).states_view(),
            final(self).capacity_view() == old(self).capacity_view(),
            match r {
                Some(v) => lru_lookup(
                    old(self).records_view(),
                    record_key(first_data_record, record_index),
                ) == Some(*v),
                None => lru_lookup(
                    old(self).records_view(),
                    record_key(first_data_record, record_index),
                ) is None,
            },
    {
        let key: CacheKey = (first_data_record as i64, record_index as i64);
        proof {
            lemma_touch_props(self.records.entries@, key);
        }
        if self.records.touch(key) {
            self.records.peek(key)
        } else {
            proof {
                lemma_key_index(old(self).records.entries@, key);
            }
            None
        }
    }

    /// Insert a record coefficient set into the cache.
    pub fn put_record(&mut self, first_data_record: i32, record_index: i32, coefficients: R)
        requires
            old(self).wf(),
        ensures
            final(self).wf(),
            final(self).records_view() == lru_put(
                old(self).records_view(),
                record_key(first_data_record, record_index),
                coefficients,
                old(self).capacity_view(),
            ),
            final(self).states_view() == old(self).states_view(),
            final(self).capacity_view() == old(self).capacity_view(),
    {
        let key: CacheKey = (first_data_record as i64, record_index as i64);
        self.records.put(key, coefficients);
    }

    /// Look up a cached body state by body and epoch (in whole nanoseconds
    /// past J2000 TDB); a hit makes it the most recently used state.
    pub fn get_state(&mut self, body: NaifId, epoch_et_ns: i64) -> (r: Option<&S>)
        requires
            old(self).wf(),
        ensures
            final(self).wf(),
            final(self).states_view() == lru_touch(
                old(self).states_view(),
                state_key(body, epoch_et_ns),
            ),
            final(self).records_view() == old(self).records_view(),
            final(self).capacity_view() == old(self).capacity_view(),
            match r {
                Some(v) => lru_lookup(old(self).states_view(), state_key(body, epoch_et_ns))
                    == Some(*v),
                None => lru_lookup(old(self).states_view(), state_key(body, epoch_et_ns)) is None,
            },
    {
        let key: CacheKey = (body as i64, epoch_et_ns);
        proof {
            lemma_touch_props(self.states.entries@, key);
        }
        if self.states.touch(key) {
            self.states.peek(key)
        } else {
            proof {
                lemma_key_index(old(self).states.entries@, key);
            }
            None
        }
    }

    /// Insert a body state into the cache.
    pub fn put_state(&mut self, body: NaifId, epoch_et_ns: i64, state: S)
        requires
            old(self).wf(),
        ensures
            final(self).wf(),
            final(self).states_view() == lru_put(
                old(self).states_view(),
                state_key(body, epoch_et_ns),
                state,
                old(self).capacity_view(),
            ),
            final(self).records_view() == old(self).records_view(),
            final(self).capacity_view() == old(self).capacity_view(),
    {
        let key: CacheKey = (body as i64, epoch_et_ns);
        self.states.put(key, state);
    }

    /// Remove all cached entries.
    pub fn clear(&mut self)
        requires
            old(self).wf(),
        ensures
            final(self).wf(),
            final(self).records_view() == Seq::<(CacheKey, R)>::empty(),
            final(self).states_view() == Seq::<(CacheKey, S)>::empty(),
            final(self).capacity_view() == old(self).capacity_view(),
    {
        self.records.clear();
        self.states.clear();
    }

    /// Number of cached record coefficient sets.
    pub fn record_count(&self) -> (n: usize)
        requires
            self.wf(),
        ensures
            n == self.records_view().len(),
            n <= if self.capacity_view() == 0 { 1 } else { self.capacity_view() },
    {
        self.records.len()
    }

    /// Number of cached body states.
    pub fn state_count(&self) -> (n: usize)
        requires
            self.wf(),
        ensures
            n == self.states_view().len(),
            n <= if self.capacity_view() == 0 { 1 } else { self.capacity_view() },
    {
        self.states.len()
    }
}

} // verus!
