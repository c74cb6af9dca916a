//! Hot cache: a bounded in-memory container of weighted entries. Inserting
//! replaces any entry with the same key, then evicts the oldest entries until
//! the new entry fits under the weight capacity. `find` probes without
//! touching the eviction bookkeeping; `lookup` additionally refreshes the
//! probed entry's recency.

use vstd::prelude::*;

verus! {

/// One unit held by the hot cache: a key paired with the value cached for it.
#[derive(Clone, Debug)]
pub struct CacheEntry {
    pub(crate) key: u64,
    pub(crate) value: Vec<u8>,
}

impl CacheEntry {
    /// The key this entry caches a value for.
    pub closed spec fn spec_key(self) -> u64 {
        self.key
    }

    /// The cached value's bytes.
    pub closed spec fn spec_value(self) -> Seq<u8> {
        self.value@
    }

    /// Pairs a key with the value to cache for it.
    pub fn new(key: u64, value: Vec<u8>) -> (r: CacheEntry)
        ensures
            r.spec_key() == key,
            r.spec_value() == value@,
    {
        CacheEntry { key, value }
    }

    /// The entry's key.
    pub fn key(&self) -> (r: u64)
        ensures
            r == self.spec_key(),
    {
        self.key
    }

    /// A copy of the entry's value.
    pub fn value(&self) -> (r: Vec<u8>)
        ensures
            r@ == self.spec_value(),
    {
        clone_bytes(&self.value)
    }
}

/// Copies a byte vector.
pub fn clone_bytes(v: &Vec<u8>) -> (r: Vec<u8>)
    ensures
        r@ == v@,
{
    let mut r: Vec<u8> = Vec::new();
    let mut i: usize = 0;
    while i < v.len()
        invariant
            i <= v@.len(),
            r@ == v@.take(i as int),
        decreases v@.len() - i,
    {
        r.push(v[i]);
        proof {
            assert(r@ =~= v@.take(i as int + 1));
        }
        i = i + 1;
    }
    proof {
        assert(v@.take(v@.len() as int) =~= v@);
    }
    r
}

/// The abstract content of a hot cache: key, value bytes and weight of each
/// entry, oldest first.
pub open spec fn total_w(s: Seq<(u64, Seq<u8>, nat)>) -> nat
    decreases s.len(),
{
    if s.len() == 0 {
        0
    } else {
        (s[0].2 + total_w(s.drop_first())) as nat
    }
}

/// `s` without any entry keyed `k`.
pub open spec fn without_key(s: Seq<(u64, Seq<u8>, nat)>, k: u64) -> Seq<(u64, Seq<u8>, nat)>
    decreases s.len(),
{
    if s.len() == 0 {
        s
    } else if s[0].0 == k {
        without_key(s.drop_first(), k)
    } else {
        seq![s[0]] + without_key(s.drop_first(), k)
    }
}

/// Drops entries from the front (oldest first) until the remaining total
/// weight fits within `budget`.
pub open spec fn evict_until(s: Seq<(u64, Seq<u8>, nat)>, budget: nat) -> Seq<(u64, Seq<u8>, nat)>
    decreases s.len(),
{
    if total_w(s) <= budget || s.len() == 0 {
        s
    } else {
        evict_until(s.drop_first(), budget)
    }
}

/// The first entry keyed `k`, if any.
pub open spec fn find_full(s: Seq<(u64, Seq<u8>, nat)>, k: u64) -> Option<(u64, Seq<u8>, nat)>
    decreases s.len(),
{
    if s.len() == 0 {
        None
    } else if s[0].0 == k {
        Some(s[0])
    } else {
        find_full(s.drop_first(), k)
    }
}

/// The value cached under `k`, if any.
pub open spec fn find_in(s: Seq<(u64, Seq<u8>, nat)>, k: u64) -> Option<Seq<u8>> {
    match find_full(s, k) {
        Some(t) => Some(t.1),
        None => None,
    }
}

/// No two entries share a key.
pub open spec fn distinct_keys(s: Seq<(u64, Seq<u8>, nat)>) -> bool {
    forall|i: int, j: int| 0 <= i < j < s.len() ==> s[i].0 != s[j].0
}

/// What inserting `(k, v)` with weight `w` leaves behind: nothing changes if
/// the weight alone exceeds the capacity; otherwise any entry keyed `k` is
/// replaced, the oldest entries are evicted until the newcomer fits, and the
/// newcomer is appended as the youngest.
pub open spec fn insert_view(
    s: Seq<(u64, Seq<u8>, nat)>,
    k: u64,
    v: Seq<u8>,
    w: nat,
    cap: nat,
) -> Seq<(u64, Seq<u8>, nat)> {
    if w > cap {
        s
    } else {
        evict_until(without_key(s, k), (cap - w) as nat).push((k, v, w))
    }
}

/// The weight capacity of a default-constructed hot cache.
pub const DEFAULT_HOT_CAPACITY: usize = 1024;

/// The bounded, weighted in-memory cache of entries.
pub struct HotCache {
    entries: Vec<CacheEntry>,
    weights: Vec<usize>,
    total_weight: usize,
    capacity: usize,
}

impl HotCache {
    /// The entries held, oldest first, as (key, value, weight).
    pub closed spec fn contents(self) -> Seq<(u64, Seq<u8>, nat)> {
        Seq::new(
            self.entries@.len(),
            |i: int|
                (self.entries@[i].spec_key(), self.entries@[i].spec_value(), self.weights@[i] as nat),
        )
    }

    /// The configured weight capacity.
    pub closed spec fn cap(self) -> nat {
        self.capacity as nat
    }

    /// Well-formedness: weights parallel the entries, the running total is
    /// the sum of the weights and fits the capacity, and keys are unique.
    pub closed spec fn wf(self) -> bool {
        &&& self.weights@.len() == self.entries@.len()
        &&& self.total_weight as nat == total_w(self.contents())
        &&& self.total_weight <= self.capacity
        &&& distinct_keys(self.contents())
    }

    /// An empty cache bounded by `capacity` total weight.
    pub fn new(capacity: usize) -> (r: HotCache)
        ensures
            r.wf(),
            r.cap() == capacity as nat,
            r.contents() == Seq::<(u64, Seq<u8>, nat)>::empty(),
    {
        let r = HotCache { entries: Vec::new(), weights: Vec::new(), total_weight: 0, capacity };
        proof {
            assert(r.contents() =~= Seq::<(u64, Seq<u8>, nat)>::empty());
        }
        r
    }

    /// The position of the entry keyed `key`, scanning oldest first.
    fn index_of_key(&self, key: u64) -> (r: Option<usize>)
        ensures
            match r {
                Some(i) => {
                    &&& i < self.contents().len()
                    &&& self.contents()[i as int].0 == key
                    &&& forall|j: int| 0 <= j < i ==> self.contents()[j].0 != key
                },
                None => forall|j: int|
                    0 <= j < self.contents().len() ==> self.contents()[j].0 != key,
            },
    {
        let mut i: usize = 0;
        while i < self.entries.len()
            invariant
                i <= self.contents().len(),
                self.contents().len() == self.entries@.len(),
                forall|j: int| 0 <= j < i ==> self.contents()[j].0 != key,
            decreases self.entries@.len() - i,
        {
            if self.entries[i].key == key {
                return Some(i);
            }
            i = i + 1;
        }
        None
    }

    /// Inserts `entry` under `weight`. Any entry with the same key is
    /// replaced wholesale; the oldest entries are then evicted until the
    /// newcomer fits under the capacity. An entry whose weight alone exceeds
    /// the capacity is not inserted at all (best effort).
    pub fn insert_with_weight(&mut self, entry: CacheEntry, weight: usize)
        requires
            old(self).wf(),
        ensures
            final(self).wf(),
            final(self).cap() == old(self).cap(),
            final(self).contents() == insert_view(
                old(self).contents(),
                entry.spec_key(),
                entry.spec_value(),
                weight as nat,
                old(self).cap(),
            ),
    {
        if weight > self.capacity {
            return ;
        }
        let key = entry.key;
        let ghost s0 = self.contents();
        match self.index_of_key(key) {
            Some(i) => {
                proof {
                    lemma_without_key_present(s0, key, i as int);
                    lemma_total_w_remove(s0, i as int);
                }
                let w = self.weights[i];
                let _removed = self.entries.remove(i);
                let _removed_w = self.weights.remove(i);
                proof {
                    assert(self.contents() =~= s0.remove(i as int));
                }
                self.total_weight = self.total_weight - w;
            },
            None => {
                proof {
                    lemma_without_key_absent(s0, key);
                }
            },
        }
        let ghost s1 = self.contents();
        proof {
            assert(s1 == without_key(s0, key));
            lemma_without_key_gone(s0, key);
            assert(distinct_keys(s1)) by {
                lemma_without_key_distinct(s0, key);
            }
        }
        let budget = self.capacity - weight;
        while self.total_weight > budget
            invariant
                self.weights@.len() == self.entries@.len(),
                self.total_weight as nat == total_w(self.contents()),
                distinct_keys(self.contents()),
                forall|j: int|
                    0 <= j < self.contents().len() ==> self.contents()[j].0 != key,
                evict_until(self.contents(), budget as nat) == evict_until(s1, budget as nat),
                self.capacity == old(self).capacity,
                budget == self.capacity - weight,
                weight <= self.capacity,
            decreases self.entries@.len(),
        {
            let ghost cur = self.contents();
            proof {
                assert(total_w(cur) > budget);
                assert(cur.len() > 0);
            }
            let w0 = self.weights[0];
            let _removed = self.entries.remove(0);
            let _removed_w = self.weights.remove(0);
            proof {
                assert(self.contents() =~= cur.drop_first());
                assert(total_w(cur) == (cur[0].2 + total_w(cur.drop_first())) as nat);
                assert(evict_until(cur, budget as nat) == evict_until(
                    cur.drop_first(),
                    budget as nat,
                ));
                assert(distinct_keys(cur.drop_first()));
            }
            self.total_weight = self.total_weight - w0;
        }
        let ghost s2 = self.contents();
        proof {
            assert(evict_until(s2, budget as nat) == s2);
            assert(s2 == evict_until(s1, budget as nat));
            lemma_total_w_push(s2, (entry.spec_key(), entry.spec_value(), weight as nat));
        }
        self.entries.push(entry);
        self.weights.push(weight);
        self.total_weight = self.total_weight + weight;
        proof {
            let t = (entry.spec_key(), entry.spec_value(), weight as nat);
            assert(self.contents() =~= s2.push(t));
            assert(distinct_keys(s2.push(t))) by {
                assert(forall|j: int| 0 <= j < s2.len() ==> s2[j] == s2.push(t)[j]);
            }
        }
    }

    /// Probes for `key` without updating any eviction bookkeeping, returning
    /// a copy of the cached value.
    pub fn find(&self, key: u64) -> (r: Option<Vec<u8>>)
        ensures
            match r {
                Some(v) => find_in(self.contents(), key) == Some(v@),
                None => find_in(self.contents(), key) is None,
            },
    {
        match self.index_of_key(key) {
            Some(i) => {
                proof {
                    lemma_find_full_at(self.contents(), key, i as int);
                }
                Some(clone_bytes(&self.entries[i].value))
            },
            None => {
                proof {
                    lemma_find_full_absent(self.contents(), key);
                }
                None
            },
        }
    }

    /// Probes for `key` and, on a hit, refreshes the entry's recency by
    /// moving it to the youngest position. The cached keys and values are
    /// unchanged.
    pub fn lookup(&mut self, key: u64) -> (r: Option<Vec<u8>>)
        requires
            old(self).wf(),
        ensures
            final(self).wf(),
            final(self).cap() == old(self).cap(),
            match r {
                Some(v) => (find_full(old(self).contents(), key) matches Some(t) && t.1 == v@
                    && final(self).contents() == without_key(old(self).contents(), key).push(t)),
                None => find_in(old(self).contents(), key) is None && *final(self) == *old(self),
            },
    {
        let ghost s0 = self.contents();
        match self.index_of_key(key) {
            Some(i) => {
                proof {
                    lemma_find_full_at(s0, key, i as int);
                    lemma_without_key_present(s0, key, i as int);
                    lemma_total_w_remove(s0, i as int);
                    lemma_without_key_gone(s0, key);
                    lemma_without_key_distinct(s0, key);
                }
                let e = self.entries.remove(i);
                let w = self.weights.remove(i);
                let v = clone_bytes(&e.value);
                proof {
                    assert(self.contents() =~= s0.remove(i as int));
                    lemma_total_w_push(s0.remove(i as int), s0[i as int]);
                }
                self.entries.push(e);
                self.weights.push(w);
                proof {
                    assert(self.contents() =~= s0.remove(i as int).push(s0[i as int]));
                    assert(distinct_keys(self.contents())) by {
                        assert(forall|j: int|
                            0 <= j < s0.remove(i as int).len() ==> s0.remove(i as int)[j]
                                == self.contents()[j]);
                    }
                }
                Some(v)
            },
            None => {
                proof {
                    lemma_find_full_absent(s0, key);
                }
                None
            },
        }
    }
}

impl Default for HotCache {
    /// The empty state: no entries, bounded by the default capacity.
    fn default() -> (r: HotCache)
        ensures
            r.wf(),
            r.cap() == DEFAULT_HOT_CAPACITY as nat,
            r.contents() == Seq::<(u64, Seq<u8>, nat)>::empty(),
    {
        HotCache::new(DEFAULT_HOT_CAPACITY)
    }
}

/// Removing a key that is not present changes nothing.
proof fn lemma_without_key_absent(s: Seq<(u64, Seq<u8>, nat)>, k: u64)
    requires
        forall|i: int| 0 <= i < s.len() ==> s[i].0 != k,
    ensures
        without_key(s, k) == s,
    decreases s.len(),
{
    if s.len() > 0 {
        assert(forall|i: int| 0 <= i < s.drop_first().len() ==> s.drop_first()[i].0 != k);
        lemma_without_key_absent(s.drop_first(), k);
        assert(seq![s[0]] + s.drop_first() =~= s);
    }
}

/// With distinct keys, removing the key found at `i` removes exactly that
/// entry.
proof fn lemma_without_key_present(s: Seq<(u64, Seq<u8>, nat)>, k: u64, i: int)
    requires
        distinct_keys(s),
        0 <= i < s.len(),
        s[i].0 == k,
    ensures
        without_key(s, k) == s.remove(i),
    decreases i,
{
    if i == 0 {
        assert(forall|j: int| 0 <= j < s.drop_first().len() ==> s.drop_first()[j].0 != k);
        lemma_without_key_absent(s.drop_first(), k);
        assert(s.remove(0) =~= s.drop_first());
    } else {
        assert(s[0].0 != k);
        assert(distinct_keys(s.drop_first()));
        assert(s.drop_first()[i - 1].0 == k);
        lemma_without_key_present(s.drop_first(), k, i - 1);
        assert(s.remove(i) =~= seq![s[0]] + s.drop_first().remove(i - 1));
    }
}

/// No entry of `without_key(s, k)` is keyed `k`.
proof fn lemma_without_key_gone(s: Seq<(u64, Seq<u8>, nat)>, k: u64)
    ensures
        forall|i: int| 0 <= i < without_key(s, k).len() ==> (#[trigger] without_key(s, k)[i]).0
            != k,
    decreases s.len(),
{
    if s.len() > 0 {
        lemma_without_key_gone(s.drop_first(), k);
        let rest = without_key(s.drop_first(), k);
        if s[0].0 != k {
            assert(without_key(s, k) == seq![s[0]] + rest);
            assert forall|i: int| 0 <= i < without_key(s, k).len() implies (#[trigger] without_key(
                s,
                k,
            )[i]).0 != k by {
                if i == 0 {
                    assert(without_key(s, k)[0] == s[0]);
                } else {
                    assert(without_key(s, k)[i] == rest[i - 1]);
                }
            }
        } else {
            assert(without_key(s, k) == rest);
            assert forall|i: int| 0 <= i < without_key(s, k).len() implies (#[trigger] without_key(
                s,
                k,
            )[i]).0 != k by {
                assert(without_key(s, k)[i] == rest[i]);
            }
        }
    }
}

/// Removing a key keeps the remaining keys distinct.
proof fn lemma_without_key_distinct(s: Seq<(u64, Seq<u8>, nat)>, k: u64)
    requires
        distinct_keys(s),
    ensures
        distinct_keys(without_key(s, k)),
    decreases s.len(),
{
    if s.len() > 0 {
        assert(distinct_keys(s.drop_first()));
        lemma_without_key_distinct(s.drop_first(), k);
        if s[0].0 != k {
            lemma_without_key_subset(s.drop_first(), k);
            assert(forall|i: int|
                0 <= i < without_key(s, k).len() ==> without_key(s, k)[i] == (seq![s[0]]
                    + without_key(s.drop_first(), k))[i]);
        }
    }
}

/// Every entry of `without_key(s, k)` comes from `s`.
proof fn lemma_without_key_subset(s: Seq<(u64, Seq<u8>, nat)>, k: u64)
    ensures
        forall|i: int|
            0 <= i < without_key(s, k).len() ==> exists|j: int|
                0 <= j < s.len() && s[j] == #[trigger] without_key(s, k)[i],
    decreases s.len(),
{
    if s.len() > 0 {
        lemma_without_key_subset(s.drop_first(), k);
        let rest = without_key(s.drop_first(), k);
        assert(forall|i: int|
            0 <= i < rest.len() ==> exists|j: int| 0 <= j < s.len() && s[j] == #[trigger] rest[i])
            by {
            assert(forall|j: int|
                0 <= j < s.drop_first().len() ==> s.drop_first()[j] == s[j + 1]);
        }
        if s[0].0 != k {
            assert(forall|i: int|
                0 <= i < without_key(s, k).len() ==> without_key(s, k)[i] == (seq![s[0]]
                    + rest)[i]);
        }
    }
}

/// Removing the entry at `i` subtracts exactly its weight from the total.
proof fn lemma_total_w_remove(s: Seq<(u64, Seq<u8>, nat)>, i: int)
    requires
        0 <= i < s.len(),
    ensures
        total_w(s.remove(i)) + s[i].2 == total_w(s),
    decreases i,
{
    if i == 0 {
        assert(s.remove(0) =~= s.drop_first());
    } else {
        assert(s.remove(i).drop_first() =~= s.drop_first().remove(i - 1));
        lemma_total_w_remove(s.drop_first(), i - 1);
    }
}

/// Appending an entry adds exactly its weight to the total.
proof fn lemma_total_w_push(s: Seq<(u64, Seq<u8>, nat)>, t: (u64, Seq<u8>, nat))
    ensures
        total_w(s.push(t)) == total_w(s) + t.2,
    decreases s.len(),
{
    if s.len() == 0 {
        assert(s.push(t)[0] == t);
        assert(s.push(t).drop_first() =~= Seq::<(u64, Seq<u8>, nat)>::empty());
        assert(total_w(Seq::<(u64, Seq<u8>, nat)>::empty()) == 0);
        assert(total_w(s.push(t)) == (t.2 + total_w(s.push(t).drop_first())) as nat);
    } else {
        assert(s.push(t).drop_first() =~= s.drop_first().push(t));
        lemma_total_w_push(s.drop_first(), t);
        assert(total_w(s.push(t)) == (s[0].2 + total_w(s.drop_first().push(t))) as nat);
        assert(total_w(s) == (s[0].2 + total_w(s.drop_first())) as nat);
    }
}

/// Evicting from the front preserves the absence of a key.
proof fn lemma_evict_until_no_key(s: Seq<(u64, Seq<u8>, nat)>, b: nat, k: u64)
    requires
        forall|i: int| 0 <= i < s.len() ==> s[i].0 != k,
    ensures
        forall|i: int| 0 <= i < evict_until(s, b).len() ==> (#[trigger] evict_until(s, b)[i]).0
            != k,
    decreases s.len(),
{
    if !(total_w(s) <= b || s.len() == 0) {
        assert(forall|i: int| 0 <= i < s.drop_first().len() ==> s.drop_first()[i].0 != k);
        lemma_evict_until_no_key(s.drop_first(), b, k);
        let e = evict_until(s.drop_first(), b);
        assert(evict_until(s, b) == e);
        assert forall|i: int| 0 <= i < evict_until(s, b).len() implies (#[trigger] evict_until(
            s,
            b,
        )[i]).0 != k by {
            assert(evict_until(s, b)[i] == e[i]);
        }
    }
}

/// An entry inserted within capacity is findable afterwards, under its
/// fresh value.
pub proof fn lemma_insert_view_finds(s: Seq<(u64, Seq<u8>, nat)>, k: u64, v: Seq<u8>, w: nat, cap: nat)
    requires
        w <= cap,
    ensures
        find_in(insert_view(s, k, v, w, cap), k) == Some(v),
{
    lemma_without_key_gone(s, k);
    let base = without_key(s, k);
    let b = (cap - w) as nat;
    lemma_evict_until_no_key(base, b, k);
    let e = evict_until(base, b);
    assert(e.push((k, v, w))[e.len() as int] == (k, v, w));
    assert(forall|j: int| 0 <= j < e.len() ==> e.push((k, v, w))[j] == e[j]);
    lemma_find_full_at(e.push((k, v, w)), k, e.len() as int);
}

/// The first match at `i` with nothing keyed `k` before it is what
/// `find_full` yields.
proof fn lemma_find_full_at(s: Seq<(u64, Seq<u8>, nat)>, k: u64, i: int)
    requires
        0 <= i < s.len(),
        s[i].0 == k,
        forall|j: int| 0 <= j < i ==> s[j].0 != k,
    ensures
        find_full(s, k) == Some(s[i]),
    decreases i,
{
    if i > 0 {
        assert(forall|j: int| 0 <= j < i - 1 ==> s.drop_first()[j].0 != k);
        lemma_find_full_at(s.drop_first(), k, i - 1);
    }
}

/// With no entry keyed `k`, `find_full` yields nothing.
proof fn lemma_find_full_absent(s: Seq<(u64, Seq<u8>, nat)>, k: u64)
    requires
        forall|i: int| 0 <= i < s.len() ==> s[i].0 != k,
    ensures
        find_full(s, k) is None,
    decreases s.len(),
{
    if s.len() > 0 {
        assert(forall|i: int| 0 <= i < s.drop_first().len() ==> s.drop_first()[i].0 != k);
        lemma_find_full_absent(s.drop_first(), k);
    }
}

} // verus!
