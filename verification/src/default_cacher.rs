//! Cache orchestrator: owns a membership filter, a hot cache and a durable
//! record store, and coordinates them. A write sets the filter bit first,
//! then persists the record, then best-effort inserts into the hot cache, so
//! a successful return implies durability and the hot cache never holds a
//! value that was not durably committed. A read tests the filter (fast
//! reject), probes the hot cache, and falls through to disk, promoting a disk
//! hit into the hot cache.

use vstd::prelude::*;

use crate::codec::spec_parse_decimal;
use crate::codec::parse_decimal;
use crate::filter::BloomFilter;
use crate::hot_cache::CacheEntry;
use crate::hot_cache::HotCache;
use crate::hot_cache::clone_bytes;
use crate::hot_cache::find_full;
use crate::hot_cache::find_in;
use crate::hot_cache::insert_view;
use crate::hot_cache::without_key;
use crate::kv::kv_find;
use crate::kv::kv_has;
use crate::kv::kv_keys;
use crate::kv::kv_without;
use crate::kv::lemma_kv_find_at;
use crate::kv::lemma_kv_has_index;
use crate::kv::lemma_kv_push;
use crate::kv::lemma_kv_without_facts;
use crate::kv::lemma_kv_without_other;
use crate::store::DiskStore;
use crate::store::is_temp_name;
use crate::store::lemma_decimal_not_temp;
use crate::store::lemma_suffixed_is_temp;
use crate::store::spec_is_temp_name;
use crate::CacheError;

verus! {

/// The lookup strategy `load` applies to the hot cache, chosen by the caller
/// per call.
#[derive(Clone, Copy, Debug, PartialEq, Eq, Structural)]
pub enum HotCacheProbe {
    /// Non-evicting probe: no eviction bookkeeping is updated.
    Find,
    /// Eviction-policy-aware probe: a hit refreshes the entry's recency.
    Lookup,
    /// Skip the hot cache and go straight to disk.
    Bypass,
}

/// The bytes of an optional owned value, for stating results abstractly.
pub open spec fn opt_bytes(r: Option<Vec<u8>>) -> Option<Seq<u8>> {
    match r {
        Some(v) => Some(v@),
        None => None,
    }
}

/// A counter increment that sticks at the maximum instead of wrapping, so
/// the counters are monotone.
pub open spec fn bump(c: u128) -> u128 {
    if c < u128::MAX {
        (c + 1) as u128
    } else {
        c
    }
}

/// What reading `key` from the store yields: the committed record's bytes
/// if they have the configured size, nothing if no record exists, and a
/// `CorruptRecord` error — surfaced, never swallowed — if the record's
/// length disagrees with the configuration.
pub open spec fn disk_read_outcome(store: DiskStore, key: u64) -> Result<
    Option<Seq<u8>>,
    CacheError,
> {
    match kv_find(store.records(), key) {
        Some(v) => if v.len() == store.spec_record_size() {
            Ok(Some(v))
        } else {
            Err(CacheError::CorruptRecord)
        },
        None => Ok(None),
    }
}

/// The bytes of a read outcome, for stating results abstractly.
pub open spec fn res_bytes(r: Result<Option<Vec<u8>>, CacheError>) -> Result<
    Option<Seq<u8>>,
    CacheError,
> {
    match r {
        Ok(o) => Ok(opt_bytes(o)),
        Err(e) => Err(e),
    }
}

/// The keys that recovery scavenges out of unrelated files: every name
/// without the temporary suffix that parses back into a key.
pub open spec fn foreign_keys(g: Seq<(u64, Seq<u8>)>) -> Set<u64> {
    Set::new(
        |k: u64|
            exists|i: int|
                0 <= i < g.len() && !spec_is_temp_name(#[trigger] g[i].1) && spec_parse_decimal(
                    g[i].1,
                ) == Some(k),
    )
}

/// The three-tier cache orchestrator.
pub struct DefaultCacher {
    /// The membership filter gating every lookup.
    pub bloom_filter: BloomFilter,
    /// The in-memory weighted hot tier.
    pub hot_cache: HotCache,
    /// The durable store, the source of truth.
    pub disk_cache: DiskStore,
    /// Total lookups requested of `load`; observability only.
    pub requested: u128,
    /// Lookups served from the hot tier; observability only.
    pub in_hotcache: u128,
}

impl DefaultCacher {
    /// Well-formedness of all three tiers.
    pub open spec fn wf(self) -> bool {
        &&& self.bloom_filter.wf()
        &&& self.hot_cache.wf()
        &&& self.disk_cache.wf()
    }

    /// The filter covers the disk: every committed key is a filter member,
    /// so the fast-reject path never hides a record. Established by
    /// recovery, preserved by every operation.
    pub open spec fn warm(self) -> bool {
        forall|k: u64|
            kv_has(self.disk_cache.records(), k) ==> self.bloom_filter.keys().contains(k)
    }

    /// Total lookups requested of `load`.
    pub open spec fn spec_requested(self) -> u128 {
        self.requested
    }

    /// Lookups served from the hot tier.
    pub open spec fn spec_hits(self) -> u128 {
        self.in_hotcache
    }

    /// What `load` probing the hot cache yields.
    pub open spec fn probe_result(self, key: u64, probe: HotCacheProbe) -> Option<Seq<u8>> {
        if probe is Bypass {
            None
        } else {
            find_in(self.hot_cache.contents(), key)
        }
    }

    /// The value `load` returns, as a function of the state before the call:
    /// nothing on a filter reject, the hot tier's value on a hot hit, and
    /// otherwise whatever a disk read yields — a corruption error included.
    pub open spec fn load_result(self, key: u64, probe: HotCacheProbe) -> Result<
        Option<Seq<u8>>,
        CacheError,
    > {
        if !self.bloom_filter.test_spec(key) {
            Ok(None)
        } else if self.probe_result(key, probe) is Some {
            Ok(self.probe_result(key, probe))
        } else {
            disk_read_outcome(self.disk_cache, key)
        }
    }

    /// The hot cache after `load`: untouched on a filter reject or a `Find`
    /// or `Bypass` probe without promotion; recency-refreshed on a `Lookup`
    /// hit; extended by promotion on a disk hit.
    pub open spec fn load_hot_post(self, key: u64, weight: nat, probe: HotCacheProbe) -> Seq<
        (u64, Seq<u8>, nat),
    > {
        let s = self.hot_cache.contents();
        if !self.bloom_filter.test_spec(key) {
            s
        } else if self.probe_result(key, probe) is Some {
            if probe is Lookup {
                without_key(s, key).push(find_full(s, key)->Some_0)
            } else {
                s
            }
        } else {
            match disk_read_outcome(self.disk_cache, key) {
                Ok(Some(v)) => insert_view(s, key, v, weight, self.hot_cache.cap()),
                _ => s,
            }
        }
    }

    /// Builds an orchestrator around `disk_cache`: an empty membership
    /// filter sized for `items_count` keys at a false-positive target of one
    /// in `2^fp_exponent`, and an empty hot cache. No recovery is performed,
    /// so records already on disk are not yet filter members.
    pub fn new(disk_cache: DiskStore, items_count: usize, fp_exponent: u64) -> (r: DefaultCacher)
        requires
            disk_cache.wf(),
        ensures
            r.wf(),
            r.bloom_filter.keys() == Set::<u64>::empty(),
            forall|k: u64| !r.bloom_filter.test_spec(k),
            r.bloom_filter.hashes() == crate::filter::clamped_hashes(fp_exponent),
            r.bloom_filter.bit_count() == crate::filter::optimal_bit_count(
                items_count as int,
                fp_exponent,
            ),
            r.hot_cache.contents() == Seq::<(u64, Seq<u8>, nat)>::empty(),
            r.hot_cache.cap() == crate::hot_cache::DEFAULT_HOT_CAPACITY as nat,
            r.disk_cache == disk_cache,
            r.spec_requested() == 0,
            r.spec_hits() == 0,
    {
        DefaultCacher {
            bloom_filter: BloomFilter::new_for_fp_rate(items_count, fp_exponent),
            hot_cache: HotCache::default(),
            disk_cache,
            requested: 0,
            in_hotcache: 0,
        }
    }

    /// Read-only access to the underlying durable store.
    pub fn disk_cacher(&self) -> (r: &DiskStore)
        ensures
            r == self.disk_cache,
    {
        &self.disk_cache
    }

    /// Probes the hot cache for `key` without updating eviction bookkeeping.
    pub fn load_from_hot_cache(&mut self, key: u64) -> (r: Option<Vec<u8>>)
        ensures
            *final(self) == *old(self),
            opt_bytes(r) == find_in(old(self).hot_cache.contents(), key),
    {
        self.hot_cache.find(key)
    }

    /// Probes the hot cache for `key`, refreshing the entry's recency on a
    /// hit. Keys, values and the other tiers are unchanged.
    pub fn lookup_hot_cache(&mut self, key: u64) -> (r: Option<Vec<u8>>)
        requires
            old(self).hot_cache.wf(),
        ensures
            final(self).hot_cache.wf(),
            old(self).wf() ==> final(self).wf(),
            final(self).bloom_filter == old(self).bloom_filter,
            final(self).disk_cache == old(self).disk_cache,
            final(self).hot_cache.cap() == old(self).hot_cache.cap(),
            final(self).spec_requested() == old(self).spec_requested(),
            final(self).spec_hits() == old(self).spec_hits(),
            opt_bytes(r) == find_in(old(self).hot_cache.contents(), key),
            match find_full(old(self).hot_cache.contents(), key) {
                Some(t) => final(self).hot_cache.contents() == without_key(
                    old(self).hot_cache.contents(),
                    key,
                ).push(t),
                None => *final(self) == *old(self),
            },
    {
        self.hot_cache.lookup(key)
    }

    /// Stores `(key, value)`: the key joins the membership filter before the
    /// durable write begins, the record is persisted crash-atomically, and
    /// only then is the entry best-effort inserted into the hot cache under
    /// `weight`. Succeeds exactly when `value` has the store's record size; a
    /// failed store leaves no new committed record and the hot cache
    /// untouched, but the filter bit stays set (a harmless false positive).
    pub fn store(&mut self, key: u64, value: Vec<u8>, weight: usize) -> (r: Result<
        (),
        CacheError,
    >)
        requires
            old(self).wf(),
        ensures
            final(self).wf(),
            final(self).bloom_filter.keys() == old(self).bloom_filter.keys().insert(key),
            final(self).bloom_filter.test_spec(key),
            forall|k2: u64|
                old(self).bloom_filter.test_spec(k2) ==> final(self).bloom_filter.test_spec(k2),
            final(self).spec_requested() == old(self).spec_requested(),
            final(self).spec_hits() == old(self).spec_hits(),
            final(self).disk_cache.spec_root() == old(self).disk_cache.spec_root(),
            final(self).disk_cache.spec_shard_count() == old(self).disk_cache.spec_shard_count(),
            final(self).disk_cache.spec_record_size() == old(self).disk_cache.spec_record_size(),
            final(self).hot_cache.cap() == old(self).hot_cache.cap(),
            old(self).warm() ==> final(self).warm(),
            match r {
                Ok(()) => value@.len() == old(self).disk_cache.spec_record_size() && final(self).disk_cache.records() == kv_without(old(self).disk_cache.records(), key).push(
                    (key, value@),
                ) && final(self).disk_cache.temps() == kv_without(
                    old(self).disk_cache.temps(),
                    key,
                ) && final(self).hot_cache.contents() == insert_view(
                    old(self).hot_cache.contents(),
                    key,
                    value@,
                    weight as nat,
                    old(self).hot_cache.cap(),
                ),
                Err(e) => e == CacheError::InvalidRecordSize && value@.len() != old(self).disk_cache.spec_record_size() && final(self).disk_cache == old(self).disk_cache
                    && final(self).hot_cache == old(self).hot_cache,
            },
    {
        self.bloom_filter.set(&key);
        let ghost v0 = value@;
        let ghost f0 = self.disk_cache.records();
        let disk_copy = clone_bytes(&value);
        match self.disk_cache.write(key, disk_copy) {
            Err(e) => Err(e),
            Ok(()) => {
                self.hot_cache.insert_with_weight(CacheEntry::new(key, value), weight);
                proof {
                    if old(self).warm() {
                        assert forall|k2: u64|
                            kv_has(self.disk_cache.records(), k2) implies self.bloom_filter.keys()
                            .contains(k2) by {
                            if k2 != key {
                                lemma_kv_without_facts(f0, key);
                                lemma_kv_push(kv_without(f0, key), key, v0);
                                lemma_kv_without_other(f0, key, k2);
                            }
                        }
                    }
                }
                Ok(())
            },
        }
    }

    /// The read path. Counts the request; tests the membership filter and
    /// returns nothing on a reject (guaranteed no record exists when the
    /// cacher is warm); probes the hot cache with the chosen strategy and
    /// counts a hit; otherwise falls through to one disk read, promoting a
    /// disk hit into the hot cache under `weight`.
    pub fn load(&mut self, key: u64, weight: usize, probe: HotCacheProbe) -> (r: Result<
        Option<Vec<u8>>,
        CacheError,
    >)
        requires
            old(self).bloom_filter.wf(),
            old(self).hot_cache.wf(),
        ensures
            final(self).bloom_filter == old(self).bloom_filter,
            final(self).disk_cache == old(self).disk_cache,
            final(self).hot_cache.wf(),
            final(self).hot_cache.cap() == old(self).hot_cache.cap(),
            old(self).wf() ==> final(self).wf(),
            res_bytes(r) == old(self).load_result(key, probe),
            final(self).hot_cache.contents() == old(self).load_hot_post(key, weight as nat, probe),
            final(self).spec_requested() == bump(old(self).spec_requested()),
            final(self).spec_hits() == if old(self).bloom_filter.test_spec(key) && old(self).probe_result(key, probe) is Some {
                bump(old(self).spec_hits())
            } else {
                old(self).spec_hits()
            },
            old(self).warm() ==> final(self).warm(),
    {
        if self.requested < u128::MAX {
            self.requested = self.requested + 1;
        }
        if !self.bloom_filter.check(&key) {
            return Ok(None);
        }
        let maybe: Option<Vec<u8>> = match probe {
            HotCacheProbe::Find => self.load_from_hot_cache(key),
            HotCacheProbe::Lookup => self.lookup_hot_cache(key),
            HotCacheProbe::Bypass => None,
        };
        match maybe {
            Some(v) => {
                if self.in_hotcache < u128::MAX {
                    self.in_hotcache = self.in_hotcache + 1;
                }
                Ok(Some(v))
            },
            None => self.load_from_disk(key, weight),
        }
    }

    /// Forces a disk read of `key`, bypassing filter and hot cache. On a hit
    /// the value is promoted into the hot cache under `weight` and returned;
    /// a miss yields nothing, and a record whose size disagrees with the
    /// configuration is store corruption, propagated to the caller rather
    /// than swallowed. The hot cache never receives a corrupt value.
    pub fn load_from_disk(&mut self, key: u64, weight: usize) -> (r: Result<
        Option<Vec<u8>>,
        CacheError,
    >)
        requires
            old(self).hot_cache.wf(),
        ensures
            final(self).bloom_filter == old(self).bloom_filter,
            final(self).disk_cache == old(self).disk_cache,
            final(self).hot_cache.wf(),
            final(self).hot_cache.cap() == old(self).hot_cache.cap(),
            old(self).wf() ==> final(self).wf(),
            final(self).spec_requested() == old(self).spec_requested(),
            final(self).spec_hits() == old(self).spec_hits(),
            res_bytes(r) == disk_read_outcome(old(self).disk_cache, key),
            final(self).hot_cache.contents() == match disk_read_outcome(
                old(self).disk_cache,
                key,
            ) {
                Ok(Some(v)) => insert_view(
                    old(self).hot_cache.contents(),
                    key,
                    v,
                    weight as nat,
                    old(self).hot_cache.cap(),
                ),
                _ => old(self).hot_cache.contents(),
            },
    {
        match self.disk_cache.read(key) {
            Err(corrupt) => Err(corrupt),
            Ok(None) => Ok(None),
            Ok(Some(v)) => {
                let copy = clone_bytes(&v);
                self.hot_cache.insert_with_weight(CacheEntry::new(key, v), weight);
                Ok(Some(copy))
            },
        }
    }

    /// Rebuilds the membership filter from the on-disk state: every filename
    /// in the shard directories is parsed back into a key and inserted;
    /// temporary-suffixed artifacts and names that fail to parse are
    /// skipped, never failing the recovery. Record bodies are not read and
    /// the hot cache is untouched. Afterwards every committed key is a
    /// filter member (the cacher is warm).
    pub fn init_bloom_filter(&mut self) -> (r: Result<(), CacheError>)
        requires
            old(self).wf(),
        ensures
            final(self).wf(),
            r is Ok,
            final(self).disk_cache == old(self).disk_cache,
            final(self).hot_cache == old(self).hot_cache,
            final(self).spec_requested() == old(self).spec_requested(),
            final(self).spec_hits() == old(self).spec_hits(),
            forall|k2: u64|
                old(self).bloom_filter.test_spec(k2) ==> final(self).bloom_filter.test_spec(k2),
            final(self).bloom_filter.keys() == old(self).bloom_filter.keys().union(
                kv_keys(old(self).disk_cache.records()),
            ).union(foreign_keys(old(self).disk_cache.foreign_files())),
            final(self).warm(),
    {
        let names = self.disk_cache.file_names();
        let ghost f = self.disk_cache.records();
        let ghost t = self.disk_cache.temps();
        let ghost g = self.disk_cache.foreign_files();
        let ghost k0 = self.bloom_filter.keys();
        let mut i: usize = 0;
        while i < names.len()
            invariant
                self.bloom_filter.wf(),
                self.hot_cache == old(self).hot_cache,
                self.disk_cache == old(self).disk_cache,
                self.requested == old(self).requested,
                self.in_hotcache == old(self).in_hotcache,
                i <= names@.len(),
                f == self.disk_cache.records(),
                t == self.disk_cache.temps(),
                g == self.disk_cache.foreign_files(),
                names@.len() == f.len() + t.len() + g.len(),
                forall|j: int| 0 <= j < f.len() ==> names@[j]@ == crate::codec::spec_decimal(
                    f[j].0 as nat,
                ),
                forall|j: int|
                    0 <= j < t.len() ==> names@[f.len() + j]@ == crate::codec::spec_decimal(
                        t[j].0 as nat,
                    ) + crate::store::tmp_suffix(),
                forall|j: int|
                    0 <= j < g.len() ==> names@[f.len() + t.len() + j]@ == g[j].1,
                forall|k2: u64|
                    old(self).bloom_filter.test_spec(k2) ==> self.bloom_filter.test_spec(k2),
                self.bloom_filter.keys() == k0.union(prefix_keys(names@, i as int)),
            decreases names@.len() - i,
        {
            let mut handled = false;
            if !is_temp_name(&names[i]) {
                match parse_decimal(&names[i]) {
                    Some(k) => {
                        self.bloom_filter.set(&k);
                        handled = true;
                        proof {
                            assert(prefix_keys(names@, i as int + 1) =~= prefix_keys(
                                names@,
                                i as int,
                            ).insert(k)) by {
                                assert(!spec_is_temp_name(names@[i as int]@)
                                    && spec_parse_decimal(names@[i as int]@) == Some(k));
                            }
                            assert(self.bloom_filter.keys() =~= k0.union(
                                prefix_keys(names@, i as int + 1),
                            ));
                        }
                    },
                    None => {},
                }
            }
            proof {
                if !handled {
                    assert(prefix_keys(names@, i as int + 1) =~= prefix_keys(names@, i as int))
                        by {
                        assert(spec_is_temp_name(names@[i as int]@) || spec_parse_decimal(
                            names@[i as int]@,
                        ) is None);
                    }
                }
            }
            i = i + 1;
        }
        proof {
            assert(prefix_keys(names@, names@.len() as int) =~= kv_keys(f).union(foreign_keys(g)))
                by {
                assert forall|k: u64|
                    prefix_keys(names@, names@.len() as int).contains(k) implies kv_keys(
                    f,
                ).union(foreign_keys(g)).contains(k) by {
                    let j = choose|j: int|
                        0 <= j < names@.len() && !spec_is_temp_name(#[trigger] names@[j]@)
                            && spec_parse_decimal(names@[j]@) == Some(k);
                    if j < f.len() {
                        crate::codec::lemma_decimal_round_trip(f[j].0);
                        assert(k == f[j].0);
                        assert(forall|j2: int| 0 <= j2 < j ==> f[j2].0 != k);
                        lemma_kv_find_at(f, k, j);
                        assert(kv_keys(f).contains(k));
                    } else if j < f.len() + t.len() {
                        lemma_suffixed_is_temp(crate::codec::spec_decimal(t[j - f.len()].0 as nat));
                        assert(false);
                    } else {
                        let j2 = j - f.len() - t.len();
                        assert(0 <= j2 < g.len() && !spec_is_temp_name(g[j2].1)
                            && spec_parse_decimal(g[j2].1) == Some(k));
                        assert(foreign_keys(g).contains(k));
                    }
                }
                assert forall|k: u64| kv_keys(f).union(foreign_keys(g)).contains(k) implies
                    prefix_keys(names@, names@.len() as int).contains(k) by {
                    if kv_keys(f).contains(k) {
                        lemma_kv_has_index(f, k);
                        let j = choose|j: int| 0 <= j < f.len() && f[j].0 == k;
                        lemma_decimal_not_temp(k as nat);
                        crate::codec::lemma_decimal_round_trip(k);
                        assert(0 <= j < names@.len() && !spec_is_temp_name(names@[j]@)
                            && spec_parse_decimal(names@[j]@) == Some(k));
                    } else {
                        let j2 = choose|j2: int|
                            0 <= j2 < g.len() && !spec_is_temp_name(#[trigger] g[j2].1)
                                && spec_parse_decimal(g[j2].1) == Some(k);
                        let j = f.len() + t.len() + j2;
                        assert(0 <= j < names@.len() && !spec_is_temp_name(names@[j]@)
                            && spec_parse_decimal(names@[j]@) == Some(k));
                    }
                }
            }
            assert(self.bloom_filter.keys() =~= k0.union(kv_keys(f)).union(foreign_keys(g)));
            assert forall|k: u64| kv_has(self.disk_cache.records(), k) implies self.bloom_filter
                .keys().contains(k) by {
                assert(kv_keys(f).contains(k));
            }
        }
        Ok(())
    }

    /// Builds an orchestrator as `new` does, then rebuilds the membership
    /// filter from the store's on-disk state, so that every previously
    /// committed key is already a filter member.
    pub fn new_and_init_bloom(disk_cache: DiskStore, items_count: usize, fp_exponent: u64) -> (r:
        Result<DefaultCacher, CacheError>)
        requires
            disk_cache.wf(),
        ensures
            match r {
                Ok(c) => {
                    &&& c.wf()
                    &&& c.warm()
                    &&& c.disk_cache == disk_cache
                    &&& c.hot_cache.contents() == Seq::<(u64, Seq<u8>, nat)>::empty()
                    &&& c.bloom_filter.keys() == kv_keys(disk_cache.records()).union(
                        foreign_keys(disk_cache.foreign_files()),
                    )
                    &&& c.spec_requested() == 0
                    &&& c.spec_hits() == 0
                },
                Err(_) => false,
            },
    {
        let mut cacher = Self::new(disk_cache, items_count, fp_exponent);
        match cacher.init_bloom_filter() {
            Ok(()) => {
                proof {
                    assert(cacher.bloom_filter.keys() =~= kv_keys(
                        cacher.disk_cache.records(),
                    ).union(foreign_keys(cacher.disk_cache.foreign_files())));
                }
                Ok(cacher)
            },
            Err(e) => Err(e),
        }
    }
}

/// No false negatives: on a warm cacher every committed key — in
/// particular every key successfully stored and not removed, whether in
/// this process or before a restart followed by recovery — tests positive
/// against the membership filter, so the fast-reject path never hides a
/// record.
pub proof fn lemma_no_false_negatives(c: DefaultCacher, key: u64)
    requires
        c.wf(),
        c.warm(),
        kv_has(c.disk_cache.records(), key),
    ensures
        c.bloom_filter.test_spec(key),
{
    crate::filter::lemma_no_false_negatives(c.bloom_filter, key);
}

/// Disk is authoritative: a warm cacher serves every committed record
/// through `load`, even with the hot-cache probe bypassed — and so in
/// particular after the key was evicted from the hot cache, or after a
/// restart followed by recovery.
pub proof fn lemma_disk_is_authoritative(c: DefaultCacher, key: u64, v: Seq<u8>)
    requires
        c.wf(),
        c.warm(),
        kv_find(c.disk_cache.records(), key) == Some(v),
    ensures
        c.load_result(key, HotCacheProbe::Bypass) == Ok::<Option<Seq<u8>>, CacheError>(Some(v)),
{
    lemma_no_false_negatives(c, key);
    lemma_kv_has_index(c.disk_cache.records(), key);
    let f = c.disk_cache.records();
    let i = choose|i: int| 0 <= i < f.len() && f[i].0 == key && kv_find(f, key) == Some(f[i].1);
    assert(f[i].1.len() == c.disk_cache.spec_record_size());
}

/// Promotion on disk hit: when `load` misses the hot cache but hits disk,
/// the promoted entry stands in the hot cache afterwards (its weight
/// fitting the capacity), so a subsequent `load` of the same key is served
/// by the hot tier with no further disk read. `post` is the cacher `load`
/// left behind, as its contract states it.
pub proof fn lemma_promotion_on_disk_hit(
    pre: DefaultCacher,
    post: DefaultCacher,
    key: u64,
    weight: nat,
    probe: HotCacheProbe,
    v: Seq<u8>,
)
    requires
        pre.wf(),
        pre.bloom_filter.test_spec(key),
        pre.probe_result(key, probe) is None,
        disk_read_outcome(pre.disk_cache, key) == Ok::<Option<Seq<u8>>, CacheError>(Some(v)),
        weight <= pre.hot_cache.cap(),
        post.bloom_filter == pre.bloom_filter,
        post.hot_cache.contents() == pre.load_hot_post(key, weight, probe),
    ensures
        find_in(post.hot_cache.contents(), key) == Some(v),
        post.probe_result(key, HotCacheProbe::Find) == Some(v),
        post.load_result(key, HotCacheProbe::Find) == Ok::<Option<Seq<u8>>, CacheError>(Some(v)),
{
    crate::hot_cache::lemma_insert_view_finds(
        pre.hot_cache.contents(),
        key,
        v,
        weight,
        pre.hot_cache.cap(),
    );
}

/// Unrelated files whose names do not parse contribute nothing to
/// recovery.
pub proof fn lemma_foreign_unparsable(g: Seq<(u64, Seq<u8>)>)
    requires
        forall|i: int| 0 <= i < g.len() ==> spec_parse_decimal(#[trigger] g[i].1) is None,
    ensures
        foreign_keys(g) == Set::<u64>::empty(),
{
    assert(foreign_keys(g) =~= Set::<u64>::empty());
}

/// Recovery correctness: with any number of committed records and any
/// number of unrelated files whose names do not parse, a recovered cacher's
/// filter members are exactly the committed keys — recovery neither fails
/// on the unrelated files nor sets a bit for them.
pub proof fn lemma_recovery_exact(c: DefaultCacher)
    requires
        c.bloom_filter.keys() == kv_keys(c.disk_cache.records()).union(
            foreign_keys(c.disk_cache.foreign_files()),
        ),
        forall|i: int|
            0 <= i < c.disk_cache.foreign_files().len() ==> spec_parse_decimal(
                #[trigger] c.disk_cache.foreign_files()[i].1,
            ) is None,
    ensures
        c.bloom_filter.keys() == kv_keys(c.disk_cache.records()),
{
    lemma_foreign_unparsable(c.disk_cache.foreign_files());
    assert(kv_keys(c.disk_cache.records()).union(Set::<u64>::empty()) =~= kv_keys(
        c.disk_cache.records(),
    ));
}

/// The keys recovered from the first `n` filenames: those without the
/// temporary suffix that parse back into a key.
pub open spec fn prefix_keys(ns: Seq<Vec<u8>>, n: int) -> Set<u64> {
    Set::new(
        |k: u64|
            exists|j: int|
                0 <= j < n && !spec_is_temp_name(#[trigger] ns[j]@) && spec_parse_decimal(ns[j]@)
                    == Some(k),
    )
}

} // verus!
