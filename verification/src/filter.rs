//! Membership filter: a space-efficient approximate set over keys with no
//! false negatives. Keys are hashed to a fixed number of positions in a bit
//! array; `set` turns those positions on and `check` tests them all. A key
//! that was ever set therefore always checks true; an unrelated key may
//! collide and check true as well (a false positive), but never the reverse.

use vstd::prelude::*;

verus! {

/// First mixing constant for the double-hashing scheme.
pub const MIX_A: u64 = 0x9E37_79B9_7F4A_7C15;

/// Second mixing constant for the double-hashing scheme.
pub const MIX_B: u64 = 0xC2B2_AE3D_27D4_EB4F;

/// The bit position probed for `key` by hash function `i` in a bit array of
/// length `m`.
pub open spec fn spec_bit_index(key: u64, i: int, m: int) -> int {
    (key * MIX_A + i * MIX_B) % m
}

/// Computes the bit position probed for `key` by hash function `i`.
pub fn bit_index(key: u64, i: u64, m: usize) -> (r: usize)
    requires
        m > 0,
        i < 64,
    ensures
        r < m,
        r as int == spec_bit_index(key, i as int, m as int),
{
    proof {
        assert((key as int) * (MIX_A as int) <= 0xFFFF_FFFF_FFFF_FFFF * (MIX_A as int))
            by (nonlinear_arith)
            requires 0 <= key as int <= 0xFFFF_FFFF_FFFF_FFFF;
        assert((i as int) * (MIX_B as int) <= 64 * (MIX_B as int)) by (nonlinear_arith)
            requires 0 <= i as int <= 64;
    }
    let h: u128 = (key as u128) * (MIX_A as u128) + (i as u128) * (MIX_B as u128);
    (h % (m as u128)) as usize
}

/// How many hash functions a filter built for a false-positive target of
/// one in `2^fp_exponent` uses: the exponent, clamped to 1..=64.
pub open spec fn clamped_hashes(fp_exponent: u64) -> int {
    if fp_exponent < 1 {
        1
    } else if fp_exponent > 64 {
        64
    } else {
        fp_exponent as int
    }
}

/// The standard optimal bit count for `items_count` expected keys at a
/// false-positive target of one in `2^fp_exponent`:
/// `items_count * fp_exponent / ln 2`, the logarithm approximated as
/// `1000 / 1443`, one bit added so the array is never empty, the whole
/// capped at `usize::MAX`.
pub open spec fn optimal_bit_count(items_count: int, fp_exponent: u64) -> int {
    let wide = items_count * clamped_hashes(fp_exponent) * 1443 / 1000 + 1;
    if wide > usize::MAX {
        usize::MAX as int
    } else {
        wide
    }
}

/// The probabilistic membership filter. The ghost `keys` field records which
/// keys have actually been set, so that contracts can speak of true
/// membership rather than of bit patterns.
pub struct BloomFilter {
    bits: Vec<bool>,
    hash_count: u64,
    keys: Ghost<Set<u64>>,
}

impl BloomFilter {
    /// The set of keys that have been inserted since construction.
    pub closed spec fn keys(self) -> Set<u64> {
        self.keys@
    }

    /// The length of the bit array.
    pub closed spec fn bit_count(self) -> int {
        self.bits@.len() as int
    }

    /// How many bit positions each key is hashed to.
    pub closed spec fn hashes(self) -> int {
        self.hash_count as int
    }

    /// What `check` returns: every probed position of `key` is on.
    pub closed spec fn test_spec(self, key: u64) -> bool {
        forall|i: int|
            0 <= i < self.hash_count ==> self.bits@[spec_bit_index(
                key,
                i,
                self.bits@.len() as int,
            )]
    }

    /// Well-formedness: a non-empty bit array, between one and 64 hash
    /// functions, and every inserted key has all of its positions on.
    pub closed spec fn wf(self) -> bool {
        &&& self.bits@.len() > 0
        &&& 1 <= self.hash_count <= 64
        &&& forall|k: u64| self.keys@.contains(k) ==> self.test_spec(k)
    }

    /// Builds an empty filter sized by the standard optimal-bit-count rule
    /// for `items_count` expected keys and a target false-positive rate of
    /// one in `2^fp_exponent`: `fp_exponent` hash functions (clamped to
    /// 1..=64) and `items_count * fp_exponent / ln 2` bits, the natural
    /// logarithm approximated as `1000 / 1443`.
    pub fn new_for_fp_rate(items_count: usize, fp_exponent: u64) -> (r: BloomFilter)
        ensures
            r.wf(),
            r.keys() == Set::<u64>::empty(),
            r.hashes() == clamped_hashes(fp_exponent),
            r.bit_count() == optimal_bit_count(items_count as int, fp_exponent),
            forall|k: u64| !r.test_spec(k),
    {
        let k: u64 = if fp_exponent < 1 {
            1
        } else if fp_exponent > 64 {
            64
        } else {
            fp_exponent
        };
        proof {
            assert((items_count as int) * (k as int) <= 0xFFFF_FFFF_FFFF_FFFF * 64)
                by (nonlinear_arith)
                requires
                    0 <= items_count as int <= 0xFFFF_FFFF_FFFF_FFFF,
                    0 <= k as int <= 64,
            ;
        }
        let wide: u128 = (items_count as u128) * (k as u128) * 1443 / 1000 + 1;
        let m: usize = if wide > (usize::MAX as u128) {
            usize::MAX
        } else {
            wide as usize
        };
        proof {
            assert(m as int == optimal_bit_count(items_count as int, fp_exponent));
        }
        let mut bits: Vec<bool> = Vec::new();
        let mut j: usize = 0;
        while j < m
            invariant
                bits@.len() == j,
                j <= m,
                forall|p: int| 0 <= p < j ==> !bits@[p],
            decreases m - j,
        {
            bits.push(false);
            j = j + 1;
        }
        let r = BloomFilter { bits, hash_count: k, keys: Ghost(Set::empty()) };
        proof {
            assert forall|key: u64| !r.test_spec(key) by {
                let idx = spec_bit_index(key, 0, m as int);
                assert(0 <= idx < m);
                assert(!r.bits@[idx]);
            }
        }
        r
    }

    /// Inserts `key`: turns on every position the key hashes to. Existing
    /// bits are never cleared, so membership only grows.
    pub fn set(&mut self, key: &u64)
        requires
            old(self).wf(),
        ensures
            final(self).wf(),
            final(self).keys() == old(self).keys().insert(*key),
            final(self).bit_count() == old(self).bit_count(),
            final(self).hashes() == old(self).hashes(),
            forall|k2: u64| old(self).test_spec(k2) ==> final(self).test_spec(k2),
            final(self).test_spec(*key),
    {
        let m = self.bits.len();
        let mut i: u64 = 0;
        while i < self.hash_count
            invariant
                self.bits@.len() == m,
                m > 0,
                self.hash_count == old(self).hash_count,
                1 <= self.hash_count <= 64,
                self.keys == old(self).keys,
                i <= self.hash_count,
                forall|p: int| 0 <= p < m && old(self).bits@[p] ==> self.bits@[p],
                forall|j: int|
                    0 <= j < i ==> self.bits@[spec_bit_index(*key, j, m as int)],
            decreases self.hash_count - i,
        {
            let idx = bit_index(*key, i, m);
            self.bits[idx] = true;
            i = i + 1;
        }
        proof {
            self.keys@ = self.keys@.insert(*key);
            assert(forall|k2: u64|
                old(self).test_spec(k2) ==> final(self).test_spec(k2)) by {
                assert(forall|p: int|
                    0 <= p < m && old(self).bits@[p] ==> #[trigger] self.bits@[p]);
            }
        }
    }

    /// Tests `key`: true exactly when every position the key hashes to is
    /// on. A key that was ever inserted always tests true (no false
    /// negatives); an uninserted key may still test true (a false positive).
    pub fn check(&self, key: &u64) -> (r: bool)
        requires
            self.wf(),
        ensures
            r == self.test_spec(*key),
            self.keys().contains(*key) ==> r,
    {
        let m = self.bits.len();
        let mut i: u64 = 0;
        while i < self.hash_count
            invariant
                self.wf(),
                m == self.bits@.len(),
                i <= self.hash_count,
                forall|j: int|
                    0 <= j < i ==> self.bits@[spec_bit_index(*key, j, m as int)],
            decreases self.hash_count - i,
        {
            let idx = bit_index(*key, i, m);
            if !self.bits[idx] {
                proof {
                    assert(!self.bits@[spec_bit_index(*key, i as int, m as int)]);
                    if self.keys().contains(*key) {
                        assert(self.test_spec(*key));
                        assert(false);
                    }
                }
                return false;
            }
            i = i + 1;
        }
        true
    }
}

/// No false negatives: a key that is a true member of the filter always
/// tests positive.
pub proof fn lemma_no_false_negatives(f: BloomFilter, key: u64)
    requires
        f.wf(),
        f.keys().contains(key),
    ensures
        f.test_spec(key),
{
}

} // verus!
