//! Durable record store: one fixed-size record per key under a deterministic
//! sharded path. A write first lands in a temporary entry (the path with a
//! fixed suffix) and becomes visible under the final path only by an atomic
//! commit, so no reader ever observes a partially-written record. The store
//! tracks the directory state itself — committed records, in-progress
//! temporaries, and unrelated files planted by others — and a host binds the
//! same transitions to a real filesystem using the path helpers here.

use vstd::prelude::*;

use crate::codec::spec_decimal;
use crate::codec::push_decimal;
use crate::hot_cache::clone_bytes;
use crate::kv::kv_distinct;
use crate::kv::kv_find;
use crate::kv::kv_has;
use crate::kv::kv_without;
use crate::kv::lemma_kv_find_absent;
use crate::kv::lemma_kv_find_at;
use crate::kv::lemma_kv_push;
use crate::kv::lemma_kv_without_absent;
use crate::kv::lemma_kv_without_facts;
use crate::kv::lemma_kv_without_present;
use crate::kv::lemma_kv_without_push_same;
use crate::CacheError;

verus! {

/// The suffix that marks an in-progress temporary entry: `".tmp"`.
pub open spec fn tmp_suffix() -> Seq<u8> {
    seq![46u8, 116u8, 109u8, 112u8]
}

/// Whether a filename carries the temporary-entry suffix.
pub open spec fn spec_is_temp_name(s: Seq<u8>) -> bool {
    s.len() >= 4 && s.subrange(s.len() - 4, s.len() as int) == tmp_suffix()
}

/// The final path of `key`: `root/<key mod shard_count>/<key in decimal>`.
pub open spec fn spec_record_path(root: Seq<u8>, shard_count: u64, key: u64) -> Seq<u8> {
    root + seq![47u8] + spec_decimal((key as nat) % (shard_count as nat)) + seq![47u8]
        + spec_decimal(key as nat)
}

/// The temporary path of `key`: its final path with the temporary suffix.
pub open spec fn spec_temp_path(root: Seq<u8>, shard_count: u64, key: u64) -> Seq<u8> {
    spec_record_path(root, shard_count, key) + tmp_suffix()
}

/// The view of a vector of keyed byte records.
pub open spec fn pview(s: Seq<(u64, Vec<u8>)>) -> Seq<(u64, Seq<u8>)> {
    Seq::new(s.len(), |i: int| (s[i].0, s[i].1@))
}

/// The durable record store. `finals` are the committed records, visible to
/// every reader; `temps` are in-progress or orphaned temporary entries,
/// never visible as records; `foreign` are unrelated files that something
/// else put into the shard directories (shard, raw filename).
pub struct DiskStore {
    root: Vec<u8>,
    shard_count: u64,
    record_size: usize,
    finals: Vec<(u64, Vec<u8>)>,
    temps: Vec<(u64, Vec<u8>)>,
    foreign: Vec<(u64, Vec<u8>)>,
}

impl DiskStore {
    /// The committed records, oldest commit first.
    pub closed spec fn records(self) -> Seq<(u64, Seq<u8>)> {
        pview(self.finals@)
    }

    /// The temporary entries.
    pub closed spec fn temps(self) -> Seq<(u64, Seq<u8>)> {
        pview(self.temps@)
    }

    /// The unrelated files, as (shard, filename).
    pub closed spec fn foreign_files(self) -> Seq<(u64, Seq<u8>)> {
        pview(self.foreign@)
    }

    /// The configured storage root path.
    pub closed spec fn spec_root(self) -> Seq<u8> {
        self.root@
    }

    /// The configured shard count.
    pub closed spec fn spec_shard_count(self) -> u64 {
        self.shard_count
    }

    /// The configured fixed record size in bytes.
    pub closed spec fn spec_record_size(self) -> nat {
        self.record_size as nat
    }

    /// Well-formedness: a positive shard count, at most one committed record
    /// and one temporary entry per key, and every held value of the
    /// configured size.
    pub open spec fn wf(self) -> bool {
        &&& self.spec_shard_count() > 0
        &&& kv_distinct(self.records())
        &&& kv_distinct(self.temps())
        &&& forall|i: int|
            0 <= i < self.records().len() ==> self.records()[i].1.len()
                == self.spec_record_size()
        &&& forall|i: int|
            0 <= i < self.temps().len() ==> self.temps()[i].1.len() == self.spec_record_size()
    }

    /// An empty store rooted at `root`, with `shard_count` shard directories
    /// and fixed-size records of `record_size` bytes.
    pub fn new(root: Vec<u8>, shard_count: u64, record_size: usize) -> (r: DiskStore)
        requires
            shard_count > 0,
        ensures
            r.wf(),
            r.spec_root() == root@,
            r.spec_shard_count() == shard_count,
            r.spec_record_size() == record_size as nat,
            r.records() == Seq::<(u64, Seq<u8>)>::empty(),
            r.temps() == Seq::<(u64, Seq<u8>)>::empty(),
            r.foreign_files() == Seq::<(u64, Seq<u8>)>::empty(),
    {
        let r = DiskStore {
            root,
            shard_count,
            record_size,
            finals: Vec::new(),
            temps: Vec::new(),
            foreign: Vec::new(),
        };
        proof {
            assert(r.records() =~= Seq::<(u64, Seq<u8>)>::empty());
            assert(r.temps() =~= Seq::<(u64, Seq<u8>)>::empty());
            assert(r.foreign_files() =~= Seq::<(u64, Seq<u8>)>::empty());
        }
        r
    }

    /// The shard directory `key` maps to: `key mod shard_count`, a pure
    /// function of the key, stable across restarts.
    pub fn shard_of(&self, key: u64) -> (r: u64)
        requires
            self.spec_shard_count() > 0,
        ensures
            r == (key as nat) % (self.spec_shard_count() as nat),
    {
        key % self.shard_count
    }

    /// The configured storage root, exposed so that recovery and external
    /// maintenance can be driven from it.
    pub fn root_directory(&self) -> (r: &Vec<u8>)
        ensures
            r@ == self.spec_root(),
    {
        &self.root
    }

    /// The final path of `key` under the root.
    pub fn record_path(&self, key: u64) -> (r: Vec<u8>)
        requires
            self.spec_shard_count() > 0,
        ensures
            r@ == spec_record_path(self.spec_root(), self.spec_shard_count(), key),
    {
        let mut out = clone_bytes(&self.root);
        out.push(47u8);
        push_decimal(key % self.shard_count, &mut out);
        out.push(47u8);
        push_decimal(key, &mut out);
        proof {
            assert(out@ =~= spec_record_path(self.spec_root(), self.spec_shard_count(), key));
        }
        out
    }

    /// The temporary path of `key`: the final path plus the fixed suffix.
    pub fn temp_path(&self, key: u64) -> (r: Vec<u8>)
        requires
            self.spec_shard_count() > 0,
        ensures
            r@ == spec_temp_path(self.spec_root(), self.spec_shard_count(), key),
            spec_is_temp_name(r@),
    {
        let mut out = self.record_path(key);
        out.push(46u8);
        out.push(116u8);
        out.push(109u8);
        out.push(112u8);
        proof {
            assert(out@ =~= spec_temp_path(self.spec_root(), self.spec_shard_count(), key));
            assert(out@.subrange(out@.len() - 4, out@.len() as int) =~= tmp_suffix());
        }
        out
    }

    /// Starts a write of `value` under `key`: the bytes land in the key's
    /// temporary entry, silently overwriting any orphaned temporary from an
    /// interrupted earlier write. The committed records are untouched, so an
    /// interruption before `commit_write` leaves nothing visible under the
    /// final path.
    pub fn begin_write(&mut self, key: u64, value: Vec<u8>) -> (r: Result<(), CacheError>)
        requires
            old(self).wf(),
        ensures
            final(self).wf(),
            final(self).spec_root() == old(self).spec_root(),
            final(self).spec_shard_count() == old(self).spec_shard_count(),
            final(self).spec_record_size() == old(self).spec_record_size(),
            final(self).records() == old(self).records(),
            final(self).foreign_files() == old(self).foreign_files(),
            match r {
                Ok(()) => value@.len() == old(self).spec_record_size() && final(self).temps()
                    == kv_without(old(self).temps(), key).push((key, value@)),
                Err(e) => e == CacheError::InvalidRecordSize && value@.len() != old(self).spec_record_size() && *final(self) == *old(self),
            },
    {
        if value.len() != self.record_size {
            return Err(CacheError::InvalidRecordSize);
        }
        let ghost t0 = self.temps();
        proof {
            lemma_kv_without_facts(t0, key);
        }
        match index_of_pair(&self.temps, key) {
            Some(i) => {
                proof {
                    lemma_kv_without_present(t0, key, i as int);
                }
                let _removed = self.temps.remove(i);
                proof {
                    assert(self.temps() =~= t0.remove(i as int));
                }
            },
            None => {
                proof {
                    lemma_kv_without_absent(t0, key);
                }
            },
        }
        let ghost t1 = self.temps();
        proof {
            assert(t1 == kv_without(t0, key));
            lemma_kv_push(t1, key, value@);
        }
        self.temps.push((key, value));
        proof {
            assert(self.temps() =~= t1.push((key, value@)));
        }
        Ok(())
    }

    /// Atomically publishes the pending temporary entry of `key` as its
    /// committed record, replacing any earlier record for the key; the
    /// temporary entry is consumed. Fails with `MissingTemporary`, changing
    /// nothing, exactly when no temporary entry is pending for the key.
    pub fn commit_write(&mut self, key: u64) -> (r: Result<(), CacheError>)
        requires
            old(self).wf(),
        ensures
            final(self).wf(),
            final(self).spec_root() == old(self).spec_root(),
            final(self).spec_shard_count() == old(self).spec_shard_count(),
            final(self).spec_record_size() == old(self).spec_record_size(),
            final(self).foreign_files() == old(self).foreign_files(),
            match r {
                Ok(()) => kv_has(old(self).temps(), key) && final(self).records() == kv_without(
                    old(self).records(),
                    key,
                ).push((key, kv_find(old(self).temps(), key)->Some_0)) && final(self).temps()
                    == kv_without(old(self).temps(), key),
                Err(e) => e == CacheError::MissingTemporary && !kv_has(old(self).temps(), key)
                    && *final(self) == *old(self),
            },
    {
        let ghost t0 = self.temps();
        let ghost f0 = self.records();
        match index_of_pair(&self.temps, key) {
            None => {
                proof {
                    lemma_kv_find_absent(t0, key);
                }
                Err(CacheError::MissingTemporary)
            },
            Some(i) => {
                proof {
                    lemma_kv_find_at(t0, key, i as int);
                    lemma_kv_without_present(t0, key, i as int);
                    lemma_kv_without_facts(t0, key);
                    lemma_kv_without_facts(f0, key);
                }
                let removed = self.temps.remove(i);
                proof {
                    assert(self.temps() =~= t0.remove(i as int));
                    assert(removed.1@ == kv_find(t0, key)->Some_0);
                }
                match index_of_pair(&self.finals, key) {
                    Some(j) => {
                        proof {
                            lemma_kv_without_present(f0, key, j as int);
                        }
                        let _old_record = self.finals.remove(j);
                        proof {
                            assert(self.records() =~= f0.remove(j as int));
                        }
                    },
                    None => {
                        proof {
                            lemma_kv_without_absent(f0, key);
                        }
                    },
                }
                let ghost f1 = self.records();
                proof {
                    assert(f1 == kv_without(f0, key));
                    lemma_kv_push(f1, key, removed.1@);
                }
                self.finals.push(removed);
                proof {
                    assert(self.records() =~= f1.push((key, kv_find(t0, key)->Some_0)));
                }
                Ok(())
            },
        }
    }

    /// Crash-atomically writes `value` as the committed record of `key`: the
    /// bytes go to the temporary entry first and are published by an atomic
    /// commit, so the record is never observable partially written. Succeeds
    /// exactly when `value` has the configured record size; any orphaned
    /// temporary entry for the key is overwritten either way it ends.
    pub fn write(&mut self, key: u64, value: Vec<u8>) -> (r: Result<(), CacheError>)
        requires
            old(self).wf(),
        ensures
            final(self).wf(),
            final(self).spec_root() == old(self).spec_root(),
            final(self).spec_shard_count() == old(self).spec_shard_count(),
            final(self).spec_record_size() == old(self).spec_record_size(),
            final(self).foreign_files() == old(self).foreign_files(),
            match r {
                Ok(()) => value@.len() == old(self).spec_record_size() && final(self).records()
                    == kv_without(old(self).records(), key).push((key, value@)) && final(self).temps() == kv_without(old(self).temps(), key),
                Err(e) => e == CacheError::InvalidRecordSize && value@.len() != old(self).spec_record_size() && *final(self) == *old(self),
            },
    {
        let ghost t0 = self.temps();
        let ghost v0 = value@;
        match self.begin_write(key, value) {
            Err(e) => Err(e),
            Ok(()) => {
                proof {
                    lemma_kv_without_facts(t0, key);
                    lemma_kv_push(kv_without(t0, key), key, v0);
                }
                match self.commit_write(key) {
                    Ok(()) => {
                        proof {
                            lemma_kv_without_push_same(kv_without(t0, key), key, v0);
                        }
                        Ok(())
                    },
                    Err(_unreachable) => {
                        proof {
                            assert(false);
                        }
                        Err(CacheError::MissingTemporary)
                    },
                }
            },
        }
    }

    /// Reads the committed record of `key`: `Ok(None)` if no record exists,
    /// the record's bytes if it exists with the configured size, and a
    /// `CorruptRecord` error if its length disagrees with the configuration.
    /// Temporary entries are never observed.
    pub fn read(&self, key: u64) -> (r: Result<Option<Vec<u8>>, CacheError>)
        ensures
            match kv_find(self.records(), key) {
                None => (r matches Ok(o) && o is None),
                Some(v) => if v.len() == self.spec_record_size() {
                    (r matches Ok(o) && o matches Some(b) && b@ == v)
                } else {
                    r == Err::<Option<Vec<u8>>, CacheError>(CacheError::CorruptRecord)
                },
            },
    {
        match index_of_pair(&self.finals, key) {
            None => {
                proof {
                    lemma_kv_find_absent(self.records(), key);
                }
                Ok(None)
            },
            Some(i) => {
                proof {
                    lemma_kv_find_at(self.records(), key, i as int);
                }
                if self.finals[i].1.len() != self.record_size {
                    Err(CacheError::CorruptRecord)
                } else {
                    Ok(Some(clone_bytes(&self.finals[i].1)))
                }
            },
        }
    }

    /// Whether a committed (non-temporary) record exists for `key`.
    pub fn record_exists(&self, key: u64) -> (r: bool)
        ensures
            r == kv_has(self.records(), key),
    {
        match index_of_pair(&self.finals, key) {
            Some(i) => {
                proof {
                    lemma_kv_find_at(self.records(), key, i as int);
                }
                true
            },
            None => {
                proof {
                    lemma_kv_find_absent(self.records(), key);
                }
                false
            },
        }
    }

    /// Deletes the committed record of `key`; a no-op if none exists.
    /// Temporary entries and unrelated files are untouched.
    pub fn remove(&mut self, key: u64)
        requires
            old(self).wf(),
        ensures
            final(self).wf(),
            final(self).spec_root() == old(self).spec_root(),
            final(self).spec_shard_count() == old(self).spec_shard_count(),
            final(self).spec_record_size() == old(self).spec_record_size(),
            final(self).temps() == old(self).temps(),
            final(self).foreign_files() == old(self).foreign_files(),
            final(self).records() == kv_without(old(self).records(), key),
    {
        let ghost f0 = self.records();
        proof {
            lemma_kv_without_facts(f0, key);
        }
        match index_of_pair(&self.finals, key) {
            Some(i) => {
                proof {
                    lemma_kv_without_present(f0, key, i as int);
                }
                let _removed = self.finals.remove(i);
                proof {
                    assert(self.records() =~= f0.remove(i as int));
                }
            },
            None => {
                proof {
                    lemma_kv_without_absent(f0, key);
                }
            },
        }
    }

    /// Models outside corruption: plants `bytes` as the committed record of
    /// `key` with no regard for the configured record size, as a foreign
    /// writer could leave on disk. Well-formedness is deliberately not
    /// promised when the size disagrees; `read` then surfaces
    /// `CorruptRecord` instead of truncating or padding.
    pub fn plant_corrupt_record(&mut self, key: u64, bytes: Vec<u8>)
        requires
            old(self).wf(),
        ensures
            final(self).spec_root() == old(self).spec_root(),
            final(self).spec_shard_count() == old(self).spec_shard_count(),
            final(self).spec_record_size() == old(self).spec_record_size(),
            final(self).temps() == old(self).temps(),
            final(self).foreign_files() == old(self).foreign_files(),
            final(self).records() == kv_without(old(self).records(), key).push((key, bytes@)),
            kv_distinct(final(self).records()),
    {
        let ghost f0 = self.records();
        proof {
            lemma_kv_without_facts(f0, key);
        }
        match index_of_pair(&self.finals, key) {
            Some(i) => {
                proof {
                    lemma_kv_without_present(f0, key, i as int);
                }
                let _removed = self.finals.remove(i);
                proof {
                    assert(self.records() =~= f0.remove(i as int));
                }
            },
            None => {
                proof {
                    lemma_kv_without_absent(f0, key);
                }
            },
        }
        let ghost f1 = self.records();
        proof {
            lemma_kv_push(f1, key, bytes@);
        }
        self.finals.push((key, bytes));
        proof {
            assert(self.records() =~= f1.push((key, bytes@)));
        }
    }

    /// Plants an unrelated file into a shard directory, as another process
    /// might: recovery must tolerate and skip it.
    pub fn add_unrelated_file(&mut self, shard: u64, name: Vec<u8>)
        requires
            old(self).wf(),
        ensures
            final(self).wf(),
            final(self).spec_root() == old(self).spec_root(),
            final(self).spec_shard_count() == old(self).spec_shard_count(),
            final(self).spec_record_size() == old(self).spec_record_size(),
            final(self).records() == old(self).records(),
            final(self).temps() == old(self).temps(),
            final(self).foreign_files() == old(self).foreign_files().push((shard, name@)),
    {
        let ghost g0 = self.foreign_files();
        self.foreign.push((shard, name));
        proof {
            assert(self.foreign_files() =~= g0.push((shard, name@)));
        }
    }

    /// Enumerates every filename in the shard directories: the decimal name
    /// of each committed record, the suffixed name of each temporary entry,
    /// and each unrelated file's name. Record bodies are not read.
    pub fn file_names(&self) -> (r: Vec<Vec<u8>>)
        ensures
            r@.len() == self.records().len() + self.temps().len() + self.foreign_files().len(),
            forall|i: int|
                0 <= i < self.records().len() ==> r@[i]@ == spec_decimal(
                    self.records()[i].0 as nat,
                ),
            forall|i: int|
                0 <= i < self.temps().len() ==> r@[self.records().len() + i]@ == spec_decimal(
                    self.temps()[i].0 as nat,
                ) + tmp_suffix(),
            forall|i: int|
                0 <= i < self.foreign_files().len() ==> r@[self.records().len()
                    + self.temps().len() + i]@ == self.foreign_files()[i].1,
    {
        let mut out: Vec<Vec<u8>> = Vec::new();
        let mut i: usize = 0;
        while i < self.finals.len()
            invariant
                i <= self.records().len(),
                self.records().len() == self.finals@.len(),
                out@.len() == i,
                forall|j: int|
                    0 <= j < i ==> out@[j]@ == spec_decimal(self.records()[j].0 as nat),
            decreases self.finals@.len() - i,
        {
            out.push(crate::codec::encode_decimal(self.finals[i].0));
            i = i + 1;
        }
        let nf = self.finals.len();
        let mut i: usize = 0;
        while i < self.temps.len()
            invariant
                i <= self.temps().len(),
                self.temps().len() == self.temps@.len(),
                self.records().len() == nf as nat,
                out@.len() == nf + i,
                forall|j: int|
                    0 <= j < nf ==> out@[j]@ == spec_decimal(self.records()[j].0 as nat),
                forall|j: int|
                    0 <= j < i ==> out@[nf + j]@ == spec_decimal(self.temps()[j].0 as nat)
                        + tmp_suffix(),
            decreases self.temps@.len() - i,
        {
            let mut name = crate::codec::encode_decimal(self.temps[i].0);
            name.push(46u8);
            name.push(116u8);
            name.push(109u8);
            name.push(112u8);
            proof {
                assert(name@ =~= spec_decimal(self.temps()[i as int].0 as nat) + tmp_suffix());
            }
            out.push(name);
            i = i + 1;
        }
        let nt = self.temps.len();
        let mut i: usize = 0;
        while i < self.foreign.len()
            invariant
                i <= self.foreign_files().len(),
                self.foreign_files().len() == self.foreign@.len(),
                self.records().len() == nf as nat,
                self.temps().len() == nt as nat,
                out@.len() == nf + nt + i,
                forall|j: int|
                    0 <= j < nf ==> out@[j]@ == spec_decimal(self.records()[j].0 as nat),
                forall|j: int|
                    0 <= j < nt ==> out@[nf + j]@ == spec_decimal(self.temps()[j].0 as nat)
                        + tmp_suffix(),
                forall|j: int| 0 <= j < i ==> out@[nf + nt + j]@ == self.foreign_files()[j].1,
            decreases self.foreign@.len() - i,
        {
            out.push(clone_bytes(&self.foreign[i].1));
            i = i + 1;
        }
        out
    }
}

/// A decimal record name never looks like a temporary entry: its last byte
/// is a digit, and the suffix ends in a letter.
pub proof fn lemma_decimal_not_temp(n: nat)
    requires
        n <= u64::MAX,
    ensures
        !spec_is_temp_name(spec_decimal(n)),
{
    crate::codec::lemma_decimal_canonical(n);
    let s = spec_decimal(n);
    if spec_is_temp_name(s) {
        let sub = s.subrange(s.len() - 4, s.len() as int);
        assert(sub[3] == s[s.len() - 1]);
        assert(crate::codec::is_digit(s[s.len() - 1]));
        assert(sub[3] == tmp_suffix()[3]);
        assert(false);
    }
}

/// Appending the temporary suffix to any name yields a temporary name.
pub proof fn lemma_suffixed_is_temp(s: Seq<u8>)
    ensures
        spec_is_temp_name(s + tmp_suffix()),
{
    let t = s + tmp_suffix();
    assert(t.subrange(t.len() - 4, t.len() as int) =~= tmp_suffix());
}

/// Whether a filename carries the temporary-entry suffix; recovery skips
/// such names.
pub fn is_temp_name(name: &Vec<u8>) -> (r: bool)
    ensures
        r == spec_is_temp_name(name@),
{
    let n = name.len();
    if n < 4 {
        return false;
    }
    let ok = name[n - 4] == 46 && name[n - 3] == 116 && name[n - 2] == 109 && name[n - 1] == 112;
    proof {
        let sub = name@.subrange(n as int - 4, n as int);
        assert(sub[0] == name@[n as int - 4]);
        assert(sub[1] == name@[n as int - 3]);
        assert(sub[2] == name@[n as int - 2]);
        assert(sub[3] == name@[n as int - 1]);
        if ok {
            assert(sub =~= tmp_suffix());
        } else {
            if sub == tmp_suffix() {
                assert(sub[0] == 46u8 && sub[1] == 116u8 && sub[2] == 109u8 && sub[3] == 112u8);
                assert(false);
            }
        }
    }
    ok
}

/// The position of the pair keyed `key`, scanning in order.
fn index_of_pair(v: &Vec<(u64, Vec<u8>)>, key: u64) -> (r: Option<usize>)
    ensures
        match r {
            Some(i) => {
                &&& i < pview(v@).len()
                &&& pview(v@)[i as int].0 == key
                &&& forall|j: int| 0 <= j < i ==> pview(v@)[j].0 != key
            },
            None => forall|j: int| 0 <= j < pview(v@).len() ==> pview(v@)[j].0 != key,
        },
{
    let mut i: usize = 0;
    while i < v.len()
        invariant
            i <= v@.len(),
            pview(v@).len() == v@.len(),
            forall|j: int| 0 <= j < i ==> pview(v@)[j].0 != key,
        decreases v@.len() - i,
    {
        if v[i].0 == key {
            return Some(i);
        }
        i = i + 1;
    }
    None
}

} // verus!
