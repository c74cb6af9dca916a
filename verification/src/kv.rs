//! Spec-level model of a keyed directory: a sequence of (key, payload) pairs
//! with unique keys, in the order the entries were committed.

use vstd::prelude::*;

verus! {

/// The payload stored under `k`, if any (first match).
pub open spec fn kv_find<T>(s: Seq<(u64, T)>, k: u64) -> Option<T>
    decreases s.len(),
{
    if s.len() == 0 {
        None
    } else if s[0].0 == k {
        Some(s[0].1)
    } else {
        kv_find(s.drop_first(), k)
    }
}

/// Whether some pair is keyed `k`.
pub open spec fn kv_has<T>(s: Seq<(u64, T)>, k: u64) -> bool {
    kv_find(s, k) is Some
}

/// `s` without any pair keyed `k`.
pub open spec fn kv_without<T>(s: Seq<(u64, T)>, k: u64) -> Seq<(u64, T)>
    decreases s.len(),
{
    if s.len() == 0 {
        s
    } else if s[0].0 == k {
        kv_without(s.drop_first(), k)
    } else {
        seq![s[0]] + kv_without(s.drop_first(), k)
    }
}

/// No two pairs share a key.
pub open spec fn kv_distinct<T>(s: Seq<(u64, T)>) -> bool {
    forall|i: int, j: int| 0 <= i < j < s.len() ==> s[i].0 != s[j].0
}

/// The set of keys present.
pub open spec fn kv_keys<T>(s: Seq<(u64, T)>) -> Set<u64> {
    Set::new(|k: u64| kv_has(s, k))
}

/// The first match at `i`, with nothing keyed `k` before it, is what
/// `kv_find` yields.
pub proof fn lemma_kv_find_at<T>(s: Seq<(u64, T)>, k: u64, i: int)
    requires
        0 <= i < s.len(),
        s[i].0 == k,
        forall|j: int| 0 <= j < i ==> s[j].0 != k,
    ensures
        kv_find(s, k) == Some(s[i].1),
    decreases i,
{
    if i > 0 {
        assert(forall|j: int| 0 <= j < i - 1 ==> s.drop_first()[j].0 != k);
        lemma_kv_find_at(s.drop_first(), k, i - 1);
    }
}

/// With no pair keyed `k`, `kv_find` yields nothing.
pub proof fn lemma_kv_find_absent<T>(s: Seq<(u64, T)>, k: u64)
    requires
        forall|i: int| 0 <= i < s.len() ==> s[i].0 != k,
    ensures
        kv_find(s, k) is None,
    decreases s.len(),
{
    if s.len() > 0 {
        assert(forall|i: int| 0 <= i < s.drop_first().len() ==> s.drop_first()[i].0 != k);
        lemma_kv_find_absent(s.drop_first(), k);
    }
}

/// Removing a key that is not present changes nothing.
pub proof fn lemma_kv_without_absent<T>(s: Seq<(u64, T)>, k: u64)
    requires
        forall|i: int| 0 <= i < s.len() ==> s[i].0 != k,
    ensures
        kv_without(s, k) == s,
    decreases s.len(),
{
    if s.len() > 0 {
        assert(forall|i: int| 0 <= i < s.drop_first().len() ==> s.drop_first()[i].0 != k);
        lemma_kv_without_absent(s.drop_first(), k);
        assert(seq![s[0]] + s.drop_first() =~= s);
    }
}

/// With distinct keys, removing the key found at `i` removes exactly that
/// pair.
pub proof fn lemma_kv_without_present<T>(s: Seq<(u64, T)>, k: u64, i: int)
    requires
        kv_distinct(s),
        0 <= i < s.len(),
        s[i].0 == k,
    ensures
        kv_without(s, k) == s.remove(i),
    decreases i,
{
    if i == 0 {
        assert(forall|j: int| 0 <= j < s.drop_first().len() ==> s.drop_first()[j].0 != k);
        lemma_kv_without_absent(s.drop_first(), k);
        assert(s.remove(0) =~= s.drop_first());
    } else {
        assert(s[0].0 != k);
        assert(kv_distinct(s.drop_first()));
        lemma_kv_without_present(s.drop_first(), k, i - 1);
        assert(s.remove(i) =~= seq![s[0]] + s.drop_first().remove(i - 1));
    }
}

/// No pair of `kv_without(s, k)` is keyed `k`, every pair of it comes from
/// `s`, and distinctness carries over.
pub proof fn lemma_kv_without_facts<T>(s: Seq<(u64, T)>, k: u64)
    ensures
        forall|i: int| 0 <= i < kv_without(s, k).len() ==> kv_without(s, k)[i].0 != k,
        forall|i: int|
            0 <= i < kv_without(s, k).len() ==> exists|j: int|
                0 <= j < s.len() && s[j] == #[trigger] kv_without(s, k)[i],
        kv_distinct(s) ==> kv_distinct(kv_without(s, k)),
    decreases s.len(),
{
    if s.len() > 0 {
        lemma_kv_without_facts(s.drop_first(), k);
        let rest = kv_without(s.drop_first(), k);
        assert(forall|j: int| 0 <= j < s.drop_first().len() ==> s.drop_first()[j] == s[j + 1]);
        assert(forall|i: int|
            0 <= i < rest.len() ==> exists|j: int| 0 <= j < s.len() && s[j] == #[trigger] rest[i]);
        if s[0].0 != k {
            assert(forall|i: int|
                0 <= i < kv_without(s, k).len() ==> kv_without(s, k)[i] == (seq![s[0]] + rest)[i]);
            if kv_distinct(s) {
                assert(kv_distinct(s.drop_first()));
                assert(forall|i: int|
                    0 <= i < rest.len() ==> (exists|j: int|
                        0 <= j < s.drop_first().len() && s.drop_first()[j]
                            == #[trigger] rest[i]));
                assert(forall|i: int| 0 <= i < rest.len() ==> rest[i].0 != s[0].0) by {
                    assert(forall|j: int|
                        0 <= j < s.drop_first().len() ==> s.drop_first()[j].0 != s[0].0);
                }
            }
        } else {
            if kv_distinct(s) {
                assert(kv_distinct(s.drop_first()));
            }
        }
    }
}

/// Appending a pair whose key is fresh makes it the one `kv_find` yields for
/// that key, leaves every other key's payload alone, and keeps keys distinct.
pub proof fn lemma_kv_push<T>(s: Seq<(u64, T)>, k: u64, v: T)
    requires
        forall|i: int| 0 <= i < s.len() ==> s[i].0 != k,
    ensures
        kv_find(s.push((k, v)), k) == Some(v),
        forall|k2: u64| k2 != k ==> kv_find(s.push((k, v)), k2) == kv_find(s, k2),
        kv_distinct(s) ==> kv_distinct(s.push((k, v))),
    decreases s.len(),
{
    lemma_kv_find_at(s.push((k, v)), k, s.len() as int);
    assert(forall|k2: u64| k2 != k ==> kv_find(s.push((k, v)), k2) == kv_find(s, k2)) by {
        assert forall|k2: u64| k2 != k implies kv_find(s.push((k, v)), k2) == kv_find(
            s,
            k2,
        ) by {
            lemma_kv_find_push_other(s, k, v, k2);
        }
    }
    if kv_distinct(s) {
        assert(forall|i: int| 0 <= i < s.len() ==> s.push((k, v))[i] == s[i]);
    }
}

/// Removing one key does not change what `kv_find` yields for any other key.
pub proof fn lemma_kv_without_other<T>(s: Seq<(u64, T)>, k: u64, k2: u64)
    requires
        k2 != k,
    ensures
        kv_find(kv_without(s, k), k2) == kv_find(s, k2),
    decreases s.len(),
{
    if s.len() > 0 {
        lemma_kv_without_other(s.drop_first(), k, k2);
        if s[0].0 != k {
            let rest = kv_without(s.drop_first(), k);
            let whole = seq![s[0]] + rest;
            assert(whole[0] == s[0]);
            assert(whole.drop_first() =~= rest);
        }
    }
}

/// A key that `kv_find` yields a payload for sits at some position, and
/// the payload is that position's.
pub proof fn lemma_kv_has_index<T>(s: Seq<(u64, T)>, k: u64)
    requires
        kv_has(s, k),
    ensures
        exists|i: int| 0 <= i < s.len() && s[i].0 == k && kv_find(s, k) == Some(s[i].1),
    decreases s.len(),
{
    if s.len() > 0 && s[0].0 != k {
        lemma_kv_has_index(s.drop_first(), k);
        let i = choose|i: int|
            0 <= i < s.drop_first().len() && s.drop_first()[i].0 == k && kv_find(
                s.drop_first(),
                k,
            ) == Some(s.drop_first()[i].1);
        assert(s.drop_first()[i] == s[i + 1]);
        assert(0 <= i + 1 < s.len() && s[i + 1].0 == k && kv_find(s, k) == Some(s[i + 1].1));
    }
}

/// Appending a pair keyed `k` and then removing that key undoes the append,
/// provided `k` was not present before.
pub proof fn lemma_kv_without_push_same<T>(s: Seq<(u64, T)>, k: u64, v: T)
    requires
        forall|i: int| 0 <= i < s.len() ==> s[i].0 != k,
    ensures
        kv_without(s.push((k, v)), k) == s,
    decreases s.len(),
{
    if s.len() == 0 {
        assert(s.push((k, v))[0] == (k, v));
        assert(s.push((k, v)).drop_first() =~= Seq::<(u64, T)>::empty());
        assert(kv_without(Seq::<(u64, T)>::empty(), k) =~= Seq::<(u64, T)>::empty());
        assert(kv_without(s.push((k, v)), k) =~= s);
    } else {
        assert(s.push((k, v)).drop_first() =~= s.drop_first().push((k, v)));
        assert(forall|i: int| 0 <= i < s.drop_first().len() ==> s.drop_first()[i].0 != k);
        lemma_kv_without_push_same(s.drop_first(), k, v);
        assert(s[0].0 != k);
        assert(kv_without(s.push((k, v)), k) == seq![s.push((k, v))[0]] + kv_without(
            s.push((k, v)).drop_first(),
            k,
        ));
        assert(s.push((k, v))[0] == s[0]);
        assert(seq![s[0]] + s.drop_first() =~= s);
    }
}

/// Appending a pair keyed `k` does not change what `kv_find` yields for any
/// other key.
proof fn lemma_kv_find_push_other<T>(s: Seq<(u64, T)>, k: u64, v: T, k2: u64)
    requires
        k2 != k,
    ensures
        kv_find(s.push((k, v)), k2) == kv_find(s, k2),
    decreases s.len(),
{
    if s.len() == 0 {
        assert(s.push((k, v))[0] == (k, v));
        assert(s.push((k, v)).drop_first() =~= Seq::<(u64, T)>::empty());
        assert(kv_find(Seq::<(u64, T)>::empty(), k2) is None);
        assert(kv_find(s.push((k, v)), k2) is None);
    } else {
        assert(s.push((k, v)).drop_first() =~= s.drop_first().push((k, v)));
        lemma_kv_find_push_other(s.drop_first(), k, v, k2);
        assert(s.push((k, v))[0] == s[0]);
    }
}

} // verus!
