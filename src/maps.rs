use std::collections::{BTreeMap, HashMap};
use std::hash::{BuildHasher, Hash};

use vstd::laws_cmp::obeys_cmp;
use vstd::prelude::*;
use vstd::std_specs::btree::{axiom_increasing_seq_meaning, increasing_seq};
use vstd::std_specs::cmp::OrdSpec;

use crate::index::{ascending, hash_laws, keys_of, lists_keys_in_order, owned_keys};

verus! {

/// Relies on `BTreeMap::get_key_value`: the entry stored under `key`, if any.
#[verifier::external_body]
pub(crate) fn btree_get_key_value<'a, K: Ord, X>(m: &'a BTreeMap<K, X>, key: &K) -> (r: Option<(&'a K, &'a X)>)
    ensures
        obeys_cmp::<K>() ==> match r {
            Some(kx) => m@.contains_key(*key) && *kx.0 == *key && *kx.1 == m@[*key],
            None => !m@.contains_key(*key),
        },
{
    m.get_key_value(key)
}

/// Relies on `BTreeMap::keys`: every key of the map, in ascending order.
#[verifier::external_body]
pub(crate) fn btree_key_list<'a, K: Ord, X>(m: &'a BTreeMap<K, X>) -> (r: Vec<&'a K>)
    ensures
        obeys_cmp::<K>() ==> lists_keys_in_order(r@.map_values(|k: &K| *k), m@),
{
    m.keys().collect()
}

/// The key type and hasher of `m` obey the laws of hashed lookups.
pub open spec fn hashes_lawfully<K, X, S>(m: &HashMap<K, X, S>) -> bool {
    hash_laws::<K, S>()
}

/// Relies on `HashMap::get_key_value`: the entry stored under `key`, if any.
#[verifier::external_body]
pub(crate) fn hash_get_key_value<'a, K: Hash + Eq, X, S: BuildHasher>(m: &'a HashMap<K, X, S>, key: &K) -> (r: Option<(&'a K, &'a X)>)
    ensures
        hashes_lawfully(m) ==> match r {
            Some(kx) => m@.contains_key(*key) && *kx.0 == *key && *kx.1 == m@[*key],
            None => !m@.contains_key(*key),
        },
{
    m.get_key_value(key)
}

/// Relies on `HashMap::with_hasher`: an empty map that hashes with `hasher`.
#[verifier::external_body]
pub(crate) fn hash_map_with_hasher<K, X, S>(hasher: S) -> (r: HashMap<K, X, S>)
    ensures
        r@.dom() == Set::<K>::empty(),
{
    HashMap::with_hasher(hasher)
}

/// Relies on `HashMap::with_capacity_and_hasher`: an empty map with room for
/// `capacity` entries that hashes with `hasher`.
#[verifier::external_body]
pub(crate) fn hash_map_with_capacity_and_hasher<K, X, S>(capacity: usize, hasher: S) -> (r: HashMap<K, X, S>)
    ensures
        r@.dom() == Set::<K>::empty(),
{
    HashMap::with_capacity_and_hasher(capacity, hasher)
}

/// Relies on `BTreeMap`'s `IntoIterator`: the entries, moved out of the map
/// in ascending key order.
#[verifier::external_body]
pub(crate) fn btree_into_pairs<K: Ord, X>(m: BTreeMap<K, X>) -> (r: Vec<(K, X)>)
    ensures
        obeys_cmp::<K>() ==> {
            &&& r@.len() == m@.len()
            &&& ascending(owned_keys(r@))
            &&& forall|i: int|
                0 <= i < r@.len() ==> #[trigger] m@.contains_key(r@[i].0) && m@[r@[i].0] == r@[i].1
            &&& forall|k: K| #[trigger]
                m@.contains_key(k) ==> exists|i: int| 0 <= i < r@.len() && r@[i].0 == k
        },
{
    Vec::from_iter(m)
}

/// The entries of `m` in ascending key order.
pub(crate) fn btree_pairs<'a, K: Ord, X>(m: &'a BTreeMap<K, X>) -> (r: Vec<(&'a K, &'a X)>)
    requires
        obeys_cmp::<K>(),
    ensures
        r@.len() == m@.len(),
        ascending(keys_of(r@)),
        forall|i: int|
            0 <= i < r@.len() ==> #[trigger] m@.contains_key(*r@[i].0) && m@[*r@[i].0] == *r@[i].1,
        forall|k: K| #[trigger] m@.contains_key(k) ==> exists|i: int| 0 <= i < r@.len() && *r@[i].0 == k,
{
    let mut out: Vec<(&K, &X)> = Vec::new();
    for kx in it: m.iter()
        invariant
            obeys_cmp::<K>(),
            it.seq().len() == m@.len(),
            out@ == it.seq().take(it.index()),
            increasing_seq(keys_of(it.seq())),
            ascending(keys_of(out@)),
            forall|i: int|
                0 <= i < it.seq().len() ==> #[trigger] m@.contains_key(*it.seq()[i].0)
                    && m@[*it.seq()[i].0] == *it.seq()[i].1,
            forall|k: K| #[trigger]
                m@.contains_key(k) ==> (exists|i: int| 0 <= i < out@.len() && *out@[i].0 == k) || (
                exists|i: int| it.index() <= i < it.seq().len() && *it.seq()[i].0 == k),
    {
        proof {
            let ks = keys_of(it.seq());
            axiom_increasing_seq_meaning(ks);
            let pushed = out@.push(kx);
            let next = keys_of(pushed);
            assert forall|i: int, j: int| 0 <= i < j < next.len() implies #[trigger] next[i].cmp_spec(
                &#[trigger] next[j],
            ) == std::cmp::Ordering::Less by {
                assert(next[i] == ks[i]);
                assert(next[j] == ks[j]);
            }
            assert forall|k: K| #[trigger] m@.contains_key(k) implies (exists|i: int|
                0 <= i < pushed.len() && *pushed[i].0 == k) || (exists|i: int|
                it.index() + 1 <= i < it.seq().len() && *it.seq()[i].0 == k) by {
                if exists|i: int| 0 <= i < out@.len() && *out@[i].0 == k {
                    let i = choose|i: int| 0 <= i < out@.len() && *out@[i].0 == k;
                    assert(*pushed[i].0 == k);
                } else {
                    let i = choose|i: int| it.index() <= i < it.seq().len() && *it.seq()[i].0 == k;
                    if i == it.index() {
                        assert(*pushed[out@.len() as int].0 == k);
                    }
                }
            }
        }
        out.push(kx);
    }
    out
}

/// The keys of `m` in ascending order.
pub(crate) fn btree_keys<'a, K: Ord, X>(m: &'a BTreeMap<K, X>) -> (r: Vec<&'a K>)
    requires
        obeys_cmp::<K>(),
    ensures
        r@.len() == m@.len(),
        ascending(r@.map_values(|k: &K| *k)),
        forall|i: int| 0 <= i < r@.len() ==> #[trigger] m@.contains_key(*r@[i]),
        forall|k: K| #[trigger] m@.contains_key(k) ==> exists|i: int| 0 <= i < r@.len() && *r@[i] == k,
{
    let pairs = btree_pairs(m);
    let mut out: Vec<&K> = Vec::new();
    let mut i: usize = 0;
    while i < pairs.len()
        invariant
            i <= pairs@.len(),
            out@.len() == i,
            forall|j: int| 0 <= j < i ==> *#[trigger] out@[j] == *pairs@[j].0,
        decreases pairs@.len() - i,
    {
        out.push(pairs[i].0);
        i = i + 1;
    }
    proof {
        assert(out@.map_values(|k: &K| *k) =~= keys_of(pairs@));
        assert forall|k: K| #[trigger] m@.contains_key(k) implies exists|i: int|
            0 <= i < out@.len() && *out@[i] == k by {
            let i = choose|i: int| 0 <= i < pairs@.len() && *pairs@[i].0 == k;
            assert(*out@[i] == k);
        }
    }
    out
}

/// The values of `m`, in ascending order of their keys.
pub(crate) fn btree_values<'a, K: Ord, X>(m: &'a BTreeMap<K, X>) -> (r: Vec<&'a X>)
    requires
        obeys_cmp::<K>(),
    ensures
        r@.len() == m@.len(),
        exists|ks: Seq<K>|
            {
                &&& #[trigger] ascending(ks)
                &&& ks.len() == r@.len()
                &&& forall|i: int|
                    0 <= i < r@.len() ==> #[trigger] m@.contains_key(ks[i]) && m@[ks[i]] == *r@[i]
                &&& forall|k: K| #[trigger]
                    m@.contains_key(k) ==> exists|i: int| 0 <= i < ks.len() && ks[i] == k
            },
{
    let pairs = btree_pairs(m);
    let mut out: Vec<&X> = Vec::new();
    let mut i: usize = 0;
    while i < pairs.len()
        invariant
            i <= pairs@.len(),
            out@.len() == i,
            forall|j: int| 0 <= j < i ==> *#[trigger] out@[j] == *pairs@[j].1,
        decreases pairs@.len() - i,
    {
        out.push(pairs[i].1);
        i = i + 1;
    }
    proof {
        let ks = keys_of(pairs@);
        assert(forall|i: int|
            0 <= i < out@.len() ==> #[trigger] m@.contains_key(ks[i]) && m@[ks[i]] == *out@[i]);
        assert forall|k: K| #[trigger] m@.contains_key(k) implies exists|i: int|
            0 <= i < ks.len() && ks[i] == k by {
            let i = choose|i: int| 0 <= i < pairs@.len() && *pairs@[i].0 == k;
            assert(ks[i] == k);
        }
        assert(ascending(ks));
    }
    out
}

/// The entries of `m`, in the order the map walks them.
pub(crate) fn hash_pairs<'a, K: Hash + Eq, X, S: BuildHasher>(m: &'a HashMap<K, X, S>) -> (r: Vec<
    (&'a K, &'a X),
>)
    requires
        hash_laws::<K, S>(),
    ensures
        r@.len() == m@.len(),
        forall|i: int|
            0 <= i < r@.len() ==> #[trigger] m@.contains_key(*r@[i].0) && m@[*r@[i].0] == *r@[i].1,
        forall|k: K| #[trigger] m@.contains_key(k) ==> exists|i: int| 0 <= i < r@.len() && *r@[i].0 == k,
        forall|i: int, j: int| 0 <= i < j < r@.len() ==> *(#[trigger] r@[i]).0 != *(#[trigger] r@[j]).0,
{
    let mut out: Vec<(&K, &X)> = Vec::new();
    for kx in it: m.iter()
        invariant
            hash_laws::<K, S>(),
            it.seq().len() == m@.len(),
            out@ == it.seq().take(it.index()),
            it.seq().no_duplicates(),
            forall|i: int, j: int| 0 <= i < j < out@.len() ==> *(#[trigger] out@[i]).0 != *(#[trigger] out@[j]).0,
            forall|i: int|
                0 <= i < it.seq().len() ==> #[trigger] m@.contains_key(*it.seq()[i].0)
                    && m@[*it.seq()[i].0] == *it.seq()[i].1,
            forall|k: K| #[trigger]
                m@.contains_key(k) ==> (exists|i: int| 0 <= i < out@.len() && *out@[i].0 == k) || (
                exists|i: int| it.index() <= i < it.seq().len() && *it.seq()[i].0 == k),
    {
        proof {
            let pushed = out@.push(kx);
            assert forall|i: int, j: int| 0 <= i < j < pushed.len() implies *(#[trigger] pushed[i]).0
                != *(#[trigger] pushed[j]).0 by {
                if j == out@.len() && *pushed[i].0 == *pushed[j].0 {
                    assert(pushed[i] == it.seq()[i]);
                    assert(pushed[j] == it.seq()[j]);
                    assert(m@.contains_key(*it.seq()[i].0));
                    assert(m@.contains_key(*it.seq()[j].0));
                    assert(it.seq()[i] == it.seq()[j]);
                }
            }
            assert forall|k: K| #[trigger] m@.contains_key(k) implies (exists|i: int|
                0 <= i < pushed.len() && *pushed[i].0 == k) || (exists|i: int|
                it.index() + 1 <= i < it.seq().len() && *it.seq()[i].0 == k) by {
                if exists|i: int| 0 <= i < out@.len() && *out@[i].0 == k {
                    let i = choose|i: int| 0 <= i < out@.len() && *out@[i].0 == k;
                    assert(*pushed[i].0 == k);
                } else {
                    let i = choose|i: int| it.index() <= i < it.seq().len() && *it.seq()[i].0 == k;
                    if i == it.index() {
                        assert(*pushed[out@.len() as int].0 == k);
                    }
                }
            }
        }
        out.push(kx);
    }
    out
}

/// The keys of `m`, in the order the map walks them.
pub(crate) fn hash_keys<'a, K: Hash + Eq, X, S: BuildHasher>(m: &'a HashMap<K, X, S>) -> (r: Vec<&'a K>)
    requires
        hash_laws::<K, S>(),
    ensures
        r@.len() == m@.len(),
        forall|i: int| 0 <= i < r@.len() ==> #[trigger] m@.contains_key(*r@[i]),
        forall|k: K| #[trigger] m@.contains_key(k) ==> exists|i: int| 0 <= i < r@.len() && *r@[i] == k,
{
    let pairs = hash_pairs(m);
    let mut out: Vec<&K> = Vec::new();
    let mut i: usize = 0;
    while i < pairs.len()
        invariant
            i <= pairs@.len(),
            out@.len() == i,
            forall|j: int| 0 <= j < i ==> *#[trigger] out@[j] == *pairs@[j].0,
        decreases pairs@.len() - i,
    {
        out.push(pairs[i].0);
        i = i + 1;
    }
    proof {
        assert forall|k: K| #[trigger] m@.contains_key(k) implies exists|i: int|
            0 <= i < out@.len() && *out@[i] == k by {
            let i = choose|i: int| 0 <= i < pairs@.len() && *pairs@[i].0 == k;
            assert(*out@[i] == k);
        }
    }
    out
}

/// The values of `m`, in the order the map walks them.
pub(crate) fn hash_values<'a, K: Hash + Eq, X, S: BuildHasher>(m: &'a HashMap<K, X, S>) -> (r: Vec<
    &'a X,
>)
    requires
        hash_laws::<K, S>(),
    ensures
        r@.len() == m@.len(),
        exists|ks: Seq<K>|
            {
                &&& #[trigger] ks.len() == r@.len()
                &&& forall|i: int|
                    0 <= i < r@.len() ==> #[trigger] m@.contains_key(ks[i]) && m@[ks[i]] == *r@[i]
                &&& forall|k: K| #[trigger]
                    m@.contains_key(k) ==> exists|i: int| 0 <= i < ks.len() && ks[i] == k
            },
{
    let pairs = hash_pairs(m);
    let mut out: Vec<&X> = Vec::new();
    let mut i: usize = 0;
    while i < pairs.len()
        invariant
            i <= pairs@.len(),
            out@.len() == i,
            forall|j: int| 0 <= j < i ==> *#[trigger] out@[j] == *pairs@[j].1,
        decreases pairs@.len() - i,
    {
        out.push(pairs[i].1);
        i = i + 1;
    }
    proof {
        let ks = keys_of(pairs@);
        assert(forall|i: int|
            0 <= i < out@.len() ==> #[trigger] m@.contains_key(ks[i]) && m@[ks[i]] == *out@[i]);
        assert forall|k: K| #[trigger] m@.contains_key(k) implies exists|i: int|
            0 <= i < ks.len() && ks[i] == k by {
            let i = choose|i: int| 0 <= i < pairs@.len() && *pairs@[i].0 == k;
            assert(ks[i] == k);
        }
        assert(ks.len() == out@.len());
    }
    out
}

} // verus!
