use std::collections::{BTreeMap, HashMap};
use std::hash::{BuildHasher, Hash};

use vstd::prelude::*;
use vstd::laws_cmp::obeys_cmp;
use vstd::std_specs::cmp::{OrdSpec, PartialOrdSpec};
use vstd::std_specs::hash::{builds_valid_hashers, obeys_key_model};

use crate::reference::Ref;

verus! {

/// Each key orders strictly before the next.
pub open spec fn ascending<K: Ord>(keys: Seq<K>) -> bool {
    forall|i: int, j: int|
        #![trigger keys[i], keys[j]]
        0 <= i < j < keys.len() ==> keys[i].cmp_spec(&keys[j]) == std::cmp::Ordering::Less
}

/// The key type and the hasher obey the laws that lookups in a hash map
/// are assumed to follow.
pub open spec fn hash_laws<K, S>() -> bool {
    obeys_key_model::<K>() && builds_valid_hashers::<S>()
}

/// `a` orders strictly before `b`.
pub open spec fn precedes<K: Ord>(a: K, b: K) -> bool {
    a.cmp_spec(&b) == std::cmp::Ordering::Less
}

/// Under the laws of `Ord`, nothing precedes itself and precedence is
/// asymmetric.
pub proof fn lemma_precedes_strict<K: Ord>()
    requires
        obeys_cmp::<K>(),
    ensures
        forall|a: K| !#[trigger] precedes(a, a),
        forall|a: K, b: K| #[trigger] precedes(a, b) ==> !precedes(b, a),
{
    reveal(vstd::laws_cmp::obeys_cmp_ord);
    reveal(vstd::laws_cmp::obeys_partial_cmp_spec_properties);
    assert forall|a: K| !#[trigger] precedes(a, a) by {
        assert(a.partial_cmp_spec(&a) == Some(a.cmp_spec(&a)));
    }
    assert forall|a: K, b: K| #[trigger] precedes(a, b) implies !precedes(b, a) by {
        assert(a.partial_cmp_spec(&b) == Some(a.cmp_spec(&b)));
        assert(b.partial_cmp_spec(&a) == Some(b.cmp_spec(&a)));
    }
}

/// `keys` holds, without repetition and in ascending order, exactly the
/// keys of `m`.
pub open spec fn lists_keys_in_order<K: Ord, X>(keys: Seq<K>, m: Map<K, X>) -> bool {
    &&& ascending(keys)
    &&& forall|k: K| #[trigger] keys.contains(k) <==> m.contains_key(k)
}

/// The keys of `m` in ascending order.
pub open spec fn sorted_keys<K: Ord, X>(m: Map<K, X>) -> Seq<K> {
    choose|keys: Seq<K>| lists_keys_in_order(keys, m)
}

/// Two ascending sequences with the same elements are equal.
pub proof fn lemma_ascending_unique<K: Ord>(a: Seq<K>, b: Seq<K>)
    requires
        obeys_cmp::<K>(),
        ascending(a),
        ascending(b),
        forall|k: K| #[trigger] a.contains(k) <==> b.contains(k),
    ensures
        a == b,
    decreases a.len(),
{
    lemma_precedes_strict::<K>();
    if a.len() == 0 {
        if b.len() > 0 {
            assert(b.contains(b[0]));
            assert(a.contains(b[0]));
        }
        assert(a =~= b);
    } else {
        assert(a.contains(a[0]));
        let j = choose|j: int| 0 <= j < b.len() && b[j] == a[0];
        assert(b.contains(b[0]));
        assert(a.contains(b[0]));
        let i = choose|i: int| 0 <= i < a.len() && a[i] == b[0];
        if j > 0 {
            assert(precedes(b[0], b[j]));
            if i > 0 {
                assert(precedes(a[0], a[i]));
            }
        }
        assert(b[0] == a[0]);
        let ta = a.drop_first();
        let tb = b.drop_first();
        assert forall|x: K| #[trigger] ta.contains(x) <==> tb.contains(x) by {
            if ta.contains(x) {
                let p = choose|p: int| 0 <= p < ta.len() && ta[p] == x;
                assert(a[p + 1] == x);
                assert(precedes(a[0], a[p + 1]));
                assert(a.contains(x));
                assert(b.contains(x));
                let q = choose|q: int| 0 <= q < b.len() && b[q] == x;
                assert(q != 0);
                assert(tb[q - 1] == x);
            }
            if tb.contains(x) {
                let p = choose|p: int| 0 <= p < tb.len() && tb[p] == x;
                assert(b[p + 1] == x);
                assert(precedes(b[0], b[p + 1]));
                assert(b.contains(x));
                assert(a.contains(x));
                let q = choose|q: int| 0 <= q < a.len() && a[q] == x;
                assert(q != 0);
                assert(ta[q - 1] == x);
            }
        }
        assert forall|p: int, q: int|
            #![trigger ta[p], ta[q]]
            0 <= p < q < ta.len() implies ta[p].cmp_spec(&ta[q]) == std::cmp::Ordering::Less by {
            assert(ta[p] == a[p + 1] && ta[q] == a[q + 1]);
        }
        assert forall|p: int, q: int|
            #![trigger tb[p], tb[q]]
            0 <= p < q < tb.len() implies tb[p].cmp_spec(&tb[q]) == std::cmp::Ordering::Less by {
            assert(tb[p] == b[p + 1] && tb[q] == b[q + 1]);
        }
        lemma_ascending_unique(ta, tb);
        assert forall|p: int| 0 <= p < a.len() implies a[p] == b[p] by {
            if p > 0 {
                assert(a[p] == ta[p - 1]);
                assert(b[p] == tb[p - 1]);
            }
        }
        assert(a =~= b);
    }
}

/// Compares two key sequences the way sequences compare: by the first pair
/// of keys that differ, or else by length.
pub open spec fn lex_cmp<K: PartialOrd>(a: Seq<K>, b: Seq<K>) -> Option<std::cmp::Ordering>
    decreases a.len(),
{
    if a.len() == 0 || b.len() == 0 {
        Some(
            if a.len() < b.len() {
                std::cmp::Ordering::Less
            } else if a.len() == b.len() {
                std::cmp::Ordering::Equal
            } else {
                std::cmp::Ordering::Greater
            },
        )
    } else if a[0].partial_cmp_spec(&b[0]) == Some(std::cmp::Ordering::Equal) {
        lex_cmp(a.drop_first(), b.drop_first())
    } else {
        a[0].partial_cmp_spec(&b[0])
    }
}

/// The keys of a sequence of pairs.
pub open spec fn owned_keys<K, X>(pairs: Seq<(K, X)>) -> Seq<K> {
    pairs.map_values(|kx: (K, X)| kx.0)
}

/// The keys of a sequence of borrowed pairs.
pub open spec fn keys_of<K, X>(pairs: Seq<(&K, &X)>) -> Seq<K> {
    pairs.map_values(|kx: (&K, &X)| *kx.0)
}

/// What a keyed graph holds after `pairs` are inserted in order: a later
/// pair replaces an earlier one with the same key.
pub open spec fn pairs_map<K, V>(pairs: Seq<(K, V)>) -> Map<K, Option<V>>
    decreases pairs.len(),
{
    if pairs.len() == 0 {
        Map::empty()
    } else {
        pairs_map(pairs.drop_last()).insert(pairs.last().0, Some(pairs.last().1))
    }
}

/// The pairs that a sequence of borrowed pairs refers to.
pub open spec fn owned_pairs<K, V>(pairs: Seq<(&K, &V)>) -> Seq<(K, V)> {
    pairs.map_values(|kv: (&K, &V)| (*kv.0, *kv.1))
}

/// `pairs` lists exactly the keys of `contents`, each with its value.
pub open spec fn lists<K, V>(contents: Map<K, Option<V>>, pairs: Seq<(K, V)>) -> bool {
    &&& forall|i: int|
        0 <= i < pairs.len() ==> #[trigger] contents.contains_key(pairs[i].0) && contents[pairs[i].0]
            == Some(pairs[i].1)
    &&& forall|k: K| #[trigger]
        contents.contains_key(k) ==> exists|i: int| 0 <= i < pairs.len() && pairs[i].0 == k
}

/// Each key of `pairs_map(pairs)` is a key of some pair, and maps to the
/// value of such a pair.
pub proof fn lemma_pairs_map_keys<K, V>(pairs: Seq<(K, V)>)
    ensures
        forall|k: K| #[trigger]
            pairs_map(pairs).contains_key(k) <==> exists|i: int| 0 <= i < pairs.len() && pairs[i].0 == k,
        forall|k: K| #[trigger]
            pairs_map(pairs).contains_key(k) ==> exists|i: int|
                0 <= i < pairs.len() && pairs[i].0 == k && pairs_map(pairs)[k] == Some(pairs[i].1),
    decreases pairs.len(),
{
    if pairs.len() > 0 {
        let init = pairs.drop_last();
        lemma_pairs_map_keys(init);
        let last = pairs.len() - 1;
        assert forall|k: K| #[trigger]
            pairs_map(pairs).contains_key(k) <==> exists|i: int| 0 <= i < pairs.len() && pairs[i].0 == k by {
            if pairs_map(pairs).contains_key(k) && k != pairs[last].0 {
                let i = choose|i: int| 0 <= i < init.len() && init[i].0 == k;
                assert(pairs[i].0 == k);
            }
            if exists|i: int| 0 <= i < pairs.len() && pairs[i].0 == k {
                let i = choose|i: int| 0 <= i < pairs.len() && pairs[i].0 == k;
                if i < last {
                    assert(init[i].0 == k);
                }
            }
        }
        assert forall|k: K| #[trigger] pairs_map(pairs).contains_key(k) implies exists|i: int|
            0 <= i < pairs.len() && pairs[i].0 == k && pairs_map(pairs)[k] == Some(pairs[i].1) by {
            if k == pairs[last].0 {
                assert(pairs_map(pairs)[k] == Some(pairs[last].1));
            } else {
                let i = choose|i: int|
                    0 <= i < init.len() && init[i].0 == k && pairs_map(init)[k] == Some(init[i].1);
                assert(pairs[i] == init[i]);
            }
        }
    }
}

/// Inserting, in order, pairs that list a graph's contents rebuilds those
/// contents: the same keys with the same values.
pub proof fn lemma_round_trip<K, V>(contents: Map<K, Option<V>>, pairs: Seq<(K, V)>)
    requires
        lists(contents, pairs),
    ensures
        pairs_map(pairs) == contents,
{
    lemma_pairs_map_keys(pairs);
    assert forall|k: K| #[trigger] pairs_map(pairs).contains_key(k) implies contents.contains_key(k)
        && pairs_map(pairs)[k] == contents[k] by {
        let i = choose|i: int|
            0 <= i < pairs.len() && pairs[i].0 == k && pairs_map(pairs)[k] == Some(pairs[i].1);
        assert(contents.contains_key(pairs[i].0));
    }
    assert forall|k: K| #[trigger] contents.contains_key(k) implies pairs_map(pairs).contains_key(k) by {
        let i = choose|i: int| 0 <= i < pairs.len() && pairs[i].0 == k;
        assert(pairs[i].0 == k);
    }
    assert(pairs_map(pairs) =~= contents);
}

/// Resolves a key to a handle, or reports that the key is absent.
pub trait IndexBy<K, V> {
    /// The associations of key and handle that this index holds.
    spec fn index_view(&self) -> Map<K, Ref<V>>;

    /// Lookups in this index agree with `index_view` (the key type obeys
    /// the laws its comparison or hashing is assumed to follow).
    spec fn lookups_exact(&self) -> bool;

    fn get(&self, key: &K) -> (r: Option<&Ref<V>>)
        requires
            self.lookups_exact(),
        ensures
            match r {
                Some(h) => self.index_view().contains_key(*key) && *h == self.index_view()[*key],
                None => !self.index_view().contains_key(*key),
            },
    ;
}

impl<K: Ord, V> IndexBy<K, V> for BTreeMap<K, Ref<V>> {
    open spec fn index_view(&self) -> Map<K, Ref<V>> {
        self@
    }

    open spec fn lookups_exact(&self) -> bool {
        vstd::laws_cmp::obeys_cmp::<K>()
    }

    fn get(&self, key: &K) -> (r: Option<&Ref<V>>) {
        BTreeMap::get(self, key)
    }
}

impl<K: Hash + Eq, V, S: BuildHasher> IndexBy<K, V> for HashMap<K, Ref<V>, S> {
    open spec fn index_view(&self) -> Map<K, Ref<V>> {
        self@
    }

    open spec fn lookups_exact(&self) -> bool {
        obeys_key_model::<K>() && builds_valid_hashers::<S>()
    }

    fn get(&self, key: &K) -> (r: Option<&Ref<V>>) {
        HashMap::get(self, key)
    }
}

} // verus!
