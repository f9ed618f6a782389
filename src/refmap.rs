use std::collections::BTreeMap;

use vstd::laws_cmp::obeys_cmp;
use vstd::prelude::*;
use vstd::std_specs::cmp::{OrdSpec, PartialEqSpec, PartialOrdSpec};

use crate::btree_graph::BTreeGraph;
use crate::graph::Graph;
use crate::index::{
    ascending, keys_of, lemma_ascending_unique, lemma_precedes_strict, lex_cmp, lists_keys_in_order,
    owned_keys, precedes, sorted_keys, IndexBy,
};
use crate::maps::{
    btree_get_key_value, btree_into_pairs, btree_key_list, btree_keys, btree_pairs, btree_values,
};
use crate::reference::{OptRefBy, Ref, RefBy};

verus! {

/// An ordered collection of references by key, such as the set of a
/// node's children. It is serialized as its keys alone.
pub struct RefMap<K, V>(BTreeMap<K, Ref<V>>);

/// An ordered collection of references by key whose handles may be absent.
pub struct OptRefMap<K, V>(BTreeMap<K, Option<Ref<V>>>);

impl<K, V> RefMap<K, V> {
    /// The handle held under each key.
    pub closed spec fn refs(&self) -> Map<K, Ref<V>> {
        self.0@
    }

    pub fn new() -> (r: Self)
        ensures
            r.refs() == Map::<K, Ref<V>>::empty(),
    {
        RefMap(BTreeMap::new())
    }

    /// An empty collection; an ordered map reserves no room in advance.
    pub fn with_capacity(_n: usize) -> (r: Self)
        ensures
            r.refs() == Map::<K, Ref<V>>::empty(),
    {
        RefMap::new()
    }

    pub fn is_empty(&self) -> (r: bool)
        ensures
            r == (self.refs().len() == 0),
    {
        self.0.is_empty()
    }

    pub fn len(&self) -> (r: usize)
        where
            K: Ord,
        requires
            obeys_cmp::<K>(),
        ensures
            r == self.refs().len(),
    {
        self.0.len()
    }

    pub fn get_ref(&self, key: &K) -> (r: Option<&Ref<V>>)
        where
            K: Ord,
        requires
            obeys_cmp::<K>(),
        ensures
            match r {
                Some(h) => self.refs().contains_key(*key) && *h == self.refs()[*key],
                None => !self.refs().contains_key(*key),
            },
    {
        self.0.get(key)
    }

    /// The handle under `key`, paired with a copy of the stored key.
    pub fn get_ref_by(&self, key: &K) -> (r: Option<RefBy<K, V>>)
        where
            K: Ord + Clone,
        requires
            obeys_cmp::<K>(),
        ensures
            match r {
                Some(rb) => {
                    &&& self.refs().contains_key(*key)
                    &&& cloned(*key, rb.spec_key())
                    &&& rb.handle() == self.refs()[*key]
                },
                None => !self.refs().contains_key(*key),
            },
    {
        match btree_get_key_value(&self.0, key) {
            Some((k, h)) => Some(RefBy::new(k.clone(), *h)),
            None => None,
        }
    }

    /// The value, in `graph`, of the node under `key`.
    pub fn get<'a>(&self, key: &K, graph: &'a BTreeGraph<K, V>) -> (r: Option<&'a V>)
        where
            K: Ord,
        requires
            obeys_cmp::<K>(),
            self.refs().contains_key(*key) ==> graph.arena().occupied(self.refs()[*key]),
        ensures
            match r {
                Some(v) => self.refs().contains_key(*key) && *v == graph.arena().value_at(
                    self.refs()[*key],
                ),
                None => !self.refs().contains_key(*key),
            },
    {
        match self.0.get(key) {
            Some(h) => Some(graph.borrow(h)),
            None => None,
        }
    }

    /// Like `get`, through a graph that is held exclusively.
    pub fn get_mut<'a>(&self, key: &K, graph: &'a mut BTreeGraph<K, V>) -> (r: Option<&'a V>)
        where
            K: Ord,
        requires
            obeys_cmp::<K>(),
            self.refs().contains_key(*key) ==> old(graph).arena().occupied(self.refs()[*key]),
        ensures
            *final(graph) == *old(graph),
            match r {
                Some(v) => self.refs().contains_key(*key) && *v == old(graph).arena().value_at(
                    self.refs()[*key],
                ),
                None => !self.refs().contains_key(*key),
            },
    {
        let graph: &'a BTreeGraph<K, V> = graph;
        self.get(key, graph)
    }

    pub fn contains_key(&self, key: &K) -> (r: bool)
        where
            K: Ord,
        requires
            obeys_cmp::<K>(),
        ensures
            r == self.refs().contains_key(*key),
    {
        self.0.contains_key(key)
    }

    /// The pairs of key and handle, in ascending key order.
    pub fn iter_ref(&self) -> (r: Vec<(&K, &Ref<V>)>)
        where
            K: Ord,
        requires
            obeys_cmp::<K>(),
        ensures
            r@.len() == self.refs().len(),
            ascending(keys_of(r@)),
            forall|i: int|
                0 <= i < r@.len() ==> #[trigger] self.refs().contains_key(*r@[i].0) && self.refs()[*r@[i].0]
                    == *r@[i].1,
            forall|k: K| #[trigger]
                self.refs().contains_key(k) ==> exists|i: int| 0 <= i < r@.len() && *r@[i].0 == k,
    {
        btree_pairs(&self.0)
    }

    /// References by key for every entry, in ascending key order.
    pub fn iter_ref_by(&self) -> (r: Vec<RefBy<K, V>>)
        where
            K: Ord + Clone,
        requires
            obeys_cmp::<K>(),
        ensures
            r@.len() == self.refs().len(),
            exists|ks: Seq<K>|
                {
                    &&& #[trigger] ascending(ks)
                    &&& ks.len() == r@.len()
                    &&& forall|i: int|
                        0 <= i < r@.len() ==> #[trigger] self.refs().contains_key(ks[i]) && cloned(
                            ks[i],
                            r@[i].spec_key(),
                        ) && r@[i].handle() == self.refs()[ks[i]]
                },
    {
        let pairs = btree_pairs(&self.0);
        let mut out: Vec<RefBy<K, V>> = Vec::new();
        let mut i: usize = 0;
        while i < pairs.len()
            invariant
                i <= pairs@.len(),
                out@.len() == i,
                forall|j: int|
                    0 <= j < i ==> cloned(*pairs@[j].0, #[trigger] out@[j].spec_key()) && out@[j].handle()
                        == *pairs@[j].1,
            decreases pairs@.len() - i,
        {
            let (k, h) = pairs[i];
            out.push(RefBy::new(k.clone(), *h));
            i = i + 1;
        }
        proof {
            let ks = keys_of(pairs@);
            assert(forall|i: int|
                0 <= i < out@.len() ==> #[trigger] self.refs().contains_key(ks[i]) && cloned(
                    ks[i],
                    out@[i].spec_key(),
                ) && out@[i].handle() == self.refs()[ks[i]]);
            assert(ascending(ks));
        }
        out
    }

    /// The keys, in ascending order.
    pub fn keys(&self) -> (r: Vec<&K>)
        where
            K: Ord,
        requires
            obeys_cmp::<K>(),
        ensures
            r@.len() == self.refs().len(),
            ascending(r@.map_values(|k: &K| *k)),
            forall|i: int| 0 <= i < r@.len() ==> #[trigger] self.refs().contains_key(*r@[i]),
            forall|k: K| #[trigger]
                self.refs().contains_key(k) ==> exists|i: int| 0 <= i < r@.len() && *r@[i] == k,
    {
        btree_keys(&self.0)
    }

    /// The handles, in ascending order of their keys.
    pub fn value_refs(&self) -> (r: Vec<&Ref<V>>)
        where
            K: Ord,
        requires
            obeys_cmp::<K>(),
        ensures
            r@.len() == self.refs().len(),
            exists|ks: Seq<K>|
                {
                    &&& #[trigger] ascending(ks)
                    &&& ks.len() == r@.len()
                    &&& forall|i: int|
                        0 <= i < r@.len() ==> #[trigger] self.refs().contains_key(ks[i])
                            && self.refs()[ks[i]] == *r@[i]
                    &&& forall|k: K| #[trigger]
                        self.refs().contains_key(k) ==> exists|i: int| 0 <= i < ks.len() && ks[i] == k
                },
    {
        btree_values(&self.0)
    }

    /// The keys with the values their nodes hold in `graph`, in ascending key
    /// order.
    pub fn iter<'a>(&'a self, graph: &'a Graph<V>) -> (r: Vec<(&'a K, &'a V)>)
        where
            K: Ord,
        requires
            obeys_cmp::<K>(),
            forall|k: K| #[trigger]
                self.refs().contains_key(k) ==> graph.occupied(self.refs()[k]),
        ensures
            r@.len() == self.refs().len(),
            ascending(keys_of(r@)),
            forall|i: int|
                0 <= i < r@.len() ==> #[trigger] self.refs().contains_key(*r@[i].0) && *r@[i].1
                    == graph.value_at(self.refs()[*r@[i].0]),
            forall|k: K| #[trigger]
                self.refs().contains_key(k) ==> exists|i: int| 0 <= i < r@.len() && *r@[i].0 == k,
    {
        let pairs = btree_pairs(&self.0);
        let mut out: Vec<(&K, &V)> = Vec::new();
        let mut i: usize = 0;
        while i < pairs.len()
            invariant
                i <= pairs@.len(),
                out@.len() == i,
                forall|k: K| #[trigger]
                    self.refs().contains_key(k) ==> graph.occupied(self.refs()[k]),
                forall|j: int|
                    0 <= j < pairs@.len() ==> #[trigger] self.refs().contains_key(*pairs@[j].0)
                        && self.refs()[*pairs@[j].0] == *pairs@[j].1,
                forall|j: int|
                    #![trigger out@[j]]
                    0 <= j < i ==> *out@[j].0 == *pairs@[j].0 && *out@[j].1 == graph.value_at(
                        *pairs@[j].1,
                    ),
            decreases pairs@.len() - i,
        {
            let (k, h) = pairs[i];
            assert(self.refs().contains_key(*k));
            out.push((k, graph.borrow(h)));
            i = i + 1;
        }
        proof {
            assert forall|j: int| 0 <= j < out@.len() implies #[trigger] keys_of(out@)[j] == keys_of(
                pairs@,
            )[j] by {
                assert(*out@[j].0 == *pairs@[j].0);
            }
            assert(keys_of(out@) =~= keys_of(pairs@));
            assert forall|k: K| #[trigger] self.refs().contains_key(k) implies exists|i: int|
                0 <= i < out@.len() && *out@[i].0 == k by {
                let i = choose|i: int| 0 <= i < pairs@.len() && *pairs@[i].0 == k;
                assert(*out@[i].0 == k);
            }
            assert forall|i: int| 0 <= i < out@.len() implies #[trigger] self.refs().contains_key(
                *out@[i].0,
            ) && *out@[i].1 == graph.value_at(self.refs()[*out@[i].0]) by {
                assert(*out@[i].0 == *pairs@[i].0);
                assert(self.refs().contains_key(*pairs@[i].0));
            }
        }
        out
    }

    /// The values that the nodes hold in `graph`, in ascending key order.
    pub fn values<'a>(&'a self, graph: &'a Graph<V>) -> (r: Vec<&'a V>)
        where
            K: Ord,
        requires
            obeys_cmp::<K>(),
            forall|k: K| #[trigger]
                self.refs().contains_key(k) ==> graph.occupied(self.refs()[k]),
        ensures
            r@.len() == self.refs().len(),
            exists|ks: Seq<K>|
                {
                    &&& #[trigger] ascending(ks)
                    &&& ks.len() == r@.len()
                    &&& forall|i: int|
                        0 <= i < r@.len() ==> #[trigger] self.refs().contains_key(ks[i]) && *r@[i]
                            == graph.value_at(self.refs()[ks[i]])
                },
    {
        let pairs = self.iter(graph);
        let mut out: Vec<&V> = Vec::new();
        let mut i: usize = 0;
        while i < pairs.len()
            invariant
                i <= pairs@.len(),
                out@.len() == i,
                forall|j: int| 0 <= j < i ==> *#[trigger] out@[j] == *pairs@[j].1,
            decreases pairs@.len() - i,
        {
            out.push(pairs[i].1);
            i = i + 1;
        }
        proof {
            let ks = keys_of(pairs@);
            assert(forall|i: int|
                0 <= i < out@.len() ==> #[trigger] self.refs().contains_key(ks[i]) && *out@[i]
                    == graph.value_at(self.refs()[ks[i]]));
            assert(ascending(ks));
        }
        out
    }

    /// Stores `value` under `key`; returns the handle it replaces.
    pub fn insert(&mut self, key: K, value: Ref<V>) -> (r: Option<Ref<V>>)
        where
            K: Ord,
        requires
            obeys_cmp::<K>(),
        ensures
            final(self).refs() == old(self).refs().insert(key, value),
            r == old(self).refs().get(key),
    {
        self.0.insert(key, value)
    }

    /// Removes `key`; returns the handle it held.
    pub fn remove(&mut self, key: &K) -> (r: Option<Ref<V>>)
        where
            K: Ord,
        requires
            obeys_cmp::<K>(),
        ensures
            final(self).refs() == old(self).refs().remove(*key),
            r == old(self).refs().get(*key),
    {
        self.0.remove(key)
    }

    /// A collection holding `keys`, each with a dangling handle, as
    /// deserialization produces it before `resolve`.
    pub fn from_keys(keys: Vec<K>) -> (r: Self)
        where
            K: Ord,
        requires
            obeys_cmp::<K>(),
        ensures
            forall|k: K| #[trigger] r.refs().contains_key(k) <==> keys@.contains(k),
            forall|k: K| #[trigger] r.refs().contains_key(k) ==> r.refs()[k].tag() == 0,
    {
        let mut map = RefMap::new();
        let ghost ks = keys@;
        for k in it: keys
            invariant
                obeys_cmp::<K>(),
                it.seq() == ks,
                forall|x: K| #[trigger] map.refs().contains_key(x) <==> ks.take(it.index()).contains(x),
                forall|x: K| #[trigger] map.refs().contains_key(x) ==> map.refs()[x].tag() == 0,
        {
            proof {
                let before = ks.take(it.index());
                let after = ks.take(it.index() + 1);
                assert(after =~= before.push(k));
                assert forall|x: K| after.contains(x) <==> #[trigger] before.contains(x) || x == k by {
                    if after.contains(x) {
                        let j = choose|j: int| 0 <= j < after.len() && #[trigger] after[j] == x;
                        if j < before.len() {
                            assert(before[j] == x);
                        }
                    }
                    if before.contains(x) {
                        let j = choose|j: int| 0 <= j < before.len() && #[trigger] before[j] == x;
                        assert(after[j] == x);
                    }
                    if x == k {
                        assert(after[before.len() as int] == x);
                    }
                }
            }
            map.insert(k, Ref::dangling());
        }
        proof {
            assert(ks.take(ks.len() as int) =~= ks);
        }
        map
    }

    /// Looks every key up in `index`, in ascending key order, and replaces
    /// its handle by the one found. Stops at the first key that is absent
    /// and returns a copy of it: the keys before it are resolved, it and the
    /// keys after it keep their handles.
    pub fn resolve<I: IndexBy<K, V>>(&mut self, index: &I) -> (r: Result<(), K>)
        where
            K: Ord + Clone,
        requires
            obeys_cmp::<K>(),
            index.lookups_exact(),
        ensures
            final(self).refs().dom() == old(self).refs().dom(),
            match r {
                Ok(()) => forall|k: K| #[trigger]
                    old(self).refs().contains_key(k) ==> index.index_view().contains_key(k)
                        && final(self).refs()[k] == index.index_view()[k],
                Err(e) => exists|k: K|
                    {
                        &&& #[trigger] old(self).refs().contains_key(k)
                        &&& !index.index_view().contains_key(k)
                        &&& cloned(k, e)
                        &&& forall|k2: K| #[trigger]
                            old(self).refs().contains_key(k2) ==> if precedes(k2, k) {
                                index.index_view().contains_key(k2) && final(self).refs()[k2]
                                    == index.index_view()[k2]
                            } else {
                                final(self).refs()[k2] == old(self).refs()[k2]
                            }
                    },
            },
    {
        let mut taken: BTreeMap<K, Ref<V>> = BTreeMap::new();
        std::mem::swap(&mut self.0, &mut taken);
        let pairs = btree_into_pairs(taken);
        let ghost before = old(self).refs();
        let ghost ps = pairs@;
        let ghost iv = index.index_view();
        let ghost mut pos: int = 0;
        let mut out: BTreeMap<K, Ref<V>> = BTreeMap::new();
        let mut failed: Option<K> = None;
        proof {
            lemma_precedes_strict::<K>();
        }
        for kh in it: pairs
            invariant
                obeys_cmp::<K>(),
                index.lookups_exact(),
                iv == index.index_view(),
                it.seq() == ps,
                ps.len() == before.len(),
                ascending(owned_keys(ps)),
                forall|a: K| !#[trigger] precedes(a, a),
                forall|i: int|
                    #![trigger ps[i]]
                    0 <= i < ps.len() ==> before.contains_key(ps[i].0) && before[ps[i].0] == ps[i].1,
                forall|k: K| #[trigger]
                    before.contains_key(k) ==> exists|i: int| 0 <= i < ps.len() && ps[i].0 == k,
                forall|x: K| #[trigger]
                    out@.contains_key(x) ==> exists|j: int| 0 <= j < it.index() && ps[j].0 == x,
                forall|j: int|
                    #![trigger ps[j]]
                    0 <= j < it.index() ==> out@.contains_key(ps[j].0) && out@[ps[j].0] == if failed
                        is Some && j >= pos {
                        ps[j].1
                    } else {
                        iv[ps[j].0]
                    },
                forall|j: int|
                    #![trigger ps[j]]
                    0 <= j < it.index() && (failed is None || j < pos) ==> iv.contains_key(ps[j].0),
                failed is Some ==> {
                    &&& 0 <= pos < it.index()
                    &&& !iv.contains_key(ps[pos].0)
                    &&& cloned(ps[pos].0, failed->Some_0)
                },
        {
            let (k, h) = kh;
            proof {
                assert(ps[it.index()] == (k, h));
                assert forall|j: int| 0 <= j < it.index() implies #[trigger] ps[j].0 != k by {
                    assert(owned_keys(ps)[j] == ps[j].0);
                    assert(owned_keys(ps)[it.index()] == k);
                    assert(precedes(ps[j].0, k));
                }
            }
            if failed.is_none() {
                match index.get(&k) {
                    Some(n) => {
                        let n = *n;
                        out.insert(k, n);
                    },
                    None => {
                        let e = k.clone();
                        proof {
                            pos = it.index();
                        }
                        failed = Some(e);
                        out.insert(k, h);
                    },
                }
            } else {
                out.insert(k, h);
            }
            proof {
                assert forall|x: K| #[trigger] out@.contains_key(x) implies exists|j: int|
                    0 <= j < it.index() + 1 && ps[j].0 == x by {
                    if x == k {
                        assert(ps[it.index()].0 == x);
                    }
                }
            }
        }
        self.0 = out;
        proof {
            let n = ps.len() as int;
            assert forall|k2: K| #[trigger] self.refs().contains_key(k2) <==> before.contains_key(k2) by {
                if before.contains_key(k2) {
                    let j = choose|j: int| 0 <= j < ps.len() && ps[j].0 == k2;
                    assert(ps[j] == ps[j]);
                }
                if self.refs().contains_key(k2) {
                    let j = choose|j: int| 0 <= j < n && ps[j].0 == k2;
                    assert(ps[j] == ps[j]);
                }
            }
            assert(self.refs().dom() =~= before.dom());
            if failed is Some {
                let k = ps[pos].0;
                assert(ps[pos] == ps[pos]);
                assert forall|k2: K| #[trigger] before.contains_key(k2) implies if precedes(k2, k) {
                    iv.contains_key(k2) && self.refs()[k2] == iv[k2]
                } else {
                    self.refs()[k2] == before[k2]
                } by {
                    let j = choose|j: int| 0 <= j < ps.len() && ps[j].0 == k2;
                    assert(ps[j] == ps[j]);
                    assert(owned_keys(ps)[j] == ps[j].0);
                    assert(owned_keys(ps)[pos] == k);
                    if j < pos {
                        assert(precedes(k2, k));
                    } else if j > pos {
                        assert(precedes(k, k2));
                    }
                }
            } else {
                assert forall|k2: K| #[trigger] before.contains_key(k2) implies iv.contains_key(k2)
                    && self.refs()[k2] == iv[k2] by {
                    let j = choose|j: int| 0 <= j < ps.len() && ps[j].0 == k2;
                    assert(ps[j] == ps[j]);
                }
            }
        }
        match failed {
            Some(e) => Err(e),
            None => Ok(()),
        }
    }

    /// Moves every entry of `other` into this collection, replacing the
    /// handle of a key that both hold; `other` is left empty.
    pub fn append(&mut self, other: &mut Self)
        where
            K: Ord,
        requires
            obeys_cmp::<K>(),
        ensures
            final(self).refs() == old(self).refs().union_prefer_right(old(other).refs()),
            final(other).refs() == Map::<K, Ref<V>>::empty(),
    {
        let mut taken: BTreeMap<K, Ref<V>> = BTreeMap::new();
        std::mem::swap(&mut other.0, &mut taken);
        let pairs = btree_into_pairs(taken);
        let ghost moved = old(other).refs();
        let ghost ps = pairs@;
        for kh in it: pairs
            invariant
                obeys_cmp::<K>(),
                it.seq() == ps,
                ps.len() == moved.len(),
                ascending(owned_keys(ps)),
                forall|i: int|
                    #![trigger ps[i]]
                    0 <= i < ps.len() ==> moved.contains_key(ps[i].0) && moved[ps[i].0] == ps[i].1,
                forall|k: K| #[trigger]
                    moved.contains_key(k) ==> exists|i: int| 0 <= i < ps.len() && ps[i].0 == k,
                self.refs() == old(self).refs().union_prefer_right(
                    moved.restrict(owned_keys(ps.take(it.index())).to_set()),
                ),
        {
            let (k, h) = kh;
            proof {
                assert(moved.contains_key(ps[it.index()].0));
                let done = owned_keys(ps.take(it.index())).to_set();
                let next = owned_keys(ps.take(it.index() + 1)).to_set();
                let s0 = owned_keys(ps.take(it.index()));
                let s1 = owned_keys(ps.take(it.index() + 1));
                assert(ps[it.index()] == (k, h));
                assert(s1 =~= s0.push(k));
                assert forall|x: K| next.contains(x) <==> #[trigger] done.insert(k).contains(x) by {
                    if s1.contains(x) {
                        let j = choose|j: int| 0 <= j < s1.len() && s1[j] == x;
                        if j < s0.len() {
                            assert(s0[j] == x);
                        }
                    }
                    if s0.contains(x) {
                        let j = choose|j: int| 0 <= j < s0.len() && s0[j] == x;
                        assert(s1[j] == x);
                    }
                    if x == k {
                        assert(s1[s0.len() as int] == x);
                    }
                }
                assert(next =~= done.insert(k));
                assert(moved[k] == h);
                assert(old(self).refs().union_prefer_right(moved.restrict(next)) =~= old(self).refs().union_prefer_right(moved.restrict(done)).insert(k, h));
            }
            self.0.insert(k, h);
        }
        proof {
            assert(ps.take(ps.len() as int) =~= ps);
            let all = owned_keys(ps).to_set();
            assert forall|k: K| #[trigger] moved.contains_key(k) implies all.contains(k) by {
                let i = choose|i: int| 0 <= i < ps.len() && ps[i].0 == k;
                assert(owned_keys(ps)[i] == k);
            }
            assert(moved.restrict(all) =~= moved);
        }
    }
}

impl<K, V> Default for RefMap<K, V> {
    fn default() -> (r: Self)
        ensures
            r.refs() == Map::<K, Ref<V>>::empty(),
    {
        RefMap::new()
    }
}

impl<K: Clone, V> Clone for RefMap<K, V> {
    fn clone(&self) -> (r: Self)
        ensures
            r.refs() == self.refs(),
    {
        RefMap(self.0.clone())
    }
}

/// Pairwise equal keys, as many on each side.
pub open spec fn keys_eq<K: PartialEq>(a: Seq<K>, b: Seq<K>) -> bool {
    a.len() == b.len() && forall|i: int| 0 <= i < a.len() ==> (#[trigger] a[i]).eq_spec(&b[i])
}

/// The keys of `m`, in ascending order, as an owned sequence.
proof fn lemma_key_list_sorted<K: Ord, X>(list: Seq<&K>, m: Map<K, X>)
    requires
        obeys_cmp::<K>(),
        lists_keys_in_order(list.map_values(|k: &K| *k), m),
    ensures
        list.map_values(|k: &K| *k) == sorted_keys(m),
{
    let owned = list.map_values(|k: &K| *k);
    let chosen = sorted_keys(m);
    assert(lists_keys_in_order(chosen, m));
    lemma_ascending_unique(owned, chosen);
}

/// Two collections are equal when they name the same keys, in the same
/// order; their handles are not compared.
impl<K: Ord, V> PartialEq for RefMap<K, V> {
    fn eq(&self, other: &Self) -> (r: bool)
        ensures
            obeys_cmp::<K>() ==> r == keys_eq(sorted_keys(self.refs()), sorted_keys(other.refs())),
    {
        let a = btree_key_list(&self.0);
        let b = btree_key_list(&other.0);
        let ghost sa = a@.map_values(|k: &K| *k);
        let ghost sb = b@.map_values(|k: &K| *k);
        proof {
            if obeys_cmp::<K>() {
                lemma_key_list_sorted(a@, self.refs());
                lemma_key_list_sorted(b@, other.refs());
            }
        }
        if a.len() != b.len() {
            return false;
        }
        let mut i: usize = 0;
        while i < a.len()
            invariant
                a@.len() == b@.len(),
                sa == a@.map_values(|k: &K| *k),
                sb == b@.map_values(|k: &K| *k),
                i <= a@.len(),
                obeys_cmp::<K>() ==> sa == sorted_keys(self.refs()) && sb == sorted_keys(other.refs()),
                obeys_cmp::<K>() ==> forall|j: int| 0 <= j < i ==> (#[trigger] sa[j]).eq_spec(&sb[j]),
            decreases a@.len() - i,
        {
            let same = *a[i] == *b[i];
            proof {
                assert(sa[i as int] == *a@[i as int]);
                assert(sb[i as int] == *b@[i as int]);
            }
            if !same {
                return false;
            }
            i = i + 1;
        }
        true
    }
}

impl<K: Ord, V> vstd::std_specs::cmp::PartialEqSpecImpl for RefMap<K, V> {
    open spec fn obeys_eq_spec() -> bool {
        obeys_cmp::<K>()
    }

    open spec fn eq_spec(&self, other: &Self) -> bool {
        keys_eq(sorted_keys(self.refs()), sorted_keys(other.refs()))
    }
}

impl<K: Ord, V> Eq for RefMap<K, V> {
}

/// Collections compare by their key sequences: at the first pair of keys
/// that differ, or else by length.
impl<K: Ord, V> PartialOrd for RefMap<K, V> {
    fn partial_cmp(&self, other: &Self) -> (r: Option<std::cmp::Ordering>)
        ensures
            obeys_cmp::<K>() ==> r == lex_cmp(sorted_keys(self.refs()), sorted_keys(other.refs())),
    {
        let a = btree_key_list(&self.0);
        let b = btree_key_list(&other.0);
        let ghost sa = a@.map_values(|k: &K| *k);
        let ghost sb = b@.map_values(|k: &K| *k);
        proof {
            if obeys_cmp::<K>() {
                lemma_key_list_sorted(a@, self.refs());
                lemma_key_list_sorted(b@, other.refs());
            }
        }
        proof {
            reveal(vstd::laws_cmp::obeys_cmp_partial_ord);
            assert(sa.skip(0) =~= sa);
            assert(sb.skip(0) =~= sb);
        }
        let mut i: usize = 0;
        while i < a.len() && i < b.len()
            invariant
                sa == a@.map_values(|k: &K| *k),
                sb == b@.map_values(|k: &K| *k),
                i <= a@.len(),
                i <= b@.len(),
                obeys_cmp::<K>() ==> sa == sorted_keys(self.refs()) && sb == sorted_keys(other.refs()),
                obeys_cmp::<K>() ==> <K as PartialOrdSpec>::obeys_partial_cmp_spec(),
                obeys_cmp::<K>() ==> lex_cmp(sa, sb) == lex_cmp(sa.skip(i as int), sb.skip(i as int)),
            decreases a@.len() - i,
        {
            let c = a[i].partial_cmp(b[i]);
            proof {
                reveal(vstd::laws_cmp::obeys_cmp_partial_ord);
                let ra = sa.skip(i as int);
                let rb = sb.skip(i as int);
                assert(ra[0] == *a@[i as int]);
                assert(rb[0] == *b@[i as int]);
                assert(ra.drop_first() =~= sa.skip(i + 1));
                assert(rb.drop_first() =~= sb.skip(i + 1));
            }
            match c {
                Some(std::cmp::Ordering::Equal) => {},
                _ => {
                    return c;
                },
            }
            i = i + 1;
        }
        if a.len() < b.len() {
            Some(std::cmp::Ordering::Less)
        } else if a.len() == b.len() {
            Some(std::cmp::Ordering::Equal)
        } else {
            Some(std::cmp::Ordering::Greater)
        }
    }
}

impl<K: Ord, V> vstd::std_specs::cmp::PartialOrdSpecImpl for RefMap<K, V> {
    open spec fn obeys_partial_cmp_spec() -> bool {
        obeys_cmp::<K>()
    }

    open spec fn partial_cmp_spec(&self, other: &Self) -> Option<std::cmp::Ordering> {
        lex_cmp(sorted_keys(self.refs()), sorted_keys(other.refs()))
    }
}

impl<K, V> Default for OptRefMap<K, V> {
    fn default() -> (r: Self)
        ensures
            r.refs() == Map::<K, Option<Ref<V>>>::empty(),
    {
        OptRefMap::new()
    }
}

impl<K: Clone, V> Clone for OptRefMap<K, V> {
    fn clone(&self) -> (r: Self)
        ensures
            r.refs() == self.refs(),
    {
        OptRefMap(self.0.clone())
    }
}

impl<K, V> OptRefMap<K, V> {
    /// The handle, or its absence, held under each key.
    pub closed spec fn refs(&self) -> Map<K, Option<Ref<V>>> {
        self.0@
    }

    pub fn new() -> (r: Self)
        ensures
            r.refs() == Map::<K, Option<Ref<V>>>::empty(),
    {
        OptRefMap(BTreeMap::new())
    }

    /// An empty collection; an ordered map reserves no room in advance.
    pub fn with_capacity(_n: usize) -> (r: Self)
        ensures
            r.refs() == Map::<K, Option<Ref<V>>>::empty(),
    {
        OptRefMap::new()
    }

    pub fn is_empty(&self) -> (r: bool)
        ensures
            r == (self.refs().len() == 0),
    {
        self.0.is_empty()
    }

    /// The handle under `key`, when the key is present and its handle is.
    pub fn get_ref(&self, key: &K) -> (r: Option<&Ref<V>>)
        where
            K: Ord,
        requires
            obeys_cmp::<K>(),
        ensures
            match r {
                Some(h) => self.refs().contains_key(*key) && self.refs()[*key] == Some(*h),
                None => !self.refs().contains_key(*key) || self.refs()[*key] is None,
            },
    {
        match self.0.get(key) {
            Some(h) => h.as_ref(),
            None => None,
        }
    }

    /// The handle under `key` with a copy of the stored key, when the key is
    /// present and its handle is.
    pub fn get_ref_by(&self, key: &K) -> (r: Option<RefBy<K, V>>)
        where
            K: Ord + Clone,
        requires
            obeys_cmp::<K>(),
        ensures
            match r {
                Some(rb) => {
                    &&& self.refs().contains_key(*key)
                    &&& cloned(*key, rb.spec_key())
                    &&& self.refs()[*key] == Some(rb.handle())
                },
                None => !self.refs().contains_key(*key) || self.refs()[*key] is None,
            },
    {
        match btree_get_key_value(&self.0, key) {
            Some((k, Some(h))) => Some(RefBy::new(k.clone(), *h)),
            _ => None,
        }
    }

    /// The value, in `graph`, of the node under `key`, when there is one.
    pub fn get<'a>(&self, key: &K, graph: &'a BTreeGraph<K, V>) -> (r: Option<&'a V>)
        where
            K: Ord,
        requires
            obeys_cmp::<K>(),
            self.refs().contains_key(*key) && self.refs()[*key] is Some ==> graph.arena().occupied(
                self.refs()[*key]->Some_0,
            ),
        ensures
            match r {
                Some(v) => self.refs().contains_key(*key) && self.refs()[*key] is Some && *v
                    == graph.arena().value_at(self.refs()[*key]->Some_0),
                None => !self.refs().contains_key(*key) || self.refs()[*key] is None,
            },
    {
        match self.get_ref(key) {
            Some(h) => Some(graph.borrow(h)),
            None => None,
        }
    }

    /// Like `get`, through a graph that is held exclusively.
    pub fn get_mut<'a>(&self, key: &K, graph: &'a mut BTreeGraph<K, V>) -> (r: Option<&'a V>)
        where
            K: Ord,
        requires
            obeys_cmp::<K>(),
            self.refs().contains_key(*key) && self.refs()[*key] is Some ==> old(
                graph,
            ).arena().occupied(self.refs()[*key]->Some_0),
        ensures
            *final(graph) == *old(graph),
            match r {
                Some(v) => self.refs().contains_key(*key) && self.refs()[*key] is Some && *v
                    == old(graph).arena().value_at(self.refs()[*key]->Some_0),
                None => !self.refs().contains_key(*key) || self.refs()[*key] is None,
            },
    {
        let graph: &'a BTreeGraph<K, V> = graph;
        self.get(key, graph)
    }

    pub fn contains_key(&self, key: &K) -> (r: bool)
        where
            K: Ord,
        requires
            obeys_cmp::<K>(),
        ensures
            r == self.refs().contains_key(*key),
    {
        self.0.contains_key(key)
    }

    /// The pairs of key and optional handle, in ascending key order.
    pub fn iter_ref(&self) -> (r: Vec<(&K, &Option<Ref<V>>)>)
        where
            K: Ord,
        requires
            obeys_cmp::<K>(),
        ensures
            r@.len() == self.refs().len(),
            ascending(keys_of(r@)),
            forall|i: int|
                0 <= i < r@.len() ==> #[trigger] self.refs().contains_key(*r@[i].0) && self.refs()[*r@[i].0]
                    == *r@[i].1,
            forall|k: K| #[trigger]
                self.refs().contains_key(k) ==> exists|i: int| 0 <= i < r@.len() && *r@[i].0 == k,
    {
        btree_pairs(&self.0)
    }

    /// Optional references by key for every entry, in ascending key order.
    pub fn iter_ref_by(&self) -> (r: Vec<OptRefBy<K, V>>)
        where
            K: Ord + Clone,
        requires
            obeys_cmp::<K>(),
        ensures
            r@.len() == self.refs().len(),
            exists|ks: Seq<K>|
                {
                    &&& #[trigger] ascending(ks)
                    &&& ks.len() == r@.len()
                    &&& forall|i: int|
                        0 <= i < r@.len() ==> #[trigger] self.refs().contains_key(ks[i]) && cloned(
                            ks[i],
                            r@[i].spec_key(),
                        ) && r@[i].handle() == self.refs()[ks[i]]
                },
    {
        let pairs = btree_pairs(&self.0);
        let mut out: Vec<OptRefBy<K, V>> = Vec::new();
        let mut i: usize = 0;
        while i < pairs.len()
            invariant
                i <= pairs@.len(),
                out@.len() == i,
                forall|j: int|
                    0 <= j < i ==> cloned(*pairs@[j].0, #[trigger] out@[j].spec_key()) && out@[j].handle()
                        == *pairs@[j].1,
            decreases pairs@.len() - i,
        {
            let (k, h) = pairs[i];
            out.push(OptRefBy::new(k.clone(), *h));
            i = i + 1;
        }
        proof {
            let ks = keys_of(pairs@);
            assert(forall|i: int|
                0 <= i < out@.len() ==> #[trigger] self.refs().contains_key(ks[i]) && cloned(
                    ks[i],
                    out@[i].spec_key(),
                ) && out@[i].handle() == self.refs()[ks[i]]);
            assert(ascending(ks));
        }
        out
    }

    /// The keys, in ascending order.
    pub fn keys(&self) -> (r: Vec<&K>)
        where
            K: Ord,
        requires
            obeys_cmp::<K>(),
        ensures
            r@.len() == self.refs().len(),
            ascending(r@.map_values(|k: &K| *k)),
            forall|i: int| 0 <= i < r@.len() ==> #[trigger] self.refs().contains_key(*r@[i]),
            forall|k: K| #[trigger]
                self.refs().contains_key(k) ==> exists|i: int| 0 <= i < r@.len() && *r@[i] == k,
    {
        btree_keys(&self.0)
    }

    /// The optional handles, in ascending order of their keys.
    pub fn value_refs(&self) -> (r: Vec<&Option<Ref<V>>>)
        where
            K: Ord,
        requires
            obeys_cmp::<K>(),
        ensures
            r@.len() == self.refs().len(),
            exists|ks: Seq<K>|
                {
                    &&& #[trigger] ascending(ks)
                    &&& ks.len() == r@.len()
                    &&& forall|i: int|
                        0 <= i < r@.len() ==> #[trigger] self.refs().contains_key(ks[i])
                            && self.refs()[ks[i]] == *r@[i]
                    &&& forall|k: K| #[trigger]
                        self.refs().contains_key(k) ==> exists|i: int| 0 <= i < ks.len() && ks[i] == k
                },
    {
        btree_values(&self.0)
    }

    /// The keys with the values their nodes hold in `graph` (`None` for an
    /// absent handle), in ascending key order.
    pub fn iter<'a>(&'a self, graph: &'a Graph<V>) -> (r: Vec<(&'a K, Option<&'a V>)>)
        where
            K: Ord,
        requires
            obeys_cmp::<K>(),
            forall|k: K| #[trigger]
                self.refs().contains_key(k) && self.refs()[k] is Some ==> graph.occupied(
                    self.refs()[k]->Some_0,
                ),
        ensures
            r@.len() == self.refs().len(),
            ascending(r@.map_values(|kv: (&K, Option<&V>)| *kv.0)),
            forall|i: int|
                0 <= i < r@.len() ==> #[trigger] self.refs().contains_key(*r@[i].0) && (
                self.refs()[*r@[i].0] is Some <==> r@[i].1 is Some) && (r@[i].1 is Some ==> *r@[i].1->Some_0
                    == graph.value_at(self.refs()[*r@[i].0]->Some_0)),
            forall|k: K| #[trigger]
                self.refs().contains_key(k) ==> exists|i: int| 0 <= i < r@.len() && *r@[i].0 == k,
    {
        let pairs = btree_pairs(&self.0);
        let mut out: Vec<(&K, Option<&V>)> = Vec::new();
        let mut i: usize = 0;
        while i < pairs.len()
            invariant
                i <= pairs@.len(),
                out@.len() == i,
                forall|k: K| #[trigger]
                    self.refs().contains_key(k) && self.refs()[k] is Some ==> graph.occupied(
                        self.refs()[k]->Some_0,
                    ),
                forall|j: int|
                    0 <= j < pairs@.len() ==> #[trigger] self.refs().contains_key(*pairs@[j].0)
                        && self.refs()[*pairs@[j].0] == *pairs@[j].1,
                forall|j: int|
                    #![trigger out@[j]]
                    0 <= j < i ==> *out@[j].0 == *pairs@[j].0 && (*pairs@[j].1 is Some <==> out@[j].1 is Some)
                        && (out@[j].1 is Some ==> *out@[j].1->Some_0 == graph.value_at(
                        pairs@[j].1->Some_0,
                    )),
            decreases pairs@.len() - i,
        {
            let (k, h) = pairs[i];
            assert(self.refs().contains_key(*k));
            let v = match h {
                Some(h) => Some(graph.borrow(h)),
                None => None,
            };
            out.push((k, v));
            i = i + 1;
        }
        proof {
            assert(out@.map_values(|kv: (&K, Option<&V>)| *kv.0) =~= keys_of(pairs@));
            assert forall|k: K| #[trigger] self.refs().contains_key(k) implies exists|i: int|
                0 <= i < out@.len() && *out@[i].0 == k by {
                let i = choose|i: int| 0 <= i < pairs@.len() && *pairs@[i].0 == k;
                assert(*out@[i].0 == k);
            }
        }
        out
    }

    /// The values that the present handles point at in `graph`, in
    /// ascending key order; entries without a handle are skipped.
    pub fn values<'a>(&'a self, graph: &'a Graph<V>) -> (r: Vec<&'a V>)
        where
            K: Ord,
        requires
            obeys_cmp::<K>(),
            forall|k: K| #[trigger]
                self.refs().contains_key(k) && self.refs()[k] is Some ==> graph.occupied(
                    self.refs()[k]->Some_0,
                ),
        ensures
            exists|ks: Seq<K>|
                {
                    &&& #[trigger] ascending(ks)
                    &&& ks.len() == r@.len()
                    &&& forall|i: int|
                        0 <= i < r@.len() ==> #[trigger] self.refs().contains_key(ks[i])
                            && self.refs()[ks[i]] is Some && *r@[i] == graph.value_at(
                            self.refs()[ks[i]]->Some_0,
                        )
                    &&& forall|k: K| #[trigger]
                        self.refs().contains_key(k) && self.refs()[k] is Some ==> exists|i: int|
                            0 <= i < ks.len() && ks[i] == k
                },
    {
        let pairs = self.iter(graph);
        let ghost all = pairs@.map_values(|kv: (&K, Option<&V>)| *kv.0);
        let ghost mut ks: Seq<K> = Seq::empty();
        let ghost mut picked: Seq<int> = Seq::empty();
        let mut out: Vec<&V> = Vec::new();
        let mut i: usize = 0;
        while i < pairs.len()
            invariant
                i <= pairs@.len(),
                all == pairs@.map_values(|kv: (&K, Option<&V>)| *kv.0),
                ascending(all),
                ks.len() == out@.len(),
                picked.len() == out@.len(),
                forall|j: int|
                    #![trigger picked[j]]
                    0 <= j < picked.len() ==> 0 <= picked[j] < i && ks[j] == all[picked[j]]
                        && pairs@[picked[j]].1 is Some && *out@[j] == *pairs@[picked[j]].1->Some_0,
                forall|j1: int, j2: int|
                    #![trigger picked[j1], picked[j2]]
                    0 <= j1 < j2 < picked.len() ==> picked[j1] < picked[j2],
                forall|j: int|
                    #![trigger pairs@[j]]
                    0 <= j < i && pairs@[j].1 is Some ==> exists|m: int|
                        0 <= m < picked.len() && picked[m] == j,
            decreases pairs@.len() - i,
        {
            match pairs[i].1 {
                Some(v) => {
                    proof {
                        let old_picked = picked;
                        ks = ks.push(*pairs@[i as int].0);
                        picked = picked.push(i as int);
                        assert forall|j: int|
                            #![trigger pairs@[j]]
                            0 <= j < i + 1 && pairs@[j].1 is Some implies exists|m: int|
                                0 <= m < picked.len() && picked[m] == j by {
                            if j == i {
                                assert(picked[picked.len() - 1] == j);
                            } else {
                                let m = choose|m: int| 0 <= m < old_picked.len() && old_picked[m] == j;
                                assert(picked[m] == j);
                            }
                        }
                    }
                    out.push(v);
                },
                None => {},
            }
            i = i + 1;
        }
        proof {
            assert forall|a: int, b: int|
                #![trigger ks[a], ks[b]]
                0 <= a < b < ks.len() implies ks[a].cmp_spec(&ks[b]) == std::cmp::Ordering::Less by {
                assert(ks[a] == all[picked[a]]);
                assert(ks[b] == all[picked[b]]);
            }
            assert forall|j: int| 0 <= j < out@.len() implies #[trigger] self.refs().contains_key(ks[j])
                && self.refs()[ks[j]] is Some && *out@[j] == graph.value_at(self.refs()[ks[j]]->Some_0) by {
                let p = picked[j];
                assert(pairs@[p] == pairs@[p]);
            }
            assert forall|k: K| #[trigger] self.refs().contains_key(k) && self.refs()[k] is Some implies exists|
                i: int,
            | 0 <= i < ks.len() && ks[i] == k by {
                let p = choose|p: int| 0 <= p < pairs@.len() && *pairs@[p].0 == k;
                assert(pairs@[p] == pairs@[p]);
                let m = choose|m: int| 0 <= m < picked.len() && picked[m] == p;
                assert(ks[m] == all[p]);
            }
            assert(ascending(ks));
            assert(ks.len() == out@.len());
        }
        out
    }

    /// Stores `value` under `key`, replacing what the key held.
    pub fn insert(&mut self, key: K, value: Option<Ref<V>>)
        where
            K: Ord,
        requires
            obeys_cmp::<K>(),
        ensures
            final(self).refs() == old(self).refs().insert(key, value),
    {
        self.0.insert(key, value);
    }

    /// Removes `key`.
    pub fn remove(&mut self, key: &K)
        where
            K: Ord,
        requires
            obeys_cmp::<K>(),
        ensures
            final(self).refs() == old(self).refs().remove(*key),
    {
        self.0.remove(key);
    }

    /// A collection holding `keys`, each without a handle, as
    /// deserialization produces it before `resolve`.
    pub fn from_keys(keys: Vec<K>) -> (r: Self)
        where
            K: Ord,
        requires
            obeys_cmp::<K>(),
        ensures
            forall|k: K| #[trigger] r.refs().contains_key(k) <==> keys@.contains(k),
            forall|k: K| #[trigger] r.refs().contains_key(k) ==> r.refs()[k] is None,
    {
        let mut map = OptRefMap::new();
        let ghost ks = keys@;
        for k in it: keys
            invariant
                obeys_cmp::<K>(),
                it.seq() == ks,
                forall|x: K| #[trigger] map.refs().contains_key(x) <==> ks.take(it.index()).contains(x),
                forall|x: K| #[trigger] map.refs().contains_key(x) ==> map.refs()[x] is None,
        {
            proof {
                let before = ks.take(it.index());
                let after = ks.take(it.index() + 1);
                assert(after =~= before.push(k));
                assert forall|x: K| after.contains(x) <==> #[trigger] before.contains(x) || x == k by {
                    if after.contains(x) {
                        let j = choose|j: int| 0 <= j < after.len() && #[trigger] after[j] == x;
                        if j < before.len() {
                            assert(before[j] == x);
                        }
                    }
                    if before.contains(x) {
                        let j = choose|j: int| 0 <= j < before.len() && #[trigger] before[j] == x;
                        assert(after[j] == x);
                    }
                    if x == k {
                        assert(after[before.len() as int] == x);
                    }
                }
            }
            let ghost prev = map.refs();
            map.insert(k, None);
            proof {
                let before = ks.take(it.index());
                let after = ks.take(it.index() + 1);
                assert forall|x: K| #[trigger] map.refs().contains_key(x) <==> after.contains(x) by {
                    assert(prev.contains_key(x) <==> before.contains(x));
                    assert(after.contains(x) <==> before.contains(x) || x == k);
                }
            }
        }
        proof {
            assert(ks.take(ks.len() as int) =~= ks);
        }
        map
    }

    /// Looks every key up in `index`: each handle becomes the one found, or
    /// absent when the key is not there.
    pub fn resolve<I: IndexBy<K, V>>(&mut self, index: &I)
        where
            K: Ord,
        requires
            obeys_cmp::<K>(),
            index.lookups_exact(),
        ensures
            final(self).refs().dom() == old(self).refs().dom(),
            forall|k: K| #[trigger]
                old(self).refs().contains_key(k) ==> final(self).refs()[k]
                    == index.index_view().get(k),
    {
        let mut taken: BTreeMap<K, Option<Ref<V>>> = BTreeMap::new();
        std::mem::swap(&mut self.0, &mut taken);
        let pairs = btree_into_pairs(taken);
        let ghost before = old(self).refs();
        let ghost ps = pairs@;
        let ghost iv = index.index_view();
        let mut out: BTreeMap<K, Option<Ref<V>>> = BTreeMap::new();
        proof {
            lemma_precedes_strict::<K>();
        }
        for kh in it: pairs
            invariant
                obeys_cmp::<K>(),
                index.lookups_exact(),
                iv == index.index_view(),
                it.seq() == ps,
                ascending(owned_keys(ps)),
                forall|a: K| !#[trigger] precedes(a, a),
                forall|i: int|
                    #![trigger ps[i]]
                    0 <= i < ps.len() ==> before.contains_key(ps[i].0),
                forall|k: K| #[trigger]
                    before.contains_key(k) ==> exists|i: int| 0 <= i < ps.len() && ps[i].0 == k,
                forall|x: K| #[trigger]
                    out@.contains_key(x) ==> exists|j: int| 0 <= j < it.index() && ps[j].0 == x,
                forall|j: int|
                    #![trigger ps[j]]
                    0 <= j < it.index() ==> out@.contains_key(ps[j].0) && out@[ps[j].0] == iv.get(
                        ps[j].0,
                    ),
        {
            let (k, _h) = kh;
            proof {
                assert(ps[it.index()].0 == k);
                assert forall|j: int| 0 <= j < it.index() implies #[trigger] ps[j].0 != k by {
                    assert(owned_keys(ps)[j] == ps[j].0);
                    assert(owned_keys(ps)[it.index()] == k);
                    assert(precedes(ps[j].0, k));
                }
            }
            let found = match index.get(&k) {
                Some(n) => Some(*n),
                None => None,
            };
            out.insert(k, found);
            proof {
                assert forall|x: K| #[trigger] out@.contains_key(x) implies exists|j: int|
                    0 <= j < it.index() + 1 && ps[j].0 == x by {
                    if x == k {
                        assert(ps[it.index()].0 == x);
                    }
                }
            }
        }
        self.0 = out;
        proof {
            assert forall|k2: K| #[trigger] self.refs().contains_key(k2) <==> before.contains_key(k2) by {
                if before.contains_key(k2) {
                    let j = choose|j: int| 0 <= j < ps.len() && ps[j].0 == k2;
                    assert(ps[j] == ps[j]);
                }
                if self.refs().contains_key(k2) {
                    let j = choose|j: int| 0 <= j < ps.len() && ps[j].0 == k2;
                    assert(ps[j] == ps[j]);
                }
            }
            assert(self.refs().dom() =~= before.dom());
            assert forall|k2: K| #[trigger] before.contains_key(k2) implies self.refs()[k2] == iv.get(
                k2,
            ) by {
                let j = choose|j: int| 0 <= j < ps.len() && ps[j].0 == k2;
                assert(ps[j] == ps[j]);
            }
        }
    }
}

} // verus!
