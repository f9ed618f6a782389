use std::collections::BTreeMap;

use vstd::laws_cmp::obeys_cmp;
use vstd::prelude::*;

use crate::gen::Generations;
use crate::graph::Graph;
use crate::index::{
    ascending, keys_of, lemma_precedes_strict, lists, owned_pairs, pairs_map, precedes, IndexBy,
};
use crate::maps::{btree_get_key_value, btree_keys, btree_pairs, btree_values};
use crate::reference::{Ref, RefBy};

verus! {

/// A graph whose nodes are found by key: an arena of nodes together with an
/// ordered index from key to handle.
pub struct BTreeGraph<K, V> {
    graph: Graph<V>,
    index: BTreeMap<K, Ref<V>>,
}

/// A key of a `BTreeGraph` that may or may not hold a value yet.
pub struct Entry<'a, K, V> {
    graph: &'a mut BTreeGraph<K, V>,
    key: K,
}

impl<K, V> BTreeGraph<K, V> {
    /// The index: which handle each key is registered under.
    pub closed spec fn index_map(&self) -> Map<K, Ref<V>> {
        self.index@
    }

    /// The arena that holds the nodes.
    pub closed spec fn arena(&self) -> Graph<V> {
        self.graph
    }

    /// What each key holds: its node's value, or `None` while the node is
    /// promised and not yet created.
    pub open spec fn contents(&self) -> Map<K, Option<V>> {
        self.index_map().map_values(|h: Ref<V>| self.arena().slots()[h.slot() as int])
    }

    /// Every handle in the index was issued by the arena, and no two keys
    /// share a slot.
    pub open spec fn wf(&self) -> bool {
        &&& self.arena().wf()
        &&& forall|k: K| #[trigger]
            self.index_map().contains_key(k) ==> self.arena().owns(self.index_map()[k])
        &&& forall|k1: K, k2: K|
            #![trigger self.index_map()[k1], self.index_map()[k2]]
            self.index_map().contains_key(k1) && self.index_map().contains_key(k2) && k1 != k2
                ==> self.index_map()[k1].slot() != self.index_map()[k2].slot()
    }

    /// Every key's node has been created.
    pub open spec fn all_settled(&self) -> bool {
        forall|k: K| #[trigger] self.settled(k)
    }

    /// `key` is absent, or its node has been created.
    pub open spec fn settled(&self, key: K) -> bool {
        self.index_map().contains_key(key) ==> self.arena().occupied(self.index_map()[key])
    }

    /// Creates an empty graph with a fresh tag taken from `gens`.
    pub fn new(gens: &mut Generations) -> (r: Self)
        requires
            old(gens).wf(),
        ensures
            r.wf(),
            r.index_map() == Map::<K, Ref<V>>::empty(),
            r.arena().slots() == Seq::<Option<V>>::empty(),
            r.arena().tag() == old(gens).next_tag(),
            final(gens).wf(),
            final(gens).next_tag() == if old(gens).next_tag() < u64::MAX {
                (old(gens).next_tag() + 1) as u64
            } else {
                old(gens).next_tag()
            },
    {
        BTreeGraph { graph: Graph::new(gens), index: BTreeMap::new() }
    }

    /// Creates an empty graph with room for `n` nodes.
    pub fn with_capacity(n: usize, gens: &mut Generations) -> (r: Self)
        requires
            old(gens).wf(),
        ensures
            r.wf(),
            r.index_map() == Map::<K, Ref<V>>::empty(),
            r.arena().slots() == Seq::<Option<V>>::empty(),
            r.arena().tag() == old(gens).next_tag(),
            final(gens).wf(),
            final(gens).next_tag() == if old(gens).next_tag() < u64::MAX {
                (old(gens).next_tag() + 1) as u64
            } else {
                old(gens).next_tag()
            },
    {
        BTreeGraph { graph: Graph::with_capacity(n, gens), index: BTreeMap::new() }
    }

    pub fn index(&self) -> (r: &BTreeMap<K, Ref<V>>)
        ensures
            r@ == self.index_map(),
    {
        &self.index
    }

    /// The arena that holds the nodes.
    pub fn as_graph(&self) -> (r: &Graph<V>)
        ensures
            *r == self.arena(),
    {
        &self.graph
    }

    /// Registers `node` under `key`; a node that `key` held before has its
    /// slot cleared, so that handles to it go stale.
    fn register(&mut self, key: K, node: Ref<V>)
        where
            K: Ord,
        requires
            obeys_cmp::<K>(),
            old(self).wf(),
            old(self).arena().owns(node),
            forall|k: K| #[trigger]
                old(self).index_map().contains_key(k) ==> old(self).index_map()[k].slot()
                    != node.slot(),
        ensures
            final(self).wf(),
            final(self).index_map() == old(self).index_map().insert(key, node),
            final(self).arena().tag() == old(self).arena().tag(),
            final(self).arena().slots() == if old(self).index_map().contains_key(key) {
                old(self).arena().slots().update(
                    old(self).index_map()[key].slot() as int,
                    None,
                )
            } else {
                old(self).arena().slots()
            },
    {
        proof {
            if old(self).index_map().contains_key(key) {
                assert(old(self).arena().owns(old(self).index_map()[key]));
            }
        }
        match self.index.insert(key, node) {
            Some(old_node) => {
                assert(old_node == old(self).index_map()[key]);
                let _ = self.graph.take_slot(old_node.index());
            },
            None => {},
        }
        proof {
            let m = self.index_map();
            assert forall|k: K| #[trigger] m.contains_key(k) implies self.arena().owns(m[k]) by {
                if k != key {
                    assert(old(self).index_map().contains_key(k));
                }
            }
            assert forall|k1: K, k2: K|
                m.contains_key(k1) && m.contains_key(k2) && k1 != k2 implies #[trigger] m[k1].slot()
                != #[trigger] m[k2].slot() by {
                if k1 != key && k2 != key {
                    assert(old(self).index_map().contains_key(k1));
                    assert(old(self).index_map().contains_key(k2));
                } else if k1 == key {
                    assert(old(self).index_map().contains_key(k2));
                } else {
                    assert(old(self).index_map().contains_key(k1));
                }
            }
        }
    }

    /// Inserts `value` under `key` and returns its handle. A value that
    /// `key` held before is dropped, and handles to it go stale.
    pub fn insert(&mut self, key: K, value: V) -> (r: Ref<V>)
        where
            K: Ord,
        requires
            obeys_cmp::<K>(),
            old(self).wf(),
        ensures
            final(self).wf(),
            final(self).contents() == old(self).contents().insert(key, Some(value)),
            old(self).index_map().contains_key(key) ==> !final(self).arena().occupied(
                old(self).index_map()[key],
            ),
            final(self).index_map() == old(self).index_map().insert(key, r),
            final(self).arena().tag() == old(self).arena().tag(),
            final(self).arena().slots() == if old(self).index_map().contains_key(key) {
                old(self).arena().slots().push(Some(value)).update(
                    old(self).index_map()[key].slot() as int,
                    None,
                )
            } else {
                old(self).arena().slots().push(Some(value))
            },
            r.tag() == old(self).arena().tag(),
            r.slot() == old(self).arena().slots().len(),
    {
        let node = self.graph.insert(value);
        proof {
            assert(self.index_map() == old(self).index_map());
            assert(self.arena().wf());
            assert forall|k: K| #[trigger] self.index_map().contains_key(k) implies self.arena().owns(
                self.index_map()[k],
            ) by {
                assert(old(self).arena().owns(old(self).index_map()[k]));
            }
        }
        self.register(key, node);
        proof {
            self.lemma_contents_after_register(old(self), key, node);
        }
        node
    }

    /// Reserves an empty slot under `key` and returns its handle; `create`
    /// fills it later. A value that `key` held before is dropped.
    pub fn promise(&mut self, key: K) -> (r: Ref<V>)
        where
            K: Ord,
        requires
            obeys_cmp::<K>(),
            old(self).wf(),
        ensures
            final(self).wf(),
            final(self).contents() == old(self).contents().insert(key, None),
            old(self).index_map().contains_key(key) ==> !final(self).arena().occupied(
                old(self).index_map()[key],
            ),
            final(self).index_map() == old(self).index_map().insert(key, r),
            final(self).arena().tag() == old(self).arena().tag(),
            final(self).arena().slots() == if old(self).index_map().contains_key(key) {
                old(self).arena().slots().push(None).update(
                    old(self).index_map()[key].slot() as int,
                    None,
                )
            } else {
                old(self).arena().slots().push(None)
            },
            r.tag() == old(self).arena().tag(),
            r.slot() == old(self).arena().slots().len(),
    {
        let node = self.graph.promise();
        proof {
            assert(self.index_map() == old(self).index_map());
            assert(self.arena().wf());
            assert forall|k: K| #[trigger] self.index_map().contains_key(k) implies self.arena().owns(
                self.index_map()[k],
            ) by {
                assert(old(self).arena().owns(old(self).index_map()[k]));
            }
        }
        self.register(key, node);
        proof {
            self.lemma_contents_after_register(old(self), key, node);
        }
        node
    }

    /// The pairs of key and handle, in ascending key order.
    pub fn iter_ref(&self) -> (r: Vec<(&K, &Ref<V>)>)
        where
            K: Ord,
        requires
            obeys_cmp::<K>(),
        ensures
            r@.len() == self.index_map().len(),
            ascending(keys_of(r@)),
            forall|i: int|
                0 <= i < r@.len() ==> #[trigger] self.index_map().contains_key(*r@[i].0)
                    && self.index_map()[*r@[i].0] == *r@[i].1,
            forall|k: K| #[trigger]
                self.index_map().contains_key(k) ==> exists|i: int|
                    0 <= i < r@.len() && *r@[i].0 == k,
    {
        btree_pairs(&self.index)
    }

    /// The pairs of key and value, in ascending key order.
    pub fn iter(&self) -> (r: Vec<(&K, &V)>)
        where
            K: Ord,
        requires
            obeys_cmp::<K>(),
            self.wf(),
            self.all_settled(),
        ensures
            r@.len() == self.contents().len(),
            ascending(keys_of(r@)),
            forall|i: int|
                0 <= i < r@.len() ==> #[trigger] self.contents().contains_key(*r@[i].0)
                    && self.contents()[*r@[i].0] == Some(*r@[i].1),
            forall|k: K| #[trigger]
                self.contents().contains_key(k) ==> exists|i: int| 0 <= i < r@.len() && *r@[i].0 == k,
            lists(self.contents(), owned_pairs(r@)),
    {
        let refs = self.iter_ref();
        let mut out: Vec<(&K, &V)> = Vec::new();
        let mut i: usize = 0;
        while i < refs.len()
            invariant
                self.wf(),
                self.all_settled(),
                i <= refs@.len(),
                out@.len() == i,
                refs@.len() == self.index_map().len(),
                forall|j: int|
                    0 <= j < refs@.len() ==> #[trigger] self.index_map().contains_key(*refs@[j].0)
                        && self.index_map()[*refs@[j].0] == *refs@[j].1,
                forall|j: int|
                    #![trigger out@[j]]
                    0 <= j < i ==> *out@[j].0 == *refs@[j].0 && self.contents().contains_key(*out@[j].0)
                        && Some(*out@[j].1) == self.contents()[*out@[j].0],
            decreases refs@.len() - i,
        {
            let (k, h) = refs[i];
            proof {
                assert(self.index_map().contains_key(*k));
                assert(self.settled(*k));
                assert(self.contents()[*k] == self.arena().slots()[h.slot() as int]);
            }
            out.push((k, self.graph.borrow(h)));
            i = i + 1;
        }
        proof {
            assert(self.contents().dom() =~= self.index_map().dom());
            assert forall|j: int| 0 <= j < out@.len() implies #[trigger] keys_of(out@)[j] == keys_of(
                refs@,
            )[j] by {
                assert(*out@[j].0 == *refs@[j].0);
            }
            assert(keys_of(out@) =~= keys_of(refs@));
            assert forall|k: K| #[trigger] self.contents().contains_key(k) implies exists|i: int|
                0 <= i < out@.len() && *out@[i].0 == k by {
                assert(self.index_map().contains_key(k));
                let i = choose|i: int| 0 <= i < refs@.len() && *refs@[i].0 == k;
                assert(*out@[i].0 == k);
                assert(owned_pairs(out@)[i].0 == k);
            }
            let owned = owned_pairs(out@);
            assert forall|k: K| #[trigger] self.contents().contains_key(k) implies exists|i: int|
                0 <= i < owned.len() && owned[i].0 == k by {
                let i = choose|i: int| 0 <= i < out@.len() && *out@[i].0 == k;
                assert(owned[i].0 == k);
            }
            assert forall|i: int| 0 <= i < owned.len() implies #[trigger] self.contents().contains_key(
                owned[i].0,
            ) && self.contents()[owned[i].0] == Some(owned[i].1) by {
                assert(out@[i] == out@[i]);
            }
        }
        out
    }

    /// The keys with mutable borrows of their values, in ascending key order.
    pub fn iter_mut(&mut self) -> (r: Vec<(&K, &mut V)>)
        where
            K: Ord,
        requires
            obeys_cmp::<K>(),
            old(self).wf(),
            old(self).all_settled(),
        ensures
            r@.len() == old(self).index_map().len(),
            ascending(r@.map_values(|kv: (&K, &mut V)| *kv.0)),
            forall|i: int|
                0 <= i < r@.len() ==> #[trigger] old(self).contents().contains_key(*r@[i].0) && old(
                    self,
                ).contents()[*r@[i].0] == Some(*r@[i].1),
            forall|k: K| #[trigger]
                old(self).index_map().contains_key(k) ==> exists|i: int| 0 <= i < r@.len() && *r@[i].0 == k,
            final(self).wf(),
            final(self).index_map() == old(self).index_map(),
            final(self).arena().tag() == old(self).arena().tag(),
            final(self).arena().slots().len() == old(self).arena().slots().len(),
            forall|i: int|
                0 <= i < r@.len() ==> #[trigger] final(self).contents()[*r@[i].0] == Some(*final(r@[i].1)),
            forall|s: int|
                0 <= s < old(self).arena().slots().len() && (forall|k: K| #[trigger]
                    old(self).index_map().contains_key(k) ==> old(self).index_map()[k].slot() != s)
                    ==> #[trigger] final(self).arena().slots()[s] == old(self).arena().slots()[s],
    {
        let ghost start = *self;
        let ghost end = *final(self);
        let ghost end_slots = final(self).arena().slots();
        let pairs = btree_pairs(&self.index);
        let mut cells = self.graph.slots_mut();
        let ghost init = cells@;
        let mut out: Vec<(&K, &mut V)> = Vec::new();
        let mut i: usize = 0;
        proof {
            lemma_precedes_strict::<K>();
        }
        while i < pairs.len()
            invariant
                i <= pairs@.len(),
                pairs@.len() == start.index_map().len(),
                obeys_cmp::<K>(),
                forall|a: K| !#[trigger] precedes(a, a),
                ascending(keys_of(pairs@)),
                forall|k: K| #[trigger]
                    start.index_map().contains_key(k) ==> exists|j: int|
                        0 <= j < pairs@.len() && *pairs@[j].0 == k,
                start.wf(),
                start.all_settled(),
                init.len() == start.arena().slots().len(),
                forall|j: int|
                    0 <= j < init.len() ==> (#[trigger] init[j] is Some) == (start.arena().slots()[j] is Some),
                forall|j: int|
                    0 <= j < init.len() && init[j] is Some ==> Some(*#[trigger] init[j]->Some_0)
                        == start.arena().slots()[j],
                end_slots == init.map_values(
                    (|o: Option<&mut V>| match o {
                        Some(x) => Some(*final(x)),
                        None => None,
                    }),
                ),
                cells@.len() == init.len(),
                forall|j: int|
                    0 <= j < pairs@.len() ==> #[trigger] start.index_map().contains_key(*pairs@[j].0)
                        && start.index_map()[*pairs@[j].0] == *pairs@[j].1,
                forall|s: int|
                    0 <= s < cells@.len() ==> #[trigger] cells@[s] == if exists|j: int|
                        0 <= j < i && pairs@[j].1.slot() == s {
                        None
                    } else {
                        init[s]
                    },
                out@.len() == i,
                forall|j: int|
                    #![trigger out@[j]]
                    0 <= j < i ==> out@[j].0 == pairs@[j].0 && init[pairs@[j].1.slot() as int]
                        == Some(out@[j].1),
            decreases pairs@.len() - i,
        {
            let (k, h) = pairs[i];
            proof {
                assert(start.index_map().contains_key(*k));
                assert(start.arena().owns(*h));
                assert(start.settled(*k));
                let s = h.slot() as int;
                assert forall|j: int| 0 <= j < i implies #[trigger] pairs@[j].1.slot() != s by {
                    assert(keys_of(pairs@)[j] == *pairs@[j].0);
                    assert(keys_of(pairs@)[i as int] == *k);
                    assert(precedes(*pairs@[j].0, *k));
                    assert(start.index_map().contains_key(*pairs@[j].0));
                }
                assert(!exists|j: int| 0 <= j < i && pairs@[j].1.slot() == s);
                assert(cells@[s] == init[s]);
            }
            let mut taken: Option<&mut V> = None;
            cells.set_and_swap(h.index(), &mut taken);
            out.push((k, taken.unwrap()));
            i = i + 1;
        }
        proof {
            assert(out@.map_values(|kv: (&K, &mut V)| *kv.0) =~= keys_of(pairs@));
            assert forall|k: K| #[trigger] start.index_map().contains_key(k) implies exists|j: int|
                0 <= j < out@.len() && *out@[j].0 == k by {
                let j = choose|j: int| 0 <= j < pairs@.len() && *pairs@[j].0 == k;
                assert(out@[j].0 == pairs@[j].0);
            }
            assert forall|j: int| 0 <= j < out@.len() implies #[trigger] end.contents()[*out@[j].0]
                == Some(*final(out@[j].1)) by {
                assert(start.index_map().contains_key(*pairs@[j].0));
                assert(start.arena().owns(*pairs@[j].1));
                assert(end.index_map() == start.index_map());
                assert(end.arena().slots() == end_slots);
                assert(end.contents()[*pairs@[j].0] == end_slots[pairs@[j].1.slot() as int]);
            }
            assert(has_resolved(cells));
            assert forall|s: int|
                0 <= s < start.arena().slots().len() && (forall|k: K| #[trigger]
                    start.index_map().contains_key(k) ==> start.index_map()[k].slot() != s) implies #[trigger] end_slots[s]
                == start.arena().slots()[s] by {
                assert forall|j: int| 0 <= j < pairs@.len() implies #[trigger] pairs@[j].1.slot() != s by {
                    assert(start.index_map().contains_key(*pairs@[j].0));
                }
                assert(cells@[s] == init[s]);
                assert(has_resolved(cells@[s]));
            }
        }
        out
    }

    /// Mutable borrows of the values, in ascending order of their keys.
    pub fn values_mut(&mut self) -> (r: Vec<&mut V>)
        where
            K: Ord,
        requires
            obeys_cmp::<K>(),
            old(self).wf(),
            old(self).all_settled(),
        ensures
            r@.len() == old(self).index_map().len(),
            final(self).wf(),
            final(self).index_map() == old(self).index_map(),
            final(self).arena().tag() == old(self).arena().tag(),
            exists|ks: Seq<K>|
                {
                    &&& #[trigger] ascending(ks)
                    &&& ks.len() == r@.len()
                    &&& forall|i: int|
                        0 <= i < r@.len() ==> #[trigger] old(self).contents().contains_key(ks[i])
                            && old(self).contents()[ks[i]] == Some(*r@[i])
                            && final(self).contents()[ks[i]] == Some(*final(r@[i]))
                },
            forall|s: int|
                0 <= s < old(self).arena().slots().len() && (forall|k: K| #[trigger]
                    old(self).index_map().contains_key(k) ==> old(self).index_map()[k].slot() != s)
                    ==> #[trigger] final(self).arena().slots()[s] == old(self).arena().slots()[s],
    {
        let pairs = self.iter_mut();
        let ghost ps = pairs@;
        let mut out: Vec<&mut V> = Vec::new();
        for kv in it: pairs
            invariant
                it.seq() == ps,
                out@.len() == it.index(),
                forall|j: int|
                    0 <= j < it.index() ==> *#[trigger] out@[j] == *ps[j].1 && *final(out@[j])
                        == *final(ps[j].1),
        {
            proof {
                assert(kv == ps[it.index()]);
            }
            let (_k, v) = kv;
            out.push(v);
        }
        proof {
            let ks = ps.map_values(|kv: (&K, &mut V)| *kv.0);

            assert(ascending(ks));
            assert(ks.len() == out@.len());
        }
        out
    }

    /// The keys, in ascending order.
    pub fn keys(&self) -> (r: Vec<&K>)
        where
            K: Ord,
        requires
            obeys_cmp::<K>(),
        ensures
            r@.len() == self.index_map().len(),
            ascending(r@.map_values(|k: &K| *k)),
            forall|i: int| 0 <= i < r@.len() ==> #[trigger] self.index_map().contains_key(*r@[i]),
            forall|k: K| #[trigger]
                self.index_map().contains_key(k) ==> exists|i: int| 0 <= i < r@.len() && *r@[i] == k,
    {
        btree_keys(&self.index)
    }

    /// The handles, in ascending order of their keys.
    pub fn values_ref(&self) -> (r: Vec<&Ref<V>>)
        where
            K: Ord,
        requires
            obeys_cmp::<K>(),
        ensures
            r@.len() == self.index_map().len(),
            exists|ks: Seq<K>|
                {
                    &&& #[trigger] ascending(ks)
                    &&& ks.len() == r@.len()
                    &&& forall|i: int|
                        0 <= i < r@.len() ==> #[trigger] self.index_map().contains_key(ks[i])
                            && self.index_map()[ks[i]] == *r@[i]
                    &&& forall|k: K| #[trigger]
                        self.index_map().contains_key(k) ==> exists|i: int| 0 <= i < ks.len() && ks[i] == k
                },
    {
        btree_values(&self.index)
    }

    /// The values, in ascending order of their keys.
    pub fn values(&self) -> (r: Vec<&V>)
        where
            K: Ord,
        requires
            obeys_cmp::<K>(),
            self.wf(),
            self.all_settled(),
        ensures
            r@.len() == self.contents().len(),
            exists|ks: Seq<K>|
                {
                    &&& #[trigger] ascending(ks)
                    &&& ks.len() == r@.len()
                    &&& forall|i: int|
                        0 <= i < r@.len() ==> #[trigger] self.contents().contains_key(ks[i])
                            && self.contents()[ks[i]] == Some(*r@[i])
                },
    {
        let pairs = self.iter();
        let mut out: Vec<&V> = Vec::new();
        let mut i: usize = 0;
        while i < pairs.len()
            invariant
                i <= pairs@.len(),
                out@.len() == i,
                forall|j: int| 0 <= j < i ==> *#[trigger] out@[j] == *pairs@[j].1,
            decreases pairs@.len() - i,
        {
            out.push(pairs[i].1);
            i = i + 1;
        }
        proof {
            let ks = keys_of(pairs@);
            assert(forall|i: int|
                0 <= i < out@.len() ==> #[trigger] self.contents().contains_key(ks[i])
                    && self.contents()[ks[i]] == Some(*out@[i]));
            assert(ascending(ks));
        }
        out
    }

    /// References by key to every node, in ascending key order.
    pub fn iter_ref_by(&self) -> (r: Vec<RefBy<K, V>>)
        where
            K: Ord + Clone,
        requires
            obeys_cmp::<K>(),
        ensures
            r@.len() == self.index_map().len(),
            exists|ks: Seq<K>|
                {
                    &&& #[trigger] ascending(ks)
                    &&& ks.len() == r@.len()
                    &&& forall|i: int|
                        0 <= i < r@.len() ==> #[trigger] self.index_map().contains_key(ks[i])
                            && cloned(ks[i], r@[i].spec_key()) && r@[i].handle()
                            == self.index_map()[ks[i]]
                },
    {
        let refs = self.iter_ref();
        let mut out: Vec<RefBy<K, V>> = Vec::new();
        let mut i: usize = 0;
        while i < refs.len()
            invariant
                i <= refs@.len(),
                out@.len() == i,
                refs@.len() == self.index_map().len(),
                forall|j: int|
                    0 <= j < i ==> cloned(*refs@[j].0, #[trigger] out@[j].spec_key()) && out@[j].handle()
                        == *refs@[j].1,
            decreases refs@.len() - i,
        {
            let (k, h) = refs[i];
            out.push(RefBy::new(k.clone(), *h));
            i = i + 1;
        }
        proof {
            let ks = keys_of(refs@);
            assert(forall|i: int|
                0 <= i < out@.len() ==> #[trigger] self.index_map().contains_key(ks[i])
                    && cloned(ks[i], out@[i].spec_key()) && out@[i].handle() == self.index_map()[ks[i]]);
            assert(ascending(ks));
        }
        out
    }

    /// Builds a graph by inserting `entries` in order; a later entry
    /// replaces an earlier one with the same key.
    pub fn from_entries(entries: Vec<(K, V)>, gens: &mut Generations) -> (r: Self)
        where
            K: Ord,
        requires
            obeys_cmp::<K>(),
            old(gens).wf(),
        ensures
            r.wf(),
            r.contents() == pairs_map(entries@),
            r.arena().tag() == old(gens).next_tag(),
            final(gens).wf(),
            final(gens).next_tag() == if old(gens).next_tag() < u64::MAX {
                (old(gens).next_tag() + 1) as u64
            } else {
                old(gens).next_tag()
            },
    {
        let mut graph = Self::with_capacity(entries.len(), gens);
        proof {
            assert(graph.contents() =~= pairs_map(entries@.take(0)));
        }
        for kv in it: entries
            invariant
                obeys_cmp::<K>(),
                graph.wf(),
                it.seq() == entries@,
                graph.contents() == pairs_map(it.seq().take(it.index())),
                graph.arena().tag() == old(gens).next_tag(),
        {
            let (k, v) = kv;
            graph.insert(k, v);
            proof {
                assert(it.seq().take(it.index() + 1).drop_last() =~= it.seq().take(it.index()));
            }
        }
        proof {
            assert(entries@.take(entries@.len() as int) =~= entries@);
        }
        graph
    }

    /// The entry of `key`, to read or fill in one step.
    pub fn entry(&mut self, key: K) -> (r: Entry<'_, K, V>)
        ensures
            *r.graph() == *old(self),
            *final(r.graph()) == *final(self),
            r.spec_key() == key,
    {
        Entry { graph: self, key }
    }

    /// Changing what slots hold, and nothing else, keeps the graph well
    /// formed.
    proof fn lemma_wf_same_layout(before: &Self)
        requires
            before.wf(),
        ensures
            forall|after: Self|
                {
                    &&& after.arena().wf()
                    &&& after.index_map() == before.index_map()
                    &&& after.arena().tag() == before.arena().tag()
                    &&& after.arena().slots().len() == before.arena().slots().len()
                } ==> #[trigger] after.wf(),
    {
        assert forall|after: Self|
            {
                &&& after.arena().wf()
                &&& after.index_map() == before.index_map()
                &&& after.arena().tag() == before.arena().tag()
                &&& after.arena().slots().len() == before.arena().slots().len()
            } implies #[trigger] after.wf() by {
            assert forall|k: K| #[trigger] after.index_map().contains_key(k) implies after.arena().owns(
                after.index_map()[k],
            ) by {
                assert(before.arena().owns(before.index_map()[k]));
            }
        }
    }

    /// Removes `key` from the index and clears its slot; returns what the
    /// slot held (`None` also for a node that was promised and not created).
    pub fn remove(&mut self, key: &K) -> (r: Option<V>)
        where
            K: Ord,
        requires
            obeys_cmp::<K>(),
            old(self).wf(),
        ensures
            final(self).wf(),
            final(self).index_map() == old(self).index_map().remove(*key),
            final(self).contents() == old(self).contents().remove(*key),
            final(self).arena().tag() == old(self).arena().tag(),
            r == if old(self).index_map().contains_key(*key) {
                old(self).contents()[*key]
            } else {
                None
            },
            final(self).arena().slots() == if old(self).index_map().contains_key(*key) {
                old(self).arena().slots().update(old(self).index_map()[*key].slot() as int, None)
            } else {
                old(self).arena().slots()
            },
    {
        proof {
            if old(self).index_map().contains_key(*key) {
                assert(old(self).arena().owns(old(self).index_map()[*key]));
            }
        }
        let r = match self.index.remove(key) {
            Some(node) => self.graph.take_slot(node.index()),
            None => None,
        };
        proof {
            let m = self.index_map();
            assert forall|k: K| #[trigger] m.contains_key(k) implies self.arena().owns(m[k]) by {
                assert(old(self).index_map().contains_key(k));
            }
            assert forall|k1: K, k2: K|
                m.contains_key(k1) && m.contains_key(k2) && k1 != k2 implies #[trigger] m[k1].slot()
                != #[trigger] m[k2].slot() by {
                assert(old(self).index_map().contains_key(k1));
                assert(old(self).index_map().contains_key(k2));
            }
            assert forall|k: K| #[trigger] self.contents().contains_key(k) implies self.contents()[k]
                == old(self).contents().remove(*key)[k] by {
                assert(old(self).index_map().contains_key(k));
                if old(self).index_map().contains_key(*key) {
                    assert(old(self).index_map()[k].slot() != old(self).index_map()[*key].slot());
                }
            }
            assert(self.contents() =~= old(self).contents().remove(*key));
        }
        r
    }

    pub fn is_empty(&self) -> (r: bool)
        ensures
            r == (self.index_map().len() == 0),
    {
        self.index.is_empty()
    }

    /// The handle registered under `key`.
    pub fn get_ref(&self, key: &K) -> (r: Option<&Ref<V>>)
        where
            K: Ord,
        requires
            obeys_cmp::<K>(),
        ensures
            match r {
                Some(h) => self.index_map().contains_key(*key) && *h == self.index_map()[*key],
                None => !self.index_map().contains_key(*key),
            },
    {
        self.index.get(key)
    }

    /// The handle registered under `key`, paired with a copy of the key.
    pub fn get_ref_by(&self, key: &K) -> (r: Option<RefBy<K, V>>)
        where
            K: Ord + Clone,
        requires
            obeys_cmp::<K>(),
        ensures
            match r {
                Some(rb) => {
                    &&& self.index_map().contains_key(*key)
                    &&& cloned(*key, rb.spec_key())
                    &&& rb.handle() == self.index_map()[*key]
                },
                None => !self.index_map().contains_key(*key),
            },
    {
        match btree_get_key_value(&self.index, key) {
            Some((k, h)) => Some(RefBy::new(k.clone(), *h)),
            None => None,
        }
    }

    /// The stored key equal to `key` and the handle registered under it.
    pub fn get_entry(&self, key: &K) -> (r: Option<(&K, &Ref<V>)>)
        where
            K: Ord,
        requires
            obeys_cmp::<K>(),
        ensures
            match r {
                Some(kh) => {
                    &&& self.index_map().contains_key(*key)
                    &&& *kh.0 == *key
                    &&& *kh.1 == self.index_map()[*key]
                },
                None => !self.index_map().contains_key(*key),
            },
    {
        btree_get_key_value(&self.index, key)
    }

    /// The value stored under `key`.
    pub fn get(&self, key: &K) -> (r: Option<&V>)
        where
            K: Ord,
        requires
            obeys_cmp::<K>(),
            self.wf(),
            self.settled(*key),
        ensures
            match r {
                Some(v) => self.contents().contains_key(*key) && self.contents()[*key] == Some(*v),
                None => !self.contents().contains_key(*key),
            },
    {
        match self.index.get(key) {
            Some(node) => Some(self.graph.borrow(node)),
            None => None,
        }
    }

    /// The stored key equal to `key` and the value stored under it.
    pub fn get_key_value(&self, key: &K) -> (r: Option<(&K, &V)>)
        where
            K: Ord,
        requires
            obeys_cmp::<K>(),
            self.wf(),
            self.settled(*key),
        ensures
            match r {
                Some(kv) => {
                    &&& self.contents().contains_key(*key)
                    &&& *kv.0 == *key
                    &&& self.contents()[*key] == Some(*kv.1)
                },
                None => !self.contents().contains_key(*key),
            },
    {
        match btree_get_key_value(&self.index, key) {
            Some((k, node)) => Some((k, self.graph.borrow(node))),
            None => None,
        }
    }

    /// Mutably borrows the value stored under `key`.
    pub fn get_mut(&mut self, key: &K) -> (r: Option<&mut V>)
        where
            K: Ord,
        requires
            obeys_cmp::<K>(),
            old(self).wf(),
            old(self).settled(*key),
        ensures
            final(self).wf(),
            final(self).index_map() == old(self).index_map(),
            final(self).arena().tag() == old(self).arena().tag(),
            match r {
                Some(v) => {
                    &&& old(self).contents().contains_key(*key)
                    &&& old(self).contents()[*key] == Some(*v)
                    &&& final(self).arena().slots() == old(self).arena().slots().update(
                        old(self).index_map()[*key].slot() as int,
                        Some(*final(v)),
                    )
                    &&& final(self).contents() == old(self).contents().insert(*key, Some(*final(v)))
                },
                None => {
                    &&& !old(self).contents().contains_key(*key)
                    &&& final(self).arena().slots() == old(self).arena().slots()
                },
            },
    {
        match self.index.get(key) {
            Some(node) => {
                let node = *node;
                proof {
                    Self::lemma_wf_same_layout(self);
                    Self::lemma_contents_after_write(self, *key);
                }
                let v = self.graph.borrow_mut(&node);
                Some(v)
            },
            None => None,
        }
    }

    /// The stored key equal to `key`, and a mutable borrow of its value.
    pub fn get_key_value_mut(&mut self, key: &K) -> (r: Option<(&K, &mut V)>)
        where
            K: Ord,
        requires
            obeys_cmp::<K>(),
            old(self).wf(),
            old(self).settled(*key),
        ensures
            final(self).wf(),
            final(self).index_map() == old(self).index_map(),
            final(self).arena().tag() == old(self).arena().tag(),
            match r {
                Some(kv) => {
                    &&& old(self).contents().contains_key(*key)
                    &&& *kv.0 == *key
                    &&& old(self).contents()[*key] == Some(*kv.1)
                    &&& final(self).arena().slots() == old(self).arena().slots().update(
                        old(self).index_map()[*key].slot() as int,
                        Some(*final(kv.1)),
                    )
                },
                None => {
                    &&& !old(self).contents().contains_key(*key)
                    &&& final(self).arena().slots() == old(self).arena().slots()
                },
            },
    {
        match btree_get_key_value(&self.index, key) {
            Some((k, node)) => {
                proof {
                    Self::lemma_wf_same_layout(self);
                }
                let v = self.graph.borrow_mut(node);
                Some((k, v))
            },
            None => None,
        }
    }

    /// Fills the empty slot of a promised or removed node.
    pub fn create(&mut self, node: &Ref<V>, value: V)
        requires
            old(self).wf(),
            old(self).arena().owns(*node),
            old(self).arena().slots()[node.slot() as int] is None,
        ensures
            final(self).wf(),
            final(self).index_map() == old(self).index_map(),
            final(self).arena().tag() == old(self).arena().tag(),
            final(self).arena().slots() == old(self).arena().slots().update(
                node.slot() as int,
                Some(value),
            ),
    {
        proof {
            Self::lemma_wf_same_layout(self);
        }
        self.graph.create(node, value);
    }

    /// Borrows the value of `node`.
    pub fn borrow(&self, node: &Ref<V>) -> (r: &V)
        requires
            self.arena().occupied(*node),
        ensures
            *r == self.arena().value_at(*node),
    {
        self.graph.borrow(node)
    }

    /// Mutably borrows the value of `node`.
    pub fn borrow_mut(&mut self, node: &Ref<V>) -> (r: &mut V)
        requires
            old(self).wf(),
            old(self).arena().occupied(*node),
        ensures
            *r == old(self).arena().value_at(*node),
            final(self).wf(),
            final(self).index_map() == old(self).index_map(),
            final(self).arena().tag() == old(self).arena().tag(),
            final(self).arena().slots() == old(self).arena().slots().update(
                node.slot() as int,
                Some(*final(r)),
            ),
    {
        proof {
            Self::lemma_wf_same_layout(self);
        }
        self.graph.borrow_mut(node)
    }

    /// Mutably borrows the values of several distinct nodes at once, as
    /// linking them to each other needs; the borrows come in the order of
    /// `nodes`.
    pub fn borrow_many_mut(&mut self, nodes: &[Ref<V>]) -> (r: Vec<&mut V>)
        requires
            old(self).wf(),
            forall|i: int| 0 <= i < nodes@.len() ==> old(self).arena().occupied(#[trigger] nodes@[i]),
            forall|i: int, j: int|
                0 <= i < j < nodes@.len() ==> (#[trigger] nodes@[i]).slot() != (#[trigger] nodes@[j]).slot(),
        ensures
            r@.len() == nodes@.len(),
            forall|i: int|
                0 <= i < r@.len() ==> *(#[trigger] r@[i]) == old(self).arena().value_at(nodes@[i]),
            forall|i: int|
                0 <= i < r@.len() ==> final(self).arena().slots()[nodes@[i].slot() as int] == Some(
                    *final(#[trigger] r@[i]),
                ),
            forall|s: int|
                0 <= s < old(self).arena().slots().len() && (forall|i: int|
                    0 <= i < nodes@.len() ==> (#[trigger] nodes@[i]).slot() != s)
                    ==> #[trigger] final(self).arena().slots()[s] == old(self).arena().slots()[s],
            final(self).wf(),
            final(self).index_map() == old(self).index_map(),
            final(self).arena().tag() == old(self).arena().tag(),
    {
        proof {
            Self::lemma_wf_same_layout(self);
        }
        self.graph.borrow_many_mut(nodes)
    }

    /// Writing the slot of `key`'s node changes what `key` holds and
    /// nothing else.
    proof fn lemma_contents_after_write(before: &Self, key: K)
        requires
            before.wf(),
            before.index_map().contains_key(key),
        ensures
            forall|after: Self, value: Option<V>|
                #![trigger after.contents(), before.contents().insert(key, value)]
                after.index_map() == before.index_map() && after.arena().slots()
                    == before.arena().slots().update(before.index_map()[key].slot() as int, value)
                    ==> after.contents() == before.contents().insert(key, value),
    {
        assert forall|after: Self, value: Option<V>|
            after.index_map() == before.index_map() && after.arena().slots()
                == before.arena().slots().update(
                before.index_map()[key].slot() as int,
                value,
            ) implies after.contents() == before.contents().insert(key, value) by {
            assert forall|k: K| #[trigger] after.contents().contains_key(k) implies after.contents()[k]
                == before.contents().insert(key, value)[k] by {
                if k != key {
                    assert(before.index_map()[k].slot() != before.index_map()[key].slot());
                }
                assert(before.arena().owns(before.index_map()[key]));
            }
            assert(after.contents() =~= before.contents().insert(key, value));
        }
    }

    proof fn lemma_contents_after_register(&self, before: &Self, key: K, node: Ref<V>)
        requires
            before.wf(),
            self.wf(),
            node.slot() == before.arena().slots().len(),
            self.index_map() == before.index_map().insert(key, node),
            self.arena().slots().len() == before.arena().slots().len() + 1,
            forall|i: int|
                0 <= i < before.arena().slots().len() && (!before.index_map().contains_key(key)
                    || i != before.index_map()[key].slot()) ==> #[trigger] self.arena().slots()[i]
                    == before.arena().slots()[i],
        ensures
            self.contents() == before.contents().insert(
                key,
                self.arena().slots()[node.slot() as int],
            ),
    {
        assert forall|k: K| #[trigger] self.contents().contains_key(k) implies self.contents()[k]
            == before.contents().insert(key, self.arena().slots()[node.slot() as int])[k] by {
            if k != key {
                assert(before.index_map().contains_key(k));
                if before.index_map().contains_key(key) {
                    assert(before.index_map()[k].slot() != before.index_map()[key].slot());
                }
            }
        }
        assert(self.contents() =~= before.contents().insert(
            key,
            self.arena().slots()[node.slot() as int],
        ));
    }
}

impl<K: Ord, V> IndexBy<K, V> for BTreeGraph<K, V> {
    open spec fn index_view(&self) -> Map<K, Ref<V>> {
        self.index_map()
    }

    open spec fn lookups_exact(&self) -> bool {
        obeys_cmp::<K>()
    }

    fn get(&self, key: &K) -> (r: Option<&Ref<V>>) {
        self.index.get(key)
    }
}

impl<'a, K, V> Entry<'a, K, V> {
    pub closed spec fn graph(self) -> &'a mut BTreeGraph<K, V> {
        self.graph
    }

    pub closed spec fn spec_key(self) -> K {
        self.key
    }

    /// The value under the key, after storing `default()` there if the key
    /// held nothing.
    pub fn or_insert_with<F: FnOnce() -> V>(self, default: F) -> (r: &'a mut V)
        where
            K: Ord,
        requires
            obeys_cmp::<K>(),
            self.graph().wf(),
            self.graph().settled(self.spec_key()),
            !self.graph().contents().contains_key(self.spec_key()) ==> default.requires(()),
        ensures
            final(self.graph()).wf(),
            final(self.graph()).contents() == self.graph().contents().insert(
                self.spec_key(),
                Some(*final(r)),
            ),
            self.graph().contents().contains_key(self.spec_key()) ==> Some(*r)
                == self.graph().contents()[self.spec_key()],
            !self.graph().contents().contains_key(self.spec_key()) ==> default.ensures((), *r),
            final(self.graph()).arena().tag() == self.graph().arena().tag(),
            self.graph().index_map().contains_key(self.spec_key()) ==> {
                &&& final(self.graph()).index_map() == self.graph().index_map()
                &&& final(self.graph()).arena().slots() == self.graph().arena().slots().update(
                    self.graph().index_map()[self.spec_key()].slot() as int,
                    Some(*final(r)),
                )
            },
            !self.graph().index_map().contains_key(self.spec_key()) ==> {
                &&& final(self.graph()).index_map().contains_key(self.spec_key())
                &&& final(self.graph()).index_map() == self.graph().index_map().insert(
                    self.spec_key(),
                    final(self.graph()).index_map()[self.spec_key()],
                )
                &&& final(self.graph()).index_map()[self.spec_key()].slot()
                    == self.graph().arena().slots().len()
                &&& final(self.graph()).index_map()[self.spec_key()].tag()
                    == self.graph().arena().tag()
                &&& final(self.graph()).arena().slots() == self.graph().arena().slots().push(
                    Some(*final(r)),
                )
            },
    {
        let graph = self.graph;
        let key = self.key;
        if graph.index.contains_key(&key) {
            graph.get_mut(&key).unwrap()
        } else {
            let value = default();
            let node = graph.insert(key, value);
            graph.borrow_mut(&node)
        }
    }
}

} // verus!
