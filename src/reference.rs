use std::marker::PhantomData;

use vstd::prelude::*;
use vstd::std_specs::cmp::{PartialEqSpec, PartialOrdSpec};

use crate::gen::Gen;
use crate::index::IndexBy;

verus! {

/// A handle to a node of a `Graph`: the node's slot together with the tag
/// of the graph that issued it. A handle owns nothing and is freely copied.
#[derive(Debug)]
pub struct Ref<T> {
    index: usize,
    gen: Gen,
    marker: PhantomData<T>,
}

impl<T> Ref<T> {
    /// The slot of the graph this handle points at.
    pub closed spec fn slot(self) -> nat {
        self.index as nat
    }

    /// The tag of the graph that issued this handle (zero when dangling).
    pub closed spec fn tag(self) -> u64 {
        self.gen@
    }

    pub(crate) fn new(index: usize, gen: Gen) -> (r: Ref<T>)
        ensures
            r.slot() == index,
            r.tag() == gen@,
    {
        Ref { index, gen, marker: PhantomData }
    }

    pub(crate) fn index(&self) -> (r: usize)
        ensures
            r == self.slot(),
    {
        self.index
    }

    pub(crate) fn gen(&self) -> (r: Gen)
        ensures
            r@ == self.tag(),
    {
        self.gen
    }

    /// A handle that belongs to no graph: every graph rejects it.
    pub fn dangling() -> (r: Ref<T>)
        ensures
            r.tag() == 0,
    {
        Ref { index: 0, gen: Gen::invalid(), marker: PhantomData }
    }

    pub fn is_invalid(&self) -> (r: bool)
        ensures
            r == (self.tag() == 0),
    {
        self.gen.is_invalid()
    }
}

impl<T> Clone for Ref<T> {
    fn clone(&self) -> (r: Ref<T>)
        ensures
            r == *self,
    {
        *self
    }
}

impl<T> Copy for Ref<T> {
}

/// Two handles are equal when they point at the same slot of the same live
/// graph; dangling handles equal nothing.
impl<T> PartialEq for Ref<T> {
    fn eq(&self, other: &Ref<T>) -> (r: bool)
        ensures
            r == (self.tag() != 0 && self.tag() == other.tag() && self.slot() == other.slot()),
    {
        self.gen == other.gen && self.index == other.index
    }
}

impl<T> vstd::std_specs::cmp::PartialEqSpecImpl for Ref<T> {
    open spec fn obeys_eq_spec() -> bool {
        true
    }

    open spec fn eq_spec(&self, other: &Ref<T>) -> bool {
        self.tag() != 0 && self.tag() == other.tag() && self.slot() == other.slot()
    }
}

/// A handle paired with the key it was looked up by. It is serialized as the
/// key alone; after deserialization the handle is dangling until `resolve`
/// looks the key up again.
#[derive(Debug)]
pub struct RefBy<K, V> {
    key: K,
    value: Ref<V>,
}

/// A key with a handle that may be absent: an edge that is allowed to point
/// nowhere. Deserialization leaves the handle absent until `resolve`.
#[derive(Debug)]
pub struct OptRefBy<K, V> {
    key: K,
    value: Option<Ref<V>>,
}

impl<K, V> RefBy<K, V> {
    pub closed spec fn spec_key(self) -> K {
        self.key
    }

    pub closed spec fn handle(self) -> Ref<V> {
        self.value
    }

    pub fn new(key: K, value: Ref<V>) -> (r: Self)
        ensures
            r.spec_key() == key,
            r.handle() == value,
    {
        RefBy { key, value }
    }

    /// A reference by `key` whose handle belongs to no graph, as produced by
    /// deserialization.
    pub fn dangling(key: K) -> (r: Self)
        ensures
            r.spec_key() == key,
            r.handle().tag() == 0,
    {
        RefBy::new(key, Ref::dangling())
    }

    pub fn key(&self) -> (r: &K)
        ensures
            *r == self.spec_key(),
    {
        &self.key
    }

    pub fn value_ref(&self) -> (r: &Ref<V>)
        ensures
            *r == self.handle(),
    {
        &self.value
    }

    pub fn pair(&self) -> (r: (&K, &Ref<V>))
        ensures
            *r.0 == self.spec_key(),
            *r.1 == self.handle(),
    {
        (&self.key, &self.value)
    }

    /// Looks the key up in `index`. When it is found the handle is replaced
    /// by the one found; when it is not, nothing changes and a copy of the
    /// key is returned as the error.
    pub fn resolve<I: IndexBy<K, V>>(&mut self, index: &I) -> (r: Result<(), K>)
        where
            K: Clone,
        requires
            index.lookups_exact(),
        ensures
            final(self).spec_key() == old(self).spec_key(),
            match r {
                Ok(()) => {
                    &&& index.index_view().contains_key(old(self).spec_key())
                    &&& final(self).handle() == index.index_view()[old(self).spec_key()]
                },
                Err(k) => {
                    &&& !index.index_view().contains_key(old(self).spec_key())
                    &&& *final(self) == *old(self)
                    &&& cloned(old(self).spec_key(), k)
                },
            },
    {
        match index.get(&self.key) {
            Some(v) => {
                self.value = *v;
                Ok(())
            },
            None => Err(self.key.clone()),
        }
    }
}

impl<K: Clone, V> Clone for RefBy<K, V> {
    fn clone(&self) -> (r: Self)
        ensures
            cloned(self.spec_key(), r.spec_key()),
            r.handle() == self.handle(),
    {
        RefBy { key: self.key.clone(), value: self.value }
    }
}

impl<K: PartialEq, V> PartialEq for RefBy<K, V> {
    /// Compares the keys only.
    fn eq(&self, other: &Self) -> (r: bool)
        ensures
            <K as PartialEqSpec>::obeys_eq_spec() ==> r == self.spec_key().eq_spec(&other.spec_key()),
    {
        self.key == other.key
    }
}

impl<K: PartialEq, V> vstd::std_specs::cmp::PartialEqSpecImpl for RefBy<K, V> {
    open spec fn obeys_eq_spec() -> bool {
        <K as PartialEqSpec>::obeys_eq_spec()
    }

    open spec fn eq_spec(&self, other: &Self) -> bool {
        self.spec_key().eq_spec(&other.spec_key())
    }
}

impl<K: Eq, V> Eq for RefBy<K, V> {
}

impl<K: PartialOrd, V> PartialOrd for RefBy<K, V> {
    /// Orders by the keys only.
    fn partial_cmp(&self, other: &Self) -> (r: Option<std::cmp::Ordering>)
        ensures
            <K as PartialOrdSpec>::obeys_partial_cmp_spec() ==> r == self.spec_key().partial_cmp_spec(
                &other.spec_key(),
            ),
    {
        self.key.partial_cmp(&other.key)
    }
}

impl<K: PartialOrd, V> vstd::std_specs::cmp::PartialOrdSpecImpl for RefBy<K, V> {
    open spec fn obeys_partial_cmp_spec() -> bool {
        <K as PartialOrdSpec>::obeys_partial_cmp_spec()
    }

    open spec fn partial_cmp_spec(&self, other: &Self) -> Option<std::cmp::Ordering> {
        self.spec_key().partial_cmp_spec(&other.spec_key())
    }
}

impl<K, V> OptRefBy<K, V> {
    pub closed spec fn spec_key(self) -> K {
        self.key
    }

    pub closed spec fn handle(self) -> Option<Ref<V>> {
        self.value
    }

    pub fn new(key: K, value: Option<Ref<V>>) -> (r: Self)
        ensures
            r.spec_key() == key,
            r.handle() == value,
    {
        OptRefBy { key, value }
    }

    /// A reference by `key` holding a handle that belongs to no graph.
    pub fn dangling(key: K) -> (r: Self)
        ensures
            r.spec_key() == key,
            r.handle() is Some,
            r.handle()->Some_0.tag() == 0,
    {
        OptRefBy { key, value: Some(Ref::dangling()) }
    }

    pub fn key(&self) -> (r: &K)
        ensures
            *r == self.spec_key(),
    {
        &self.key
    }

    pub fn value_ref(&self) -> (r: Option<&Ref<V>>)
        ensures
            r is Some <==> self.handle() is Some,
            r is Some ==> *r->Some_0 == self.handle()->Some_0,
    {
        self.value.as_ref()
    }

    /// Looks the key up in `index`: the handle becomes the one found, or
    /// absent when the key is not there.
    pub fn resolve<I: IndexBy<K, V>>(&mut self, index: &I)
        requires
            index.lookups_exact(),
        ensures
            final(self).spec_key() == old(self).spec_key(),
            final(self).handle() == index.index_view().get(old(self).spec_key()),
    {
        self.value = match index.get(&self.key) {
            Some(v) => Some(*v),
            None => None,
        };
    }
}

impl<K: Clone, V> Clone for OptRefBy<K, V> {
    fn clone(&self) -> (r: Self)
        ensures
            cloned(self.spec_key(), r.spec_key()),
            r.handle() == self.handle(),
    {
        OptRefBy { key: self.key.clone(), value: self.value }
    }
}

/// Resolving a reference whose key the index holds, and then resolving the
/// result again against the same index, lands on the same handle.
pub proof fn lemma_resolve_idempotent<K, V>(
    index: Map<K, Ref<V>>,
    start: RefBy<K, V>,
    once: RefBy<K, V>,
    twice: RefBy<K, V>,
)
    requires
        index.contains_key(start.spec_key()),
        once.spec_key() == start.spec_key(),
        once.handle() == index[start.spec_key()],
        twice.spec_key() == once.spec_key(),
        twice.handle() == index[once.spec_key()],
    ensures
        twice == once,
{
    assert(twice.spec_key() == once.spec_key() && twice.handle() == once.handle());
}

} // verus!
