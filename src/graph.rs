use vstd::prelude::*;

use crate::gen::{Gen, Generations};
use crate::reference::Ref;

verus! {

/// Append-only slot storage. Each slot holds a node or is empty (promised
/// and not yet created, or removed); a slot is never moved or reused, so a
/// handle keeps pointing at the same logical node for the graph's lifetime.
pub struct Graph<T> {
    nodes: Vec<Option<T>>,
    gen: Gen,
}

impl<T> Graph<T> {
    /// The contents of the slots, in the order they were allocated.
    pub closed spec fn slots(&self) -> Seq<Option<T>> {
        self.nodes@
    }

    /// The tag stamped into every handle this graph issues.
    pub closed spec fn tag(&self) -> u64 {
        self.gen@
    }

    pub open spec fn wf(&self) -> bool {
        self.tag() != 0
    }

    /// `node` was issued by this graph.
    pub open spec fn owns(&self, node: Ref<T>) -> bool {
        &&& self.tag() != 0
        &&& node.tag() == self.tag()
        &&& node.slot() < self.slots().len()
    }

    /// `node` was issued by this graph and its slot holds a value.
    pub open spec fn occupied(&self, node: Ref<T>) -> bool {
        self.owns(node) && self.slots()[node.slot() as int] is Some
    }

    /// The value in the slot of `node`.
    pub open spec fn value_at(&self, node: Ref<T>) -> T {
        self.slots()[node.slot() as int]->Some_0
    }

    /// Creates an empty graph, with a fresh tag taken from `gens`.
    pub fn new(gens: &mut Generations) -> (r: Self)
        requires
            old(gens).wf(),
        ensures
            r.wf(),
            r.slots() == Seq::<Option<T>>::empty(),
            r.tag() == old(gens).next_tag(),
            final(gens).wf(),
            final(gens).next_tag() == if old(gens).next_tag() < u64::MAX {
                (old(gens).next_tag() + 1) as u64
            } else {
                old(gens).next_tag()
            },
    {
        Graph { nodes: Vec::new(), gen: Gen::new(gens) }
    }

    /// Creates an empty graph with room for `n` nodes.
    pub fn with_capacity(n: usize, gens: &mut Generations) -> (r: Self)
        requires
            old(gens).wf(),
        ensures
            r.wf(),
            r.slots() == Seq::<Option<T>>::empty(),
            r.tag() == old(gens).next_tag(),
            final(gens).wf(),
            final(gens).next_tag() == if old(gens).next_tag() < u64::MAX {
                (old(gens).next_tag() + 1) as u64
            } else {
                old(gens).next_tag()
            },
    {
        Graph { nodes: Vec::with_capacity(n), gen: Gen::new(gens) }
    }

    /// Builds a graph holding `values`, in order, one slot each.
    pub fn from_values(values: Vec<T>, gens: &mut Generations) -> (r: Self)
        requires
            old(gens).wf(),
        ensures
            r.wf(),
            r.slots() == values@.map_values(|v: T| Some(v)),
            r.tag() == old(gens).next_tag(),
            final(gens).wf(),
            final(gens).next_tag() == if old(gens).next_tag() < u64::MAX {
                (old(gens).next_tag() + 1) as u64
            } else {
                old(gens).next_tag()
            },
    {
        let mut graph = Graph::with_capacity(values.len(), gens);
        let ghost vs = values@;
        for v in it: values
            invariant
                graph.wf(),
                it.seq() == vs,
                graph.tag() == old(gens).next_tag(),
                graph.slots() == vs.take(it.index()).map_values(|v: T| Some(v)),
        {
            graph.insert(v);
            proof {
                assert(vs.take(it.index() + 1).map_values(|v: T| Some(v)) =~= vs.take(
                    it.index(),
                ).map_values(|v: T| Some(v)).push(Some(vs[it.index()])));
            }
        }
        proof {
            assert(vs.take(vs.len() as int) =~= vs);
        }
        graph
    }

    pub(crate) fn gen(&self) -> (r: Gen)
        ensures
            r@ == self.tag(),
    {
        self.gen
    }

    pub fn len(&self) -> (r: usize)
        ensures
            r == self.slots().len(),
    {
        self.nodes.len()
    }

    /// Inserts a node into a new slot and returns its handle.
    pub fn insert(&mut self, value: T) -> (r: Ref<T>)
        requires
            old(self).wf(),
        ensures
            final(self).wf(),
            final(self).tag() == old(self).tag(),
            final(self).slots() == old(self).slots().push(Some(value)),
            r.tag() == old(self).tag(),
            r.slot() == old(self).slots().len(),
    {
        let index = self.nodes.len();
        self.nodes.push(Some(value));
        Ref::new(index, self.gen)
    }

    /// Reserves an empty slot and returns its handle, so that other nodes
    /// can refer to it before its value exists.
    pub fn promise(&mut self) -> (r: Ref<T>)
        requires
            old(self).wf(),
        ensures
            final(self).wf(),
            final(self).tag() == old(self).tag(),
            final(self).slots() == old(self).slots().push(None),
            r.tag() == old(self).tag(),
            r.slot() == old(self).slots().len(),
    {
        let index = self.nodes.len();
        self.nodes.push(None);
        Ref::new(index, self.gen)
    }

    /// Fills the empty slot of a promised or removed node.
    pub fn create(&mut self, node: &Ref<T>, value: T)
        requires
            old(self).owns(*node),
            old(self).slots()[node.slot() as int] is None,
        ensures
            final(self).wf(),
            final(self).tag() == old(self).tag(),
            final(self).slots() == old(self).slots().update(node.slot() as int, Some(value)),
    {
        let i = node.index();
        self.nodes.set(i, Some(value));
    }

    /// Fills the slot of `node` when this graph issued it and the slot is
    /// empty; otherwise changes nothing and hands `value` back.
    pub fn try_create(&mut self, node: &Ref<T>, value: T) -> (r: Result<(), T>)
        requires
            old(self).wf(),
        ensures
            final(self).wf(),
            final(self).tag() == old(self).tag(),
            match r {
                Ok(()) => {
                    &&& old(self).owns(*node)
                    &&& old(self).slots()[node.slot() as int] is None
                    &&& final(self).slots() == old(self).slots().update(
                        node.slot() as int,
                        Some(value),
                    )
                },
                Err(v) => {
                    &&& !(old(self).owns(*node) && old(self).slots()[node.slot() as int] is None)
                    &&& v == value
                    &&& final(self).slots() == old(self).slots()
                },
            },
    {
        if self.gen == node.gen() && node.index() < self.nodes.len() && self.nodes[node.index()].is_none() {
            self.create(node, value);
            Ok(())
        } else {
            Err(value)
        }
    }

    /// Empties the slot of `node` and returns the value it held.
    pub fn remove(&mut self, node: Ref<T>) -> (r: T)
        requires
            old(self).occupied(node),
        ensures
            final(self).wf(),
            final(self).tag() == old(self).tag(),
            final(self).slots() == old(self).slots().update(node.slot() as int, None),
            r == old(self).value_at(node),
    {
        let i = node.index();
        self.take_slot(i).unwrap()
    }

    /// Empties slot `i` and returns what it held.
    pub(crate) fn take_slot(&mut self, i: usize) -> (r: Option<T>)
        requires
            old(self).wf(),
            i < old(self).slots().len(),
        ensures
            final(self).wf(),
            final(self).tag() == old(self).tag(),
            final(self).slots() == old(self).slots().update(i as int, None),
            r == old(self).slots()[i as int],
    {
        let mut out: Option<T> = None;
        self.nodes.set_and_swap(i, &mut out);
        out
    }

    /// Borrows the value of `node`.
    pub fn borrow(&self, node: &Ref<T>) -> (r: &T)
        requires
            self.occupied(*node),
        ensures
            *r == self.value_at(*node),
    {
        self.nodes[node.index()].as_ref().unwrap()
    }

    /// Borrows the value of `node` if this graph issued it and its slot holds
    /// a value; `None` otherwise.
    pub fn try_borrow(&self, node: &Ref<T>) -> (r: Option<&T>)
        ensures
            r is Some <==> self.occupied(*node),
            r is Some ==> *r->Some_0 == self.value_at(*node),
    {
        if self.gen == node.gen() && node.index() < self.nodes.len() {
            self.nodes[node.index()].as_ref()
        } else {
            None
        }
    }

    /// Mutably borrows the value of `node`.
    pub fn borrow_mut(&mut self, node: &Ref<T>) -> (r: &mut T)
        requires
            old(self).occupied(*node),
        ensures
            *r == old(self).value_at(*node),
            final(self).wf(),
            final(self).tag() == old(self).tag(),
            final(self).slots() == old(self).slots().update(node.slot() as int, Some(*final(r))),
    {
        let i = node.index();
        self.nodes[i].as_mut().unwrap()
    }

    /// Mutable borrows of every value, in slot order.
    pub fn iter_mut(&mut self) -> (r: Vec<&mut T>)
        requires
            old(self).wf(),
        ensures
            r@.len() == present(old(self).slots()).len(),
            forall|i: int| 0 <= i < r@.len() ==> *r@[i] == present(old(self).slots())[i],
            final(self).wf(),
            final(self).tag() == old(self).tag(),
            final(self).slots() == refill(old(self).slots(), r@.map_values(|x: &mut T| *final(x))),
    {
        let ghost slots = self.slots();
        let ghost n = slots.len();
        let ghost end_slots = final(self).slots();
        let mut out: Vec<&mut T> = Vec::new();
        let mut rest: &mut [Option<T>] = self.nodes.as_mut_slice();
        while rest.len() > 0
            invariant
                n == slots.len(),
                rest@.len() <= n,
                rest@ == slots.subrange(n - rest@.len(), n as int),
                out@.len() == present(slots.take(n - rest@.len())).len(),
                forall|j: int|
                    0 <= j < out@.len() ==> *out@[j] == present(slots.take(n - rest@.len()))[j],
                end_slots == refill(
                    slots.take(n - rest@.len()),
                    out@.map_values(|x: &mut T| *final(x)),
                ) + final(rest)@,
            decreases rest@.len(),
        {
            let ghost i = n - rest@.len();
            let ghost finals_before = out@.map_values(|x: &mut T| *final(x));
            let (head, tail) = rest.split_at_mut(1);
            proof {
                lemma_present_push(slots.take(i), slots[i]);
                assert(slots.take(i + 1) =~= slots.take(i).push(slots[i]));
            }
            match head[0].as_mut() {
                Some(v) => {
                    out.push(v);
                    proof {
                        let finals = out@.map_values(|x: &mut T| *final(x));
                        lemma_refill_push(slots.take(i), slots[i], finals);
                        assert(finals.take(present(slots.take(i)).len() as int) =~= finals_before);
                    }
                },
                None => {
                    proof {
                        lemma_refill_push(slots.take(i), slots[i], finals_before);
                        assert(finals_before.take(present(slots.take(i)).len() as int) =~= finals_before);
                    }
                },
            }
            rest = tail;
        }
        proof {
            assert(slots.take(n as int) =~= slots);
        }
        out
    }

    /// The values of the occupied slots, in slot order, consuming the graph.
    pub fn into_values(self) -> (r: Vec<T>)
        ensures
            r@ == present(self.slots()),
    {
        let ghost slots = self.slots();
        let mut out: Vec<T> = Vec::new();
        for slot in it: self.nodes
            invariant
                it.seq() == slots,
                out@ == present(slots.take(it.index())),
        {
            proof {
                lemma_present_push(slots.take(it.index()), slot);
                assert(slots.take(it.index() + 1) =~= slots.take(it.index()).push(slot));
            }
            match slot {
                Some(v) => out.push(v),
                None => {},
            }
        }
        proof {
            assert(slots.take(slots.len() as int) =~= slots);
        }
        out
    }

    /// A mutable borrow of each slot's value, by slot; `None` for an empty
    /// slot.
    pub(crate) fn slots_mut(&mut self) -> (r: Vec<Option<&mut T>>)
        requires
            old(self).wf(),
        ensures
            r@.len() == old(self).slots().len(),
            forall|j: int|
                0 <= j < r@.len() ==> (#[trigger] r@[j] is Some) == (old(self).slots()[j] is Some),
            forall|j: int|
                0 <= j < r@.len() && r@[j] is Some ==> Some(*#[trigger] r@[j]->Some_0)
                    == old(self).slots()[j],
            final(self).wf(),
            final(self).tag() == old(self).tag(),
            final(self).slots() == r@.map_values((|o: Option<&mut T>| match o {
            Some(x) => Some(*final(x)),
            None => None,
        })),
    {
        let ghost slots = self.slots();
        let ghost n = slots.len();
        let ghost end_slots = final(self).slots();
        let mut out: Vec<Option<&mut T>> = Vec::new();
        let mut rest: &mut [Option<T>] = self.nodes.as_mut_slice();
        while rest.len() > 0
            invariant
                n == slots.len(),
                rest@.len() <= n,
                rest@ == slots.subrange(n - rest@.len(), n as int),
                out@.len() == n - rest@.len(),
                forall|j: int|
                    0 <= j < out@.len() ==> (#[trigger] out@[j] is Some) == (slots[j] is Some),
                forall|j: int|
                    0 <= j < out@.len() && out@[j] is Some ==> Some(*#[trigger] out@[j]->Some_0)
                        == slots[j],
                end_slots == out@.map_values((|o: Option<&mut T>| match o {
            Some(x) => Some(*final(x)),
            None => None,
        })) + final(rest)@,
            decreases rest@.len(),
        {
            let ghost before = out@;
            let (head, tail) = rest.split_at_mut(1);
            out.push(head[0].as_mut());
            proof {
                let last = out@[out@.len() - 1];
                assert(out@.map_values((|o: Option<&mut T>| match o {
            Some(x) => Some(*final(x)),
            None => None,
        })) =~= before.map_values((|o: Option<&mut T>| match o {
            Some(x) => Some(*final(x)),
            None => None,
        })).push(
                    match last {
                        Some(x) => Some(*final(x)),
                        None => None,
                    },
                ));
            }
            rest = tail;
        }
        out
    }

    /// Mutably borrows the values of several distinct nodes at once, as
    /// linking them to each other needs; the borrows come in the order of
    /// `nodes`.
    pub fn borrow_many_mut(&mut self, nodes: &[Ref<T>]) -> (r: Vec<&mut T>)
        requires
            old(self).wf(),
            forall|i: int| 0 <= i < nodes@.len() ==> old(self).occupied(#[trigger] nodes@[i]),
            forall|i: int, j: int|
                0 <= i < j < nodes@.len() ==> (#[trigger] nodes@[i]).slot() != (#[trigger] nodes@[j]).slot(),
        ensures
            r@.len() == nodes@.len(),
            forall|i: int| 0 <= i < r@.len() ==> *(#[trigger] r@[i]) == old(self).value_at(nodes@[i]),
            forall|i: int|
                0 <= i < r@.len() ==> final(self).slots()[nodes@[i].slot() as int] == Some(
                    *final(#[trigger] r@[i]),
                ),
            forall|s: int|
                0 <= s < old(self).slots().len() && (forall|i: int|
                    0 <= i < nodes@.len() ==> (#[trigger] nodes@[i]).slot() != s)
                    ==> #[trigger] final(self).slots()[s] == old(self).slots()[s],
            final(self).wf(),
            final(self).tag() == old(self).tag(),
            final(self).slots().len() == old(self).slots().len(),
    {
        let ghost start = *self;
        let ghost end = *final(self);
        let mut cells = self.slots_mut();
        let ghost init = cells@;
        let mut out: Vec<&mut T> = Vec::new();
        let mut i: usize = 0;
        while i < nodes.len()
            invariant
                i <= nodes@.len(),
                forall|p: int| 0 <= p < nodes@.len() ==> start.occupied(#[trigger] nodes@[p]),
                forall|p: int, q: int|
                    0 <= p < q < nodes@.len() ==> (#[trigger] nodes@[p]).slot() != (#[trigger] nodes@[q]).slot(),
                init.len() == start.slots().len(),
                forall|j: int|
                    0 <= j < init.len() ==> (#[trigger] init[j] is Some) == (start.slots()[j] is Some),
                forall|j: int|
                    0 <= j < init.len() && init[j] is Some ==> Some(*#[trigger] init[j]->Some_0)
                        == start.slots()[j],
                end.slots() == init.map_values(
                    (|o: Option<&mut T>| match o {
                        Some(x) => Some(*final(x)),
                        None => None,
                    }),
                ),
                cells@.len() == init.len(),
                forall|s: int|
                    0 <= s < cells@.len() ==> #[trigger] cells@[s] == if exists|j: int|
                        0 <= j < i && nodes@[j].slot() == s {
                        None
                    } else {
                        init[s]
                    },
                out@.len() == i,
                forall|j: int|
                    #![trigger out@[j]]
                    0 <= j < i ==> init[nodes@[j].slot() as int] == Some(out@[j]),
            decreases nodes@.len() - i,
        {
            let node = nodes[i];
            proof {
                let s = node.slot() as int;
                assert(start.occupied(nodes@[i as int]));
                assert forall|j: int| 0 <= j < i implies #[trigger] nodes@[j].slot() != s by {
                    assert(nodes@[j].slot() != nodes@[i as int].slot());
                }
                assert(cells@[s] == init[s]);
            }
            let mut taken: Option<&mut T> = None;
            cells.set_and_swap(node.index(), &mut taken);
            out.push(taken.unwrap());
            i = i + 1;
        }
        proof {
            assert(end.wf());
            assert(has_resolved(cells));
            assert forall|s: int|
                0 <= s < start.slots().len() && (forall|j: int|
                    0 <= j < nodes@.len() ==> (#[trigger] nodes@[j]).slot() != s) implies #[trigger] end.slots()[s]
                == start.slots()[s] by {
                assert(cells@[s] == init[s]);
                assert(has_resolved(cells@[s]));
            }
        }
        out
    }
}

/// The values of the occupied slots, in slot order.
pub open spec fn present<T>(slots: Seq<Option<T>>) -> Seq<T>
    decreases slots.len(),
{
    if slots.len() == 0 {
        Seq::empty()
    } else {
        let rest = present(slots.drop_first());
        match slots[0] {
            Some(v) => seq![v] + rest,
            None => rest,
        }
    }
}

proof fn lemma_present_push<T>(slots: Seq<Option<T>>, x: Option<T>)
    ensures
        present(slots.push(x)) == match x {
            Some(v) => present(slots).push(v),
            None => present(slots),
        },
    decreases slots.len(),
{
    if slots.len() == 0 {
        assert(slots.push(x).drop_first() =~= Seq::<Option<T>>::empty());
        assert(present(slots.push(x).drop_first()) =~= Seq::<T>::empty());
        match x {
            Some(v) => assert(present(slots.push(x)) =~= present(slots).push(v)),
            None => assert(present(slots.push(x)) =~= present(slots)),
        }
    } else {
        assert(slots.push(x).drop_first() =~= slots.drop_first().push(x));
        lemma_present_push(slots.drop_first(), x);
        match x {
            Some(v) => match slots[0] {
                Some(w) => assert(present(slots.push(x)) =~= present(slots).push(v)),
                None => {},
            },
            None => {},
        }
    }
}

proof fn lemma_refill_push<T>(slots: Seq<Option<T>>, x: Option<T>, values: Seq<T>)
    requires
        values.len() == present(slots.push(x)).len(),
    ensures
        refill(slots.push(x), values) == refill(slots, values.take(present(slots).len() as int)).push(
            match x {
                Some(_) => Some(values.last()),
                None => None,
            },
        ),
    decreases slots.len(),
{
    lemma_present_push(slots, x);
    if slots.len() == 0 {
        assert(slots.push(x).drop_first() =~= Seq::<Option<T>>::empty());
        let empty = slots.push(x).drop_first();
        assert(refill(empty, values.drop_first()) =~= Seq::<Option<T>>::empty());
        assert(refill(empty, values) =~= Seq::<Option<T>>::empty());
        match x {
            Some(_) => {
                assert(refill(slots.push(x), values) =~= seq![Some(values[0])]);
            },
            None => {
                assert(refill(slots.push(x), values) =~= seq![None]);
            },
        }
        assert(refill(slots, values.take(0)) =~= Seq::<Option<T>>::empty());
    } else {
        let tail = slots.drop_first();
        assert(slots.push(x).drop_first() =~= tail.push(x));
        match slots[0] {
            Some(_) => {
                lemma_refill_push(tail, x, values.drop_first());
                assert(values.drop_first().take(present(tail).len() as int) =~= values.take(
                    present(slots).len() as int,
                ).drop_first());
            },
            None => {
                lemma_refill_push(tail, x, values);
            },
        }
        assert(refill(slots.push(x), values) =~= refill(
            slots,
            values.take(present(slots).len() as int),
        ).push(
            match x {
                Some(_) => Some(values.last()),
                None => None,
            },
        ));
    }
}

/// `slots` with the values of its occupied slots replaced, in slot order, by
/// `values`.
pub open spec fn refill<T>(slots: Seq<Option<T>>, values: Seq<T>) -> Seq<Option<T>>
    decreases slots.len(),
{
    if slots.len() == 0 {
        Seq::empty()
    } else {
        match slots[0] {
            Some(_) => seq![Some(values[0])] + refill(slots.drop_first(), values.drop_first()),
            None => seq![None] + refill(slots.drop_first(), values),
        }
    }
}

/// A handle is accepted only by the graph that issued it: against a graph
/// with another tag it is neither owned nor borrowable, so `borrow`'s
/// precondition fails and `try_borrow` returns `None`, whatever slots that
/// graph holds (even as many as the issuing one).
pub proof fn lemma_foreign_handle_rejected<T>(a: &Graph<T>, b: &Graph<T>, node: Ref<T>)
    requires
        a.owns(node),
        a.tag() != b.tag(),
    ensures
        !b.owns(node),
        !b.occupied(node),
{
}

/// Graphs built one after another from the same source carry distinct tags,
/// so a handle of the first is rejected by the second.
pub proof fn lemma_graphs_from_one_source_differ<T>(
    first: &Graph<T>,
    second: &Graph<T>,
    node: Ref<T>,
    gens_before: Generations,
    gens_between: Generations,
)
    requires
        gens_before.wf(),
        gens_before.next_tag() < u64::MAX,
        first.tag() == gens_before.next_tag(),
        gens_between.next_tag() == gens_before.next_tag() + 1,
        second.tag() == gens_between.next_tag(),
        first.owns(node),
    ensures
        !second.owns(node),
        !second.occupied(node),
{
}

/// `borrow`, `borrow_mut` and `remove` accept a handle (their precondition
/// `occupied` holds), and `try_borrow` returns a value, exactly when the
/// handle carries the graph's tag and its slot currently holds a value.
pub proof fn lemma_borrow_accepted_iff<T>(g: &Graph<T>, node: Ref<T>)
    requires
        g.wf(),
    ensures
        g.occupied(node) <==> (node.tag() == g.tag() && node.slot() < g.slots().len()
            && g.slots()[node.slot() as int] is Some),
{
}

/// Right after `promise`, the new handle belongs to the graph but cannot be
/// borrowed: its slot is empty until `create` fills it.
pub proof fn lemma_promised_not_borrowable<T>(start: &Graph<T>, promised: &Graph<T>, node: Ref<T>)
    requires
        start.wf(),
        promised.tag() == start.tag(),
        promised.slots() == start.slots().push(None),
        node.tag() == start.tag(),
        node.slot() == start.slots().len(),
    ensures
        promised.owns(node),
        !promised.occupied(node),
{
}

/// After `create` fills a promised slot, the handle borrows as the value it
/// was created with.
pub proof fn lemma_created_borrows_value<T>(promised: &Graph<T>, created: &Graph<T>, node: Ref<T>, value: T)
    requires
        promised.owns(node),
        promised.slots()[node.slot() as int] is None,
        created.tag() == promised.tag(),
        created.slots() == promised.slots().update(node.slot() as int, Some(value)),
    ensures
        created.occupied(node),
        created.value_at(node) == value,
{
}

/// Once `create` has filled a slot, creating it again is refused: the
/// precondition of `create` (an empty slot) no longer holds, and
/// `try_create` returns its value back.
pub proof fn lemma_create_once<T>(promised: &Graph<T>, created: &Graph<T>, node: Ref<T>, value: T)
    requires
        promised.owns(node),
        promised.slots()[node.slot() as int] is None,
        created.tag() == promised.tag(),
        created.slots() == promised.slots().update(node.slot() as int, Some(value)),
    ensures
        created.owns(node),
        !(created.slots()[node.slot() as int] is None),
{
}

} // verus!
