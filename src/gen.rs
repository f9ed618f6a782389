use vstd::prelude::*;

verus! {

/// The identity of one graph: every handle the graph issues carries it.
///
/// The value zero is reserved for handles that belong to no graph; such a
/// tag matches no tag, not even itself.
#[derive(Clone, Copy, Hash, Debug)]
pub struct Gen(u64);

/// A source of generation tags. Each graph takes a fresh tag from a source
/// when it is built; tags from one source never repeat until the counter
/// reaches `u64::MAX`, after which it keeps handing out that last value.
///
/// Tags are unique per source only: two sources both start at 1. Every graph
/// whose handles must be told apart from another's has to take its tag from
/// the same source as that other graph.
#[derive(Debug)]
pub struct Generations {
    next: u64,
}

impl View for Gen {
    type V = u64;

    closed spec fn view(&self) -> u64 {
        self.0
    }
}

impl Gen {
    /// Whether two tags denote the same live graph.
    pub open spec fn matches(self, other: Gen) -> bool {
        self@ != 0 && self@ == other@
    }

    /// Takes the next tag from `source`.
    pub fn new(source: &mut Generations) -> (r: Gen)
        requires
            old(source).wf(),
        ensures
            final(source).wf(),
            r@ == old(source).next_tag(),
            r@ != 0,
            final(source).next_tag() == if old(source).next_tag() < u64::MAX {
                (old(source).next_tag() + 1) as u64
            } else {
                old(source).next_tag()
            },
    {
        let tag = source.next;
        if source.next < u64::MAX {
            source.next = source.next + 1;
        }
        Gen(tag)
    }

    /// The tag carried by handles that belong to no graph.
    pub fn invalid() -> (r: Gen)
        ensures
            r@ == 0,
    {
        Gen(0)
    }

    pub fn is_invalid(&self) -> (r: bool)
        ensures
            r == (self@ == 0),
    {
        self.0 == 0
    }
}

impl PartialEq for Gen {
    fn eq(&self, other: &Gen) -> (r: bool)
        ensures
            r == self.matches(*other),
    {
        self.0 != 0 && self.0 == other.0
    }
}

impl vstd::std_specs::cmp::PartialEqSpecImpl for Gen {
    open spec fn obeys_eq_spec() -> bool {
        true
    }

    open spec fn eq_spec(&self, other: &Gen) -> bool {
        self.matches(*other)
    }
}

impl Generations {
    /// The tag that the next call of `Gen::new` hands out.
    pub closed spec fn next_tag(&self) -> u64 {
        self.next
    }

    pub open spec fn wf(&self) -> bool {
        self.next_tag() != 0
    }

    /// A source whose first tag is 1. Graphs built from different sources
    /// may share a tag and then accept each other's handles, so all graphs
    /// whose handles must be told apart take their tags from one source.
    pub fn new() -> (r: Generations)
        ensures
            r.wf(),
            r.next_tag() == 1,
    {
        Generations { next: 1 }
    }
}

impl Default for Generations {
    fn default() -> (r: Generations)
        ensures
            r.wf(),
            r.next_tag() == 1,
    {
        Generations::new()
    }
}

} // verus!
