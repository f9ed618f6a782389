//! Arena-backed graphs whose nodes refer to each other through checked
//! handles, keyed indexes over such graphs, and references by key that
//! travel through a serialized form and are resolved afterwards.
//!
//! Every graph takes its tag from a `Generations` source when it is built;
//! handles carry that tag, so a graph rejects handles that another graph
//! from the same source issued. The keyed graphs and reference collections
//! state their contracts for key types that obey the laws of `Ord` (or of
//! hashing, for `HashGraph`), which is what their indexes' lookups rest on.

mod btree_graph;
mod gen;
mod graph;
mod hash_graph;
mod index;
mod maps;
mod reference;
mod refmap;

pub use crate::btree_graph::BTreeGraph;
pub use crate::gen::{Gen, Generations};
pub use crate::graph::Graph;
pub use crate::hash_graph::HashGraph;
pub use crate::index::IndexBy;
pub use crate::reference::{OptRefBy, Ref, RefBy};
pub use crate::refmap::{OptRefMap, RefMap};
