//! A directed-acyclic-graph container.
//!
//! A [`DAG`] maps unsigned integer identifiers to nodes; every node carries
//! the identifiers of its predecessors and an opaque payload.  Insertion
//! re-validates the whole graph against a trial topological sort and rejects
//! any change that would leave the graph without a valid order, so a graph
//! built through [`DAG::add_node`] is acyclic at all times.

mod graph;
mod node;
mod order;

pub use graph::CycleDetected;
pub use graph::TopologicalSort;
pub use graph::DAG;
pub use node::DagNode;
pub use order::assoc_map;
pub use order::in_prefix;
pub use order::is_cycle;
pub use order::lemma_cycle_not_sortable;
pub use order::preceded_by;
pub use order::sortable;
pub use order::sources_unique;
pub use order::valid_order;
