//! An undirected graph over integer-identified nodes, kept as a symmetric
//! adjacency mapping. Supports edge insertion, degree lookup, distance-2
//! neighbor discovery, and node enumeration.

mod graph;

pub use graph::adj;
pub use graph::distance_2;
pub use graph::is_symmetric;
pub use graph::lemma_absent_node_degree;
pub use graph::lemma_distance_2_absent;
pub use graph::lemma_distance_2_excludes_self;
pub use graph::lemma_edge_dom;
pub use graph::lemma_edge_preserves_symmetry;
pub use graph::lemma_edge_symmetry;
pub use graph::lemma_edge_untouched;
pub use graph::lemma_empty_symmetric;
pub use graph::with_edge;
pub use graph::Graph;
