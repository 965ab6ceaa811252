//! A directed, weighted graph with dense integer node ids.
//!
//! Nodes carry an arbitrary caller-chosen value and are identified by their
//! insertion index; edges are (target, weight) pairs owned by their source
//! node, with duplicate pairs suppressed. On top of the storage sit a
//! deterministic depth-first traversal, a deterministic breadth-first
//! traversal, a single-pair shortest-path query, and a tree-style rendering
//! of the structure on standard output.

mod graph;
mod paths;
mod render;
mod seqs;
mod shortest;
mod traversal;

pub use graph::Graph;
pub use graph::GraphEdge;
pub use graph::GraphError;
pub use graph::GraphNode;
pub use paths::path_ok;
pub use paths::reachable;
pub use paths::sum_weights;
pub use paths::weighted_path_ok;
pub use traversal::bfs_seq;
pub use traversal::dfs_seq;
pub use traversal::lemma_bfs_complete;
pub use traversal::lemma_dfs_complete;
