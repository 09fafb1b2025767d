//! A mutable directed/undirected graph with weighted edges, together with a
//! suite of classical graph algorithms and a steppable maximum-flow engine.
//!
//! Every executable function carries a contract over the mathematical model
//! of the graph: the node table as a `Map`, each adjacency as a sequence of
//! edges with pairwise distinct targets, and the directedness flag.

pub mod adjacency;
pub mod aggregate;
pub mod classify;
pub mod connectivity;
pub mod counting;
pub mod cycles;
pub mod degree;
pub mod error;
pub mod flows;
pub mod graph;
pub mod intersection;
pub mod limited_path;
pub mod max_flow;
pub mod node;
pub mod paths;
pub mod search;
pub mod snapshot;
pub mod spanning;
pub mod sums;

pub use adjacency::{Adjacency, AdjacencyIter};
pub use aggregate::{bellman_ford, task_9_2};
pub use classify::{get_nodes_with_color, graph_have_cycle, is_a_forest, is_a_tree, task_5_18, GraphType};
pub use connectivity::task_6_4;
pub use cycles::ColorNode;
pub use degree::{task_1_4, task_2_4, task_3_5};
pub use error::{GraphError, GraphKindError};
pub use graph::{Graph, GraphIter};
pub use intersection::task_4_6;
pub use limited_path::{deikstra, task_8_1};
pub use max_flow::{build_capacity_and_flow, residual, task_11, MaxFlow};
pub use node::{Edge, Node};
pub use snapshot::GraphSnapshot;
pub use spanning::task_7_kraskal;
