pub mod types;
pub mod parsing;
pub mod graph;
pub mod enumeration;
pub mod sources;

pub use graph::{build_graph_from_artifacts, merge_graphs, QueryDirection};
