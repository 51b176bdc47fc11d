pub mod types;
pub mod error;
pub mod graph;
pub mod builder;

pub use builder::GraphBuilder;
pub use error::Error;
pub use graph::Graph;
pub use types::{Caller, NodeId, Reference};
