pub mod query;
pub mod build_index;
