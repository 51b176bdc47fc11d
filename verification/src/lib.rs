pub mod text;
pub mod paths;
pub mod analysis;
pub mod query_data;
pub mod seqs;
pub mod sorting;
pub mod strsets;
pub mod graph_cache;
pub mod sdk;
pub mod commands;
pub mod cli;
pub mod completions;
pub mod timing;
