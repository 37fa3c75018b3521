//! A dataflow graph of typed nodes and the incremental planner that decides,
//! from one cycle to the next, which of its nodes have to run again.

pub mod builder;
pub mod cancel;
pub mod compute;
pub mod data_type;
pub mod graph;
pub mod ident;
pub mod invoke;
pub mod laws;
pub mod preprocess;
pub mod renderer;
pub mod runtime_graph;
pub mod script;
pub mod topology;
pub mod validate;
