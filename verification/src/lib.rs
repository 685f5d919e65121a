pub mod cost;
pub mod graph;
pub mod laws;
pub mod search;
