//! In-memory knowledge graph of hypothesis nodes joined by semantic edges.

pub mod text;
pub mod node;
pub mod edge;
pub mod counting;
pub mod index;
pub mod graph;
pub mod reach;
pub mod parse;
pub mod search;
pub mod embedding;
pub mod edit;
pub mod store;
pub mod laws;
