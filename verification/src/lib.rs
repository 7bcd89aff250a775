//! Subway networks built from Wikidata records, and the searches that look
//! for the shortest way to ride every line of a network.

pub mod cache;
pub mod dot;
pub mod glpk;
pub mod graph;
pub mod lemmas;
pub mod network;
pub mod queries;
pub mod scip;
pub mod solution;
pub mod text;
pub mod traversals;
