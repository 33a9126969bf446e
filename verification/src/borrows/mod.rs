//! Borrow relations between places and the graph of what has to be released
//! to unblock a place.

pub mod borrows_edge;
pub mod borrows_state;
pub mod built_graphs;
pub mod dependencies;
pub mod domain;
pub mod path_condition;
pub mod region_abstraction;
pub mod release_order;
pub mod traversal;
pub mod trimming;
pub mod unblock_graph;
