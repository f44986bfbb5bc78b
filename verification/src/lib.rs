//! A generic graph engine with indexed storage of nodes and edges,
//! breadth-first search (fewest hops), uniform-cost search (minimum total
//! weight) and heuristic-guided search, plus the small world/item/player
//! data model of a travel simulation built on top of it.

pub mod game;
pub mod graph;
pub mod render;
pub mod search;
