//! Recipe search over effect sets: a bijective index of bounded effect subsets,
//! the transition rules of the substances, the effect graph they span, a
//! multi-objective shortest-path search over it, and the queries on its result.

pub mod combinatorial;
pub mod effect_graph;
pub mod flat_storage;
pub mod metadata;
pub mod mixing;
pub mod mosp;
pub mod packing;
pub mod query;
pub mod ranking;
pub mod search;
