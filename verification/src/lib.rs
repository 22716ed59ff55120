//! Community detection on weighted, directed graphs by multilevel modularity
//! optimisation, with every step proved against a mathematical model.

pub mod aggregate;
pub mod builders;
pub mod components;
pub mod graph;
pub mod local_move;
pub mod louvain;
pub mod merge;
pub mod modularity;
pub mod objective;
pub mod partition;
pub mod ratio;
pub mod sums;
