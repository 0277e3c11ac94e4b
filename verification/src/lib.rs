//! Multi-level bloom-filter index over an append-only sequence of numbered
//! records. Each level-zero slot holds the bloom of one record; each slot of a
//! higher level holds the bitwise union of a fixed number of slots of the
//! level below, so a range search can prune whole subtrees whose aggregate
//! bloom cannot contain the query.

pub mod bloom;
pub mod chain;
pub mod config;
pub mod database;
pub mod filter;
pub mod laws;
pub mod number;
pub mod position;
pub mod position_map;
