//! A graph of reactive cells: plain values, lazily derived values that
//! remember their last result, and reactions that fire when something they
//! watch changes. Nodes no one holds any more are left out. A change visits
//! every living node it reaches once, depth first, a node's weak links before
//! its strong ones, one step at a time driven by the caller.

pub mod spec;
pub mod graph;
pub mod laws;
pub mod freshness;
pub mod order;
