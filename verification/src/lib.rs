//! A verified Weisfeiler-Lehman graph hash: a fixed-length digest of a
//! directed graph's structure and optional per-node labels.
pub mod counts;
pub mod digest;
pub mod graph;
pub mod iso;
pub mod order;
pub mod props;
pub mod wl;
