//! A randomized local-search engine for small clique covers of undirected
//! graphs: a cover starts as one singleton clique per vertex and is shrunk by
//! greedy merges of compatible cliques, random reordering of the working
//! array, and an escalating forced-split schedule that helps the search
//! escape local optima.

pub mod bits;
pub mod clique;
pub mod graph;
pub mod laws;
pub mod perm;
pub mod rng;
pub mod sweep;
pub mod transfer;
