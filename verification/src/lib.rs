//! Topological data analysis: simplicial complexes, persistent homology
//! by matrix reduction over Z2, nerves of covers and Mapper graphs.

pub mod order;
pub mod complex;
pub mod persistence;
pub mod combinations;
pub mod nerve;
pub mod clique;
pub mod boundary;
pub mod mapper;
pub mod distance;
pub mod alpha;
pub mod pairing;
pub mod permutations;
