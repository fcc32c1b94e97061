//! Item-similarity recommendations over clustered embedding vectors.
//!
//! The verified core: order keys that stand for coordinates, the
//! coordinate-wise median reduction by randomized selection, the corpus and
//! its id lookup, the reading of seed ids, the query plan and pagination of a
//! recommendation request, and the naming of precompiled index artifacts.
pub mod artifacts;
pub mod coords;
pub mod corpus;
pub mod ids;
pub mod query;
mod random;
pub mod selection;
