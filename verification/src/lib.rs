//! Topology-aware line simplification: the verified core.
//!
//! Features are split into lines (`geometry`), lines are edited vertex by vertex while a
//! segment index is kept in step with them (`spatial_index`), bends are found, flagged and
//! chosen for reduction (`reduce_bend`), and the result is put back into features and ordered
//! (`geometry`, `output`). Coordinates are carried as binary64 bit patterns (`coord`); the
//! measuring of distances, angles and areas happens outside this crate.
pub mod coord;
pub mod geometry;
pub mod output;
pub mod reduce_bend;
pub mod simplify;
pub mod spatial_index;
