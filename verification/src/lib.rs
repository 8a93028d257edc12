//! Spatial hashing for a particle fluid simulation.
//!
//! The simulation sorts its particles into grid cells, hashes each cell to a
//! bucket key, and keeps a table from keys to the first slot of each bucket so
//! that the particles near a point can be visited without scanning all of them.
//! This crate holds that integer bookkeeping, proved against its contracts.

pub mod constants;
pub mod spatial_hashing;
pub mod spatial_index;
