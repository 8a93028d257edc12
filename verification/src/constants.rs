use vstd::prelude::*;

verus! {

/// Number of particles in the simulation, and number of hash buckets.
pub const PARTICLE_COUNT: u32 = 5000;

/// Multiplier of a cell's column in its hash (coprime with the row multiplier).
pub const X_HASH_MULTIPLIER: u32 = 1259;

/// Multiplier of a cell's row in its hash.
pub const Y_HASH_MULTIPLIER: u32 = 3109;

} // verus!
