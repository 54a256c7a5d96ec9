//! The tunables of the simulation, in fixed-point units.
use vstd::prelude::*;

verus! {

/// Units per 1.0 of any quantity.
pub const SCALE: i64 = 1_000_000;

/// Vertical speed given to a particle when it respawns (-0.02).
pub const INITIAL_SPEED: i64 = -20_000;

/// Speed lost to gravity on every tick (0.0005).
pub const GRAVITY: i64 = 500;

/// Half-width of the square window in which two particles merge (0.01).
pub const COLLISION_DISTANCE: i64 = 10_000;

/// Numerator of the cooling rate per microsecond and unit of mass.
pub const COOL_NUM: i64 = 3;

/// Denominator of the cooling rate: `COOL_NUM / COOL_DEN` is 0.0000015.
pub const COOL_DEN: i64 = 2_000_000;

/// Size of the worker pool that runs the partitions.
pub const NUM_OF_THREADS: usize = 12;

/// Largest number of particles in one partition.
pub const PARTICLES_PER_THREAD: usize = 25;

/// Height of the top of the field, where particles respawn (1.0).
pub const TOP_Y: i64 = 1_000_000;

/// Height of the floor (-1.0).
pub const FLOOR_Y: i64 = -1_000_000;

/// Height that marks a merged, inert particle (-2.0).
pub const INERT_Y: i64 = -2_000_000;

/// A recycled particle counts as a floor hit only if it was above this (-1.9).
pub const HIT_ABOVE_Y: i64 = -1_900_000;

/// Lateral positions stay strictly inside `(-WALL, WALL)` when they move (0.5).
pub const WALL: i64 = 500_000;

/// Respawn offsets are drawn from `[DRAW_LO, DRAW_HI)`, that is `[-0.5, 0.5)`.
pub const DRAW_LO: i64 = -500_000;

/// Exclusive upper end of the respawn offsets.
pub const DRAW_HI: i64 = 500_000;

/// Bound on the magnitude of positions, drift and speed that the integer
/// representation carries.
pub const COORD_LIMIT: i64 = 1_000_000_000_000;

/// Largest mass a particle can hold; merged masses stop growing here.
pub const MASS_CAP: i64 = 1_000_000_000_000_000_000;

} // verus!
