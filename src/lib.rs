//! A flocking ("boids") simulation engine on fixed-point vectors.
//!
//! Each agent steers by three pairwise rules (alignment, separation,
//! cohesion), is pulled back toward the origin once it strays beyond
//! `MAX_RANGE`, and is slowed to `MAX_SPEED`. Lengths are thousandths of a
//! world unit and times are milliseconds, so every comparison of distances is
//! exact; stored coordinates saturate at `COORD_LIMIT`.
pub mod fixed;
pub mod flock;
pub mod laws;
pub mod rules;

pub use fixed::{ceil_sqrt_u64, Vec3, COORD_LIMIT, SCALE};
pub use flock::{seed_population, tick, tick_with_boundary, GRID_SIZE, GRID_SPACING};
pub use rules::{
    Agent, Boundary, ALIGN_DIVISOR, ALIGN_RANGE, AVOID_RANGE, CENTERING_DIVISOR, CO_DIVISOR, CO_RANGE,
    MAX_RANGE, MAX_SPEED, PROTECTED_RANGE,
};
