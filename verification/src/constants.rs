//! Game tuning constants, in fixed-point units.
//!
//! Lengths are milli-pixels (one pixel is 1000 units), speeds are
//! milli-pixels per second, accelerations milli-pixels per second squared,
//! angles tenths of a degree (a full turn is 3600), and input axes
//! milli-units (full deflection is 1000).

use vstd::prelude::*;

verus! {

/// Side length of the square toroidal world, in milli-pixels.
pub const WORLD_SIZE: u64 = 3_000_000;

/// Scale of a full input-axis deflection: an axis value of `INPUT_SCALE`
/// means 1.0 on the wire.
pub const INPUT_SCALE: i32 = 1000;

/// Angle units per full turn (tenths of a degree).
pub const FULL_TURN: u32 = 3600;

/// Scale of the trigonometric tables: `sin` and `cos` range over
/// `[-TRIG_SCALE, TRIG_SCALE]`.
pub const TRIG_SCALE: i64 = 1000;

/// Greatest speed a plane can reach, milli-pixels per second.
pub const MAX_SPEED: u32 = 400_000;

/// A plane never slows below this, milli-pixels per second.
pub const MIN_SPEED: u32 = 50_000;

/// Speed gained per second of full forward input, milli-pixels per second
/// squared.
pub const DEFAULT_ACCELERATION: u32 = 200_000;

/// Turn per tick at full stick deflection, tenths of a degree
/// (about one radian).
pub const DEFAULT_AGILITY: u32 = 573;

/// Hit points a plane starts with.
pub const DEFAULT_HEALTH: u8 = 150;

/// Speed of a bullet, milli-pixels per second.
pub const BULLET_VELOCITY: u32 = 600_000;

/// Damage one bullet deals.
pub const BULLET_DAMAGE: u8 = 10;

/// A bullet is removed once its travelled distance exceeds this,
/// milli-pixels (eight tenths of the world size).
pub const BULLET_MAX_TRAVEL: u64 = 2_400_000;

/// Distance from the plane at which a bullet spawns, milli-pixels.
pub const BULLET_START: u64 = 30_000;

/// Plane sprite size, pixels.
pub const PLANE_SIZE: u32 = 20;

/// Bullet radius, pixels.
pub const BULLET_RADIUS: u32 = 1;

/// Power-up pickup radius, pixels.
pub const POWERUP_RADIUS: u32 = 20;

/// How many power-ups the world holds at once.
pub const POWERUP_AMOUNT: u32 = 5;

/// Hit points restored by a health power-up.
pub const POWERUP_HEALTH_BOOST: u8 = 40;

/// Fixed simulation step, milliseconds.
pub const TICK_MS: u32 = 10;

/// Both spawn coordinates of a freshly connected player, milli-pixels.
pub const SPAWN_POSITION: u64 = 10_000;

/// Ticks never integrate more than this in one step, milliseconds; keeps
/// every kinematics product far inside machine range.
pub const MAX_DELTA_MS: u32 = 1000;

} // verus!
