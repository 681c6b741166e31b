//! The authoritative per-session plane: identity, pose and speed, plus
//! the firing routine that spawns a bullet ahead of the plane.

use vstd::prelude::*;
use crate::bullet::Bullet;
use crate::constants::{
    WORLD_SIZE, FULL_TURN, MIN_SPEED, MAX_SPEED, BULLET_START, BULLET_VELOCITY, TRIG_SCALE,
};
use crate::math::{scale_div, scale_signed, wrap_add, sin_milli, cos_milli, sin_lookup, cos_lookup,
    lemma_sin_milli_bound};

verus! {

/// One plane. Mutated only by the simulation step; clients supply
/// intent, never state. Coordinates are milli-pixels on the toroidal
/// world, `rotation` tenths of a degree (zero points up the screen),
/// `speed` milli-pixels per second, and `velocity_*` the milli-pixel
/// step of the most recent tick.
#[derive(Clone, Copy, PartialEq, Eq, Structural, Debug)]
pub struct Player {
    pub id: u64,
    pub x: u64,
    pub y: u64,
    pub velocity_x: i64,
    pub velocity_y: i64,
    pub rotation: u32,
    pub speed: u32,
}

/// The unit heading of a rotation, horizontal component scaled by
/// [`TRIG_SCALE`]. A rotation of zero points up the screen, so the
/// heading is the pose turned back a quarter turn.
pub open spec fn heading_x(rotation: int) -> int {
    sin_milli(rotation)
}

/// Vertical component of the heading, scaled by [`TRIG_SCALE`];
/// negative when the plane points up the screen, which is towards
/// smaller `y`.
pub open spec fn heading_y(rotation: int) -> int {
    -cos_milli(rotation)
}

/// The bullet spawned by a plane: [`BULLET_START`] ahead of it along its
/// heading, flying at [`BULLET_VELOCITY`] in the same direction, with no
/// distance travelled yet and the plane recorded as owner.
pub open spec fn spec_shoot(p: Player) -> Bullet {
    Bullet {
        x: ((p.x + scale_div(heading_x(p.rotation as int), BULLET_START as int, TRIG_SCALE as int))
            % (WORLD_SIZE as int)) as u64,
        y: ((p.y + scale_div(heading_y(p.rotation as int), BULLET_START as int, TRIG_SCALE as int))
            % (WORLD_SIZE as int)) as u64,
        velocity_x: scale_div(heading_x(p.rotation as int), BULLET_VELOCITY as int,
            TRIG_SCALE as int) as i64,
        velocity_y: scale_div(heading_y(p.rotation as int), BULLET_VELOCITY as int,
            TRIG_SCALE as int) as i64,
        distance_travelled: 0,
        owner: p.id,
    }
}

impl Player {
    /// Both coordinates on the world, the rotation inside one turn, the
    /// speed inside its clamp range.
    pub open spec fn wf(self) -> bool {
        &&& self.x < WORLD_SIZE
        &&& self.y < WORLD_SIZE
        &&& self.rotation < FULL_TURN
        &&& MIN_SPEED <= self.speed <= MAX_SPEED
        &&& -(MAX_SPEED as int) <= self.velocity_x <= MAX_SPEED as int
        &&& -(MAX_SPEED as int) <= self.velocity_y <= MAX_SPEED as int
    }

    /// A freshly connected plane: at the given point, pointing up,
    /// resting at the minimum speed.
    pub fn new(id: u64, x: u64, y: u64) -> (p: Player)
        requires
            x < WORLD_SIZE,
            y < WORLD_SIZE,
        ensures
            p == (Player {
                id,
                x,
                y,
                velocity_x: 0,
                velocity_y: 0,
                rotation: 0,
                speed: MIN_SPEED,
            }),
            p.wf(),
    {
        Player { id, x, y, velocity_x: 0, velocity_y: 0, rotation: 0, speed: MIN_SPEED }
    }

    /// Spawns this plane's bullet; see [`spec_shoot`].
    pub fn shoot(&self) -> (b: Bullet)
        requires
            self.wf(),
        ensures
            b == spec_shoot(*self),
            b.wf(),
    {
        proof {
            lemma_sin_milli_bound(self.rotation as int);
            lemma_sin_milli_bound(((self.rotation + 900) % 3600) as int);
        }
        let hx: i64 = sin_lookup(self.rotation);
        let hy: i64 = -cos_lookup(self.rotation);
        let off_x: i64 = scale_signed(hx, BULLET_START, TRIG_SCALE as u64);
        let off_y: i64 = scale_signed(hy, BULLET_START, TRIG_SCALE as u64);
        let vx: i64 = scale_signed(hx, BULLET_VELOCITY as u64, TRIG_SCALE as u64);
        let vy: i64 = scale_signed(hy, BULLET_VELOCITY as u64, TRIG_SCALE as u64);
        Bullet {
            x: wrap_add(self.x, off_x, WORLD_SIZE),
            y: wrap_add(self.y, off_y, WORLD_SIZE),
            velocity_x: vx,
            velocity_y: vy,
            distance_travelled: 0,
            owner: self.id,
        }
    }
}

} // verus!
