//! Projectiles: straight flight at fixed speed across the toroidal
//! world, with an odometer that drives their expiry.

use vstd::prelude::*;
use crate::constants::{WORLD_SIZE, BULLET_VELOCITY, BULLET_MAX_TRAVEL, MAX_DELTA_MS};
use crate::math::{scale_div, scale_signed, wrap_add, lemma_mul_le};

verus! {

/// One bullet. Coordinates are milli-pixels, the velocity milli-pixels
/// per second (fixed magnitude [`BULLET_VELOCITY`] along the firing
/// direction), `distance_travelled` the milli-pixels accumulated so far,
/// and `owner` the id of the firing player, kept for kill attribution.
#[derive(Clone, Copy, PartialEq, Eq, Structural, Debug)]
pub struct Bullet {
    pub x: u64,
    pub y: u64,
    pub velocity_x: i64,
    pub velocity_y: i64,
    pub distance_travelled: u64,
    pub owner: u64,
}

/// A bullet advanced by `delta` milliseconds: each axis moves by
/// `velocity * delta`, wrapped onto the world, and the odometer grows by
/// the nominal length of that step, [`BULLET_VELOCITY`]` * delta`.
pub open spec fn spec_advance(b: Bullet, delta: int) -> Bullet {
    Bullet {
        x: ((b.x + scale_div(b.velocity_x as int, delta, 1000)) % (WORLD_SIZE as int)) as u64,
        y: ((b.y + scale_div(b.velocity_y as int, delta, 1000)) % (WORLD_SIZE as int)) as u64,
        velocity_x: b.velocity_x,
        velocity_y: b.velocity_y,
        distance_travelled: (b.distance_travelled + (BULLET_VELOCITY * delta) / 1000) as u64,
        owner: b.owner,
    }
}

/// A bullet stays in the world only while its travelled distance has not
/// passed [`BULLET_MAX_TRAVEL`].
pub open spec fn spec_alive(b: Bullet) -> bool {
    b.distance_travelled <= BULLET_MAX_TRAVEL
}

impl Bullet {
    /// On the world, and no faster than [`BULLET_VELOCITY`] on either
    /// axis.
    pub open spec fn wf(self) -> bool {
        &&& self.x < WORLD_SIZE
        &&& self.y < WORLD_SIZE
        &&& -(BULLET_VELOCITY as int) <= self.velocity_x <= BULLET_VELOCITY
        &&& -(BULLET_VELOCITY as int) <= self.velocity_y <= BULLET_VELOCITY
    }

    /// Advances the bullet one step of `delta` milliseconds; see
    /// [`spec_advance`].
    pub fn update(&mut self, delta: u32) -> (expired: bool)
        requires
            old(self).wf(),
            spec_alive(*old(self)),
            0 < delta <= MAX_DELTA_MS,
        ensures
            *final(self) == spec_advance(*old(self), delta as int),
            final(self).wf(),
            expired == !spec_alive(*final(self)),
    {
        proof {
            let vx: int = if self.velocity_x >= 0 { self.velocity_x as int } else {
                -(self.velocity_x as int)
            };
            let vy: int = if self.velocity_y >= 0 { self.velocity_y as int } else {
                -(self.velocity_y as int)
            };
            lemma_mul_le(vx, delta as int, BULLET_VELOCITY as int, MAX_DELTA_MS as int);
            lemma_mul_le(vy, delta as int, BULLET_VELOCITY as int, MAX_DELTA_MS as int);
        }
        let step_x: i64 = scale_signed(self.velocity_x, delta as u64, 1000);
        let step_y: i64 = scale_signed(self.velocity_y, delta as u64, 1000);
        proof {
            lemma_mul_le(BULLET_VELOCITY as int, delta as int, BULLET_VELOCITY as int,
                MAX_DELTA_MS as int);
        }
        let nominal: u64 = ((BULLET_VELOCITY as u64) * (delta as u64)) / 1000;
        self.x = wrap_add(self.x, step_x, WORLD_SIZE);
        self.y = wrap_add(self.y, step_y, WORLD_SIZE);
        self.distance_travelled = self.distance_travelled + nominal;
        self.distance_travelled > BULLET_MAX_TRAVEL
    }
}

} // verus!
