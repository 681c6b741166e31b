//! Power-ups: the kinds a plane can pick up, how long each lasts, and
//! the carried form once applied. Durations are milliseconds.

use vstd::prelude::*;

verus! {

/// Every power-up the world can offer.
#[derive(Clone, Copy, PartialEq, Eq, Structural, Hash, Debug)]
pub enum PowerUpKind {
    Missile,
    Afterburner,
    Laser,
    Health,
    Invincibility,
}

/// How long each kind's effect lasts once applied, in milliseconds;
/// weapons and instant effects carry no duration.
pub open spec fn spec_starting_duration(k: PowerUpKind) -> Option<u32> {
    match k {
        PowerUpKind::Missile => None,
        PowerUpKind::Laser => None,
        PowerUpKind::Afterburner => Some(5000u32),
        PowerUpKind::Health => None,
        PowerUpKind::Invincibility => Some(10000u32),
    }
}

impl PowerUpKind {
    /// How long the effect lasts once applied; see
    /// [`spec_starting_duration`].
    pub fn starting_duration(&self) -> (r: Option<u32>)
        ensures
            r == spec_starting_duration(*self),
    {
        match self {
            PowerUpKind::Missile => None,
            PowerUpKind::Laser => None,
            PowerUpKind::Afterburner => Some(5000),
            PowerUpKind::Health => None,
            PowerUpKind::Invincibility => Some(10000),
        }
    }

    /// Whether picking this up swaps the plane's weapon.
    pub fn is_weapon(&self) -> (r: bool)
        ensures
            r == (*self is Missile || *self is Laser),
    {
        match self {
            PowerUpKind::Missile => true,
            PowerUpKind::Laser => true,
            PowerUpKind::Afterburner => false,
            PowerUpKind::Health => false,
            PowerUpKind::Invincibility => false,
        }
    }

    /// Whether the effect is consumed at pickup rather than carried.
    pub fn is_instant(&self) -> (r: bool)
        ensures
            r == (*self is Health),
    {
        match self {
            PowerUpKind::Missile => false,
            PowerUpKind::Laser => false,
            PowerUpKind::Afterburner => false,
            PowerUpKind::Health => true,
            PowerUpKind::Invincibility => false,
        }
    }
}

/// A power-up lying in the world, waiting at a point given in
/// milli-pixels.
#[derive(Clone, Copy, PartialEq, Eq, Structural, Debug)]
pub struct PowerUp {
    pub kind: PowerUpKind,
    pub x: u64,
    pub y: u64,
}

impl PowerUp {
    /// Places a power-up of the given kind at a point.
    pub fn new(kind: PowerUpKind, x: u64, y: u64) -> (p: PowerUp)
        ensures
            p == (PowerUp { kind, x, y }),
    {
        PowerUp { kind, x, y }
    }
}

/// A power-up a plane carries, with the milliseconds it has left, if
/// its kind expires at all.
#[derive(Clone, Copy, PartialEq, Eq, Structural, Debug)]
pub struct AppliedPowerup {
    pub kind: PowerUpKind,
    pub duration_left: Option<u32>,
}

impl AppliedPowerup {
    /// Starts carrying a power-up, with its kind's full duration.
    pub fn new(kind: PowerUpKind) -> (a: AppliedPowerup)
        ensures
            a.kind == kind,
            a.duration_left == spec_starting_duration(kind),
    {
        let duration_left: Option<u32> = kind.starting_duration();
        AppliedPowerup { kind, duration_left }
    }
}

} // verus!
