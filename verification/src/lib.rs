//! Authoritative server core for a multiplayer top-down flying game:
//! a delimiter-based stream framer with a textual message codec, the
//! fixed-tick simulation (player kinematics on a toroidal world, bullet
//! advancement and expiry), and the connection registry that folds client
//! intents, steps the simulation and prunes disconnected sessions.
//!
//! All quantities are fixed-point integers: positions and distances in
//! milli-pixels, speeds in milli-pixels per second, input axes in
//! milli-units of the `[-1, 1]` range, and rotations in tenths of a
//! degree. Sockets, pacing and every other piece of I/O live outside this
//! crate; the library only ever sees plain bytes and values.

pub mod constants;
pub mod math;
pub mod player;
pub mod bullet;
pub mod gamestate;
pub mod codec;
pub mod messages;
pub mod framer;
pub mod server;
pub mod powerups;
