//! The authoritative simulation data: every live player and every
//! flying bullet, broadcast wholesale each tick.

use vstd::prelude::*;
use crate::player::Player;
use crate::bullet::Bullet;

verus! {

/// First player with the given id, scanning front to back.
pub open spec fn spec_get_player(players: Seq<Player>, id: u64) -> Option<Player>
    decreases players.len(),
{
    if players.len() == 0 {
        None
    } else if players[0].id == id {
        Some(players[0])
    } else {
        spec_get_player(players.skip(1), id)
    }
}

/// The root game state: an ordered sequence of players, unique by id
/// (the registry keeps them in accept order), and the bullets in flight.
#[derive(Clone, Debug)]
pub struct GameState {
    pub players: Vec<Player>,
    pub bullets: Vec<Bullet>,
}

impl GameState {
    /// An empty world: no players, no bullets.
    pub fn new() -> (s: GameState)
        ensures
            s.players@ == Seq::<Player>::empty(),
            s.bullets@ == Seq::<Bullet>::empty(),
    {
        GameState { players: Vec::new(), bullets: Vec::new() }
    }

    /// Appends a player; everything else is untouched.
    pub fn add_player(&mut self, player: Player)
        ensures
            final(self).players@ == old(self).players@.push(player),
            final(self).bullets@ == old(self).bullets@,
    {
        self.players.push(player)
    }

    /// The first player carrying this id, if any is connected.
    pub fn get_player_by_id(&self, id: u64) -> (r: Option<&Player>)
        ensures
            match r {
                Some(p) => spec_get_player(self.players@, id) == Some(*p),
                None => spec_get_player(self.players@, id) is None,
            },
    {
        let n: usize = self.players.len();
        proof {
            assert(self.players@.skip(0) =~= self.players@);
        }
        for i in 0..n
            invariant
                n == self.players@.len(),
                spec_get_player(self.players@, id) == spec_get_player(
                    self.players@.skip(i as int), id),
        {
            proof {
                assert(self.players@.skip(i as int)[0] == self.players@[i as int]);
                assert(self.players@.skip(i as int).skip(1) =~= self.players@.skip(i + 1));
            }
            if self.players[i].id == id {
                return Some(&self.players[i]);
            }
        }
        None
    }

    /// Appends a bullet; everything else is untouched.
    pub fn add_bullet(&mut self, bullet: Bullet)
        ensures
            final(self).bullets@ == old(self).bullets@.push(bullet),
            final(self).players@ == old(self).players@,
    {
        self.bullets.push(bullet)
    }
}

} // verus!
