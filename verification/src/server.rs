//! The connection registry and the fixed-tick authoritative loop: fold
//! each session's inbound frames into one intent, integrate player
//! kinematics, advance and expire bullets, encode the broadcast, and
//! prune disconnected sessions.
//!
//! Everything here is pure state transformation. The owner of the
//! sockets accepts connections, reads bytes into the sessions, writes
//! the broadcast frames out, and reports which sessions failed, all
//! through this module's functions.

use vstd::prelude::*;
use crate::bullet::{Bullet, spec_advance, spec_alive};
use crate::constants::{
    WORLD_SIZE, FULL_TURN, MIN_SPEED, MAX_SPEED, DEFAULT_ACCELERATION, DEFAULT_AGILITY,
    INPUT_SCALE, MAX_DELTA_MS, SPAWN_POSITION, TRIG_SCALE,
};
use crate::framer::{MessageReader, spec_drain, spec_tail, lemma_next_step, lemma_drain_wf};
use crate::gamestate::GameState;
use crate::math::{scale_div, scale_signed, wrap_add, sin_lookup, cos_lookup, lemma_mul_le,
    lemma_sin_milli_bound};
use crate::messages::{ClientMessage, ServerMessage, client_msg_wf, spec_enc_server, encode_state,
    encode_server};
use crate::player::{Player, heading_x, heading_y, spec_shoot};

verus! {

/// The folded summary of one session's frames within a tick: the axes
/// of the last `Input` seen, and whether any `Shoot` arrived.
#[derive(Clone, Copy, PartialEq, Eq, Structural, Debug)]
pub struct Intent {
    pub x_input: i32,
    pub y_input: i32,
    pub shoot: bool,
}

/// The intent a tick starts from: centered stick, no trigger.
pub open spec fn spec_intent_zero() -> Intent {
    Intent { x_input: 0, y_input: 0, shoot: false }
}

/// Folding one message into the running intent: `Input` overwrites both
/// axes (last write wins, never accumulates), `Shoot` latches, `Ping`
/// changes nothing.
pub open spec fn spec_apply_message(acc: Intent, m: ClientMessage) -> Intent {
    match m {
        ClientMessage::Ping => acc,
        ClientMessage::Shoot => Intent { x_input: acc.x_input, y_input: acc.y_input, shoot: true },
        ClientMessage::Input { x_input, y_input } => Intent {
            x_input,
            y_input,
            shoot: acc.shoot,
        },
    }
}

/// The intent left after folding a whole message sequence in order.
pub open spec fn spec_fold_intent(acc: Intent, msgs: Seq<ClientMessage>) -> Intent
    decreases msgs.len(),
{
    if msgs.len() == 0 {
        acc
    } else {
        spec_fold_intent(spec_apply_message(acc, msgs[0]), msgs.skip(1))
    }
}

/// The tick intent of a message sequence, folded from the neutral
/// start.
pub open spec fn spec_intent_of(msgs: Seq<ClientMessage>) -> Intent {
    spec_fold_intent(spec_intent_zero(), msgs)
}

/// Drains every complete frame buffered in the reader and folds the
/// messages, last write winning, into this tick's intent; the partial
/// frame in flight stays buffered.
pub fn poll_intent(reader: &mut MessageReader) -> (r: Intent)
    ensures
        r == spec_intent_of(spec_drain(old(reader).buffer@)),
        final(reader).buffer@ == spec_tail(old(reader).buffer@),
        -INPUT_SCALE <= r.x_input <= INPUT_SCALE,
        -INPUT_SCALE <= r.y_input <= INPUT_SCALE,
{
    let mut acc = Intent { x_input: 0, y_input: 0, shoot: false };
    loop
        invariant
            spec_fold_intent(acc, spec_drain(reader.buffer@)) == spec_intent_of(
                spec_drain(old(reader).buffer@)),
            spec_tail(reader.buffer@) == spec_tail(old(reader).buffer@),
            -INPUT_SCALE <= acc.x_input <= INPUT_SCALE,
            -INPUT_SCALE <= acc.y_input <= INPUT_SCALE,
        decreases reader.buffer@.len(),
    {
        proof {
            lemma_next_step(reader.buffer@);
            lemma_drain_wf(reader.buffer@);
        }
        let ghost pre = reader.buffer@;
        let next = reader.next();
        match next {
            Some(msg) => {
                proof {
                    let drained = spec_drain(pre);
                    assert(drained[0] == msg);
                    assert(client_msg_wf(msg));
                    assert(drained.skip(1) =~= spec_drain(reader.buffer@));
                }
                match msg {
                    ClientMessage::Ping => {},
                    ClientMessage::Shoot => {
                        acc.shoot = true;
                    },
                    ClientMessage::Input { x_input, y_input } => {
                        acc.x_input = x_input;
                        acc.y_input = y_input;
                    },
                }
            },
            None => {
                proof {
                    assert(spec_drain(pre) =~= Seq::<ClientMessage>::empty());
                    assert(spec_fold_intent(acc, spec_drain(pre)) == acc);
                }
                return acc;
            },
        }
    }
}

/// The axes of the last `Input` frame in a sequence, if any arrived.
pub open spec fn spec_last_input(msgs: Seq<ClientMessage>) -> Option<(i32, i32)>
    decreases msgs.len(),
{
    if msgs.len() == 0 {
        None
    } else {
        match msgs.last() {
            ClientMessage::Input { x_input, y_input } => Some((x_input, y_input)),
            _ => spec_last_input(msgs.drop_last()),
        }
    }
}

/// Whether any `Shoot` frame occurs in a sequence.
pub open spec fn spec_any_shoot(msgs: Seq<ClientMessage>) -> bool {
    exists|i: int| 0 <= i < msgs.len() && msgs[i] is Shoot
}

/// Folding a sequence and then one more message is folding the
/// sequence, then applying the message.
proof fn lemma_fold_intent_push(acc: Intent, msgs: Seq<ClientMessage>, m: ClientMessage)
    ensures
        spec_fold_intent(acc, msgs.push(m)) == spec_apply_message(spec_fold_intent(acc, msgs), m),
    decreases msgs.len(),
{
    if msgs.len() == 0 {
        assert(msgs.push(m)[0] == m);
        assert(msgs.push(m).skip(1) =~= Seq::<ClientMessage>::empty());
        assert(spec_fold_intent(spec_apply_message(acc, m), Seq::<ClientMessage>::empty())
            == spec_apply_message(acc, m));
        assert(spec_fold_intent(acc, msgs.push(m)) == spec_fold_intent(
            spec_apply_message(acc, m), msgs.push(m).skip(1)));
        assert(spec_fold_intent(acc, msgs) == acc);
    } else {
        assert(msgs.push(m)[0] == msgs[0]);
        assert(msgs.push(m).skip(1) =~= msgs.skip(1).push(m));
        lemma_fold_intent_push(spec_apply_message(acc, msgs[0]), msgs.skip(1), m);
        assert(spec_fold_intent(acc, msgs.push(m)) == spec_fold_intent(
            spec_apply_message(acc, msgs[0]), msgs.skip(1).push(m)));
        assert(spec_fold_intent(acc, msgs) == spec_fold_intent(
            spec_apply_message(acc, msgs[0]), msgs.skip(1)));
    }
}

/// Last-write-wins input folding, for every message sequence: the tick
/// intent carries exactly the axes of the last `Input` frame (neutral
/// when none arrived) — earlier `Input` frames are overwritten, never
/// accumulated — and the trigger is latched exactly when at least one
/// `Shoot` frame arrived, however many there were.
pub proof fn lemma_last_write_wins(msgs: Seq<ClientMessage>)
    ensures
        spec_intent_of(msgs).x_input == match spec_last_input(msgs) {
            Some(axes) => axes.0,
            None => 0,
        },
        spec_intent_of(msgs).y_input == match spec_last_input(msgs) {
            Some(axes) => axes.1,
            None => 0,
        },
        spec_intent_of(msgs).shoot == spec_any_shoot(msgs),
    decreases msgs.len(),
{
    if msgs.len() == 0 {
    } else {
        let d = msgs.drop_last();
        let m = msgs.last();
        lemma_last_write_wins(d);
        assert(msgs =~= d.push(m));
        lemma_fold_intent_push(spec_intent_zero(), d, m);
        assert(spec_intent_of(msgs) == spec_apply_message(spec_intent_of(d), m));
        if m is Shoot {
            assert(spec_any_shoot(msgs)) by {
                assert(msgs[msgs.len() - 1] is Shoot);
            }
        } else {
            assert(spec_any_shoot(msgs) == spec_any_shoot(d)) by {
                if spec_any_shoot(msgs) {
                    let w = choose|w: int| 0 <= w < msgs.len() && msgs[w] is Shoot;
                    assert(d[w] is Shoot);
                }
                if spec_any_shoot(d) {
                    let w = choose|w: int| 0 <= w < d.len() && d[w] is Shoot;
                    assert(msgs[w] is Shoot);
                }
            }
        }
    }
}

/// Speed clamped into the allowed band: a plane never stops dead and
/// never outruns its engine.
pub open spec fn spec_clamp_speed(s: int) -> int {
    if s < MIN_SPEED {
        MIN_SPEED as int
    } else if s > MAX_SPEED {
        MAX_SPEED as int
    } else {
        s
    }
}

/// Speed after one integration step: the forward axis scales the
/// acceleration over the step, and the sum is clamped.
pub open spec fn spec_new_speed(speed: int, y_input: int, delta: int) -> int {
    spec_clamp_speed(speed + scale_div(y_input, DEFAULT_ACCELERATION * delta, 1_000_000))
}

/// Rotation after one step: the turn axis scales the agility, applied
/// once per tick (deliberately not by the step length, as the turn is a
/// rate per tick), wrapped into one turn.
pub open spec fn spec_new_rotation(rot: int, x_input: int) -> int {
    (rot + scale_div(x_input, DEFAULT_AGILITY as int, INPUT_SCALE as int)) % (FULL_TURN as int)
}

/// One axis of the milli-pixel step a plane takes this tick: heading
/// times speed times step length, scaled back down.
pub open spec fn spec_velocity(heading: int, speed: int, delta: int) -> int {
    scale_div(heading, speed * delta, 1_000_000)
}

/// A plane after one kinematics step: speed integrated and clamped,
/// rotation turned and wrapped, the velocity derived from the new pose,
/// and the position advanced by it with toroidal wraparound on each
/// axis.
pub open spec fn spec_update_player(p: Player, x_input: int, y_input: int, delta: int) -> Player {
    let speed2 = spec_new_speed(p.speed as int, y_input, delta);
    let rot2 = spec_new_rotation(p.rotation as int, x_input);
    let vx = spec_velocity(heading_x(rot2), speed2, delta);
    let vy = spec_velocity(heading_y(rot2), speed2, delta);
    Player {
        id: p.id,
        x: ((p.x + vx) % (WORLD_SIZE as int)) as u64,
        y: ((p.y + vy) % (WORLD_SIZE as int)) as u64,
        velocity_x: vx as i64,
        velocity_y: vy as i64,
        rotation: rot2 as u32,
        speed: speed2 as u32,
    }
}

/// Integrates one player one step; see [`spec_update_player`]. The
/// speed never leaves `[MIN_SPEED, MAX_SPEED]` and both coordinates
/// stay on the world, whatever the inputs.
pub fn update_player_position(player: &mut Player, x_input: i32, y_input: i32, delta: u32)
    requires
        old(player).wf(),
        -INPUT_SCALE <= x_input <= INPUT_SCALE,
        -INPUT_SCALE <= y_input <= INPUT_SCALE,
        0 < delta <= MAX_DELTA_MS,
    ensures
        *final(player) == spec_update_player(*old(player), x_input as int, y_input as int,
            delta as int),
        final(player).wf(),
        MIN_SPEED <= final(player).speed <= MAX_SPEED,
        final(player).x < WORLD_SIZE,
        final(player).y < WORLD_SIZE,
        final(player).id == old(player).id,
{
    proof {
        let ymag: int = if y_input >= 0 { y_input as int } else { -(y_input as int) };
        lemma_mul_le(ymag, DEFAULT_ACCELERATION * delta, INPUT_SCALE as int,
            DEFAULT_ACCELERATION * MAX_DELTA_MS);
    }
    let accel_step: u64 = (DEFAULT_ACCELERATION as u64) * (delta as u64);
    let ds: i64 = scale_signed(y_input as i64, accel_step, 1_000_000);
    let speed_raw: i64 = (player.speed as i64) + ds;
    let speed2: u32 = if speed_raw < MIN_SPEED as i64 {
        MIN_SPEED
    } else if speed_raw > MAX_SPEED as i64 {
        MAX_SPEED
    } else {
        speed_raw as u32
    };

    let turn: i64 = scale_signed(x_input as i64, DEFAULT_AGILITY as u64, INPUT_SCALE as u64);
    let rot2: u32 = wrap_add(player.rotation as u64, turn, FULL_TURN as u64) as u32;

    proof {
        lemma_sin_milli_bound(rot2 as int);
        lemma_sin_milli_bound(((rot2 + 900) % 3600) as int);
        lemma_mul_le(speed2 as int, delta as int, MAX_SPEED as int, MAX_DELTA_MS as int);
    }
    let hx: i64 = sin_lookup(rot2);
    let hy: i64 = -cos_lookup(rot2);
    let speed_delta: u64 = (speed2 as u64) * (delta as u64);
    proof {
        let hxm: int = if hx >= 0 { hx as int } else { -(hx as int) };
        let hym: int = if hy >= 0 { hy as int } else { -(hy as int) };
        lemma_mul_le(hxm, speed_delta as int, TRIG_SCALE as int,
            MAX_SPEED * MAX_DELTA_MS);
        lemma_mul_le(hym, speed_delta as int, TRIG_SCALE as int,
            MAX_SPEED * MAX_DELTA_MS);
    }
    let vx: i64 = scale_signed(hx, speed_delta, 1_000_000);
    let vy: i64 = scale_signed(hy, speed_delta, 1_000_000);

    player.x = wrap_add(player.x, vx, WORLD_SIZE);
    player.y = wrap_add(player.y, vy, WORLD_SIZE);
    player.velocity_x = vx;
    player.velocity_y = vy;
    player.rotation = rot2;
    player.speed = speed2;
}

/// One live connection: the identity assigned at accept, paired with
/// the framer that buffers the peer's byte stream.
pub struct Session {
    pub id: u64,
    pub reader: MessageReader,
}

/// The connection registry and simulation owner. Sessions and players
/// stay aligned index by index, in accept order, with strictly
/// increasing identities below `next_id`.
pub struct Server {
    pub state: GameState,
    pub sessions: Vec<Session>,
    pub next_id: u64,
}

impl Server {
    /// The registry invariant: one player per session at the same
    /// index with the same id, ids strictly increasing (hence unique)
    /// and all below the allocator cursor, every player and bullet
    /// well-formed, and no bullet past its expiry threshold.
    pub open spec fn wf(self) -> bool {
        &&& self.state.players@.len() == self.sessions@.len()
        &&& (forall|i: int| 0 <= i < self.sessions@.len() ==> (#[trigger] self.state.players@[i]).id
            == self.sessions@[i].id)
        &&& (forall|i: int, k: int| 0 <= i < k < self.sessions@.len() ==> (#[trigger] self.sessions@[i].id)
            < (#[trigger] self.sessions@[k].id))
        &&& (forall|i: int| 0 <= i < self.sessions@.len() ==> (#[trigger] self.sessions@[i].id)
            < self.next_id)
        &&& (forall|i: int| 0 <= i < self.state.players@.len() ==> (#[trigger] self.state.players@[i]).wf())
        &&& (forall|i: int| 0 <= i < self.state.bullets@.len() ==> (#[trigger] self.state.bullets@[i]).wf())
        &&& (forall|i: int| 0 <= i < self.state.bullets@.len() ==> spec_alive(
            #[trigger] self.state.bullets@[i]))
    }

    /// An empty registry: no sessions, no players, no bullets, and
    /// identities starting at zero.
    pub fn new() -> (s: Server)
        ensures
            s.wf(),
            s.sessions@.len() == 0,
            s.state.players@.len() == 0,
            s.state.bullets@.len() == 0,
            s.next_id == 0,
    {
        Server { state: GameState::new(), sessions: Vec::new(), next_id: 0 }
    }

    /// Issues the next identity. The id is consumed whether or not the
    /// caller manages to register a session for it — a connection whose
    /// handshake fails burns its id, so identities are never reused.
    pub fn allocate_id(&mut self) -> (id: u64)
        requires
            old(self).wf(),
            old(self).next_id < u64::MAX,
        ensures
            id == old(self).next_id,
            final(self).next_id == old(self).next_id + 1,
            final(self).state == old(self).state,
            final(self).sessions == old(self).sessions,
            final(self).wf(),
            (*final(self), id) == spec_allocate(*old(self)),
            forall|i: int| 0 <= i < final(self).sessions@.len() ==> (#[trigger] final(
                self).sessions@[i].id) < id + 1,
    {
        let id: u64 = self.next_id;
        self.next_id = self.next_id + 1;
        id
    }

    /// Registers a session for an issued id, spawning its player at the
    /// fixed spawn point. Succeeds exactly when the id was issued
    /// (below the cursor) and is newer than every registered session,
    /// which is always the case for the id just issued; on failure
    /// nothing changes.
    pub fn register_session(&mut self, id: u64) -> (r: bool)
        requires
            old(self).wf(),
        ensures
            r == (id < old(self).next_id && (old(self).sessions@.len() == 0 || old(
                self).sessions@.last().id < id)),
            final(self).wf(),
            final(self).next_id == old(self).next_id,
            !r ==> *final(self) == *old(self),
            r ==> final(self).sessions@.len() == old(self).sessions@.len() + 1,
            r ==> final(self).sessions@.drop_last() == old(self).sessions@,
            r ==> final(self).sessions@.last().id == id,
            r ==> final(self).sessions@.last().reader.buffer@ == Seq::<u8>::empty(),
            r ==> final(self).state.players@ == old(self).state.players@.push(
                (Player {
                    id,
                    x: SPAWN_POSITION,
                    y: SPAWN_POSITION,
                    velocity_x: 0,
                    velocity_y: 0,
                    rotation: 0,
                    speed: MIN_SPEED,
                })),
            final(self).state.bullets@ == old(self).state.bullets@,
    {
        let n: usize = self.sessions.len();
        let ok: bool = if n == 0 {
            id < self.next_id
        } else {
            self.sessions[n - 1].id < id && id < self.next_id
        };
        if ok {
            let player = Player::new(id, SPAWN_POSITION, SPAWN_POSITION);
            self.state.add_player(player);
            self.sessions.push(Session { id, reader: MessageReader::new() });
            proof {
                assert(self.sessions@.drop_last() =~= old(self).sessions@);
                assert forall|i: int, k: int|
                    0 <= i < k < self.sessions@.len() implies (#[trigger] self.sessions@[i].id)
                    < (#[trigger] self.sessions@[k].id) by {
                    if k < self.sessions@.len() - 1 {
                    } else {
                        if i < n - 1 {
                            assert(old(self).sessions@[i].id < old(self).sessions@[n - 1].id);
                        }
                    }
                }
            }
        }
        ok
    }

    /// How many sessions are registered.
    pub fn session_count(&self) -> (n: usize)
        ensures
            n == self.sessions@.len(),
    {
        self.sessions.len()
    }

    /// The id of the session at this index.
    pub fn session_id(&self, index: usize) -> (id: u64)
        requires
            index < self.sessions@.len(),
        ensures
            id == self.sessions@[index as int].id,
    {
        self.sessions[index].id
    }

    /// How many bytes the session's framer holds without a completed
    /// frame yet; a peer that never sends a delimiter drives this up
    /// without bound, so the socket owner can cap it and force a
    /// disconnect.
    pub fn session_buffered(&self, index: usize) -> (n: usize)
        requires
            index < self.sessions@.len(),
        ensures
            n == self.sessions@[index as int].reader.buffer@.len(),
    {
        self.sessions[index].reader.buffer.len()
    }

    /// Hands bytes read from one session's socket to that session's
    /// framer; no other session and nothing else is touched.
    pub fn feed_session(&mut self, index: usize, bytes: &[u8])
        requires
            old(self).wf(),
            index < old(self).sessions@.len(),
        ensures
            final(self).wf(),
            final(self).sessions@.len() == old(self).sessions@.len(),
            final(self).sessions@[index as int].id == old(self).sessions@[index as int].id,
            final(self).sessions@[index as int].reader.buffer@ == old(self).sessions@[index as int].reader.buffer@
                + bytes@,
            forall|k: int| 0 <= k < old(self).sessions@.len() && k != index ==> final(
                self).sessions@[k] == old(self).sessions@[k],
            final(self).state == old(self).state,
            final(self).next_id == old(self).next_id,
    {
        let session = &mut self.sessions[index];
        session.reader.feed(bytes);
    }
}

/// The bullets left after one tick: every bullet advanced by the step,
/// and exactly those whose odometer has not passed the expiry threshold
/// kept, in order.
pub open spec fn spec_step_bullets(bs: Seq<Bullet>, delta: int) -> Seq<Bullet>
    decreases bs.len(),
{
    if bs.len() == 0 {
        Seq::empty()
    } else {
        let rest = spec_step_bullets(bs.drop_last(), delta);
        let b2 = spec_advance(bs.last(), delta);
        if spec_alive(b2) {
            rest.push(b2)
        } else {
            rest
        }
    }
}

/// Bullet expiry: after a step, every bullet still present is within
/// its travel budget, and every advanced bullet within the budget is
/// still present — a bullet leaves in exactly the tick its odometer
/// crosses the threshold, and is never seen again after.
pub proof fn lemma_bullet_expiry(bs: Seq<Bullet>, delta: int)
    ensures
        forall|k: int| 0 <= k < spec_step_bullets(bs, delta).len() ==> spec_alive(
            #[trigger] spec_step_bullets(bs, delta)[k]),
        forall|i: int| 0 <= i < bs.len() && spec_alive(spec_advance(bs[i], delta))
            ==> spec_step_bullets(bs, delta).contains(spec_advance(#[trigger] bs[i], delta)),
    decreases bs.len(),
{
    if bs.len() > 0 {
        lemma_bullet_expiry(bs.drop_last(), delta);
        let rest = spec_step_bullets(bs.drop_last(), delta);
        let b2 = spec_advance(bs.last(), delta);
        assert forall|i: int| 0 <= i < bs.len() && spec_alive(spec_advance(bs[i], delta)) implies
            spec_step_bullets(bs, delta).contains(spec_advance(#[trigger] bs[i], delta)) by {
            if i < bs.len() - 1 {
                assert(bs.drop_last()[i] == bs[i]);
                assert(rest.contains(spec_advance(bs[i], delta)));
                let w = choose|w: int| 0 <= w < rest.len() && rest[w] == spec_advance(
                    bs[i], delta);
                if spec_alive(b2) {
                    assert(rest.push(b2)[w] == rest[w]);
                }
            } else {
                assert(bs[i] == bs.last());
                if spec_alive(b2) {
                    assert(rest.push(b2).last() == b2);
                }
            }
        }
    }
}

/// The intent each session's buffered frames fold to, index by index.
pub open spec fn spec_intents(sessions: Seq<Session>) -> Seq<Intent> {
    Seq::new(sessions.len(), |i: int| spec_intent_of(spec_drain(sessions[i].reader.buffer@)))
}

/// The bullets spawned this tick, in session order: one from each
/// updated plane whose intent latched a shot, fired from the updated
/// pose. Meaningful when both sequences pair up index by index.
pub open spec fn spec_spawned(players2: Seq<Player>, intents: Seq<Intent>) -> Seq<Bullet>
    decreases players2.len(),
{
    if players2.len() == 0 {
        Seq::empty()
    } else {
        let rest = spec_spawned(players2.drop_last(), intents.drop_last());
        if intents.last().shoot {
            rest.push(spec_shoot(players2.last()))
        } else {
            rest
        }
    }
}

impl Server {
    /// The drain and player phases in one pass: for every session, in
    /// order, fold its buffered frames into an intent (last write
    /// wins), integrate its plane, and append the bullet of a latched
    /// shot, fired from the updated pose. Exactly one bullet joins per
    /// shooting session, however many `Shoot` frames arrived.
    fn apply_intents(&mut self, delta: u32)
        requires
            old(self).wf(),
            0 < delta <= MAX_DELTA_MS,
        ensures
            final(self).wf(),
            final(self).next_id == old(self).next_id,
            final(self).sessions@.len() == old(self).sessions@.len(),
            forall|i: int| 0 <= i < old(self).sessions@.len() ==> (#[trigger] final(
                self).sessions@[i].id) == old(self).sessions@[i].id,
            forall|i: int| 0 <= i < old(self).sessions@.len() ==> (#[trigger] final(
                self).sessions@[i].reader.buffer@) == spec_tail(
                old(self).sessions@[i].reader.buffer@),
            final(self).state.players@.len() == old(self).state.players@.len(),
            forall|i: int| 0 <= i < old(self).state.players@.len() ==> (#[trigger] final(
                self).state.players@[i]) == spec_update_player(
                old(self).state.players@[i],
                spec_intents(old(self).sessions@)[i].x_input as int,
                spec_intents(old(self).sessions@)[i].y_input as int,
                delta as int,
            ),
            final(self).state.bullets@ == old(self).state.bullets@ + spec_spawned(
                final(self).state.players@, spec_intents(old(self).sessions@)),
    {
        let ghost ss0 = old(self).sessions@;
        let ghost ps0 = old(self).state.players@;
        let ghost its = spec_intents(ss0);
        let ns: usize = self.sessions.len();
        for i in 0..ns
            invariant
                self.next_id == old(self).next_id,
                ns == ss0.len(),
                self.sessions@.len() == ss0.len(),
                ps0.len() == ss0.len(),
                self.state.players@.len() == ps0.len(),
                its == spec_intents(ss0),
                0 < delta <= MAX_DELTA_MS,
                forall|k: int| 0 <= k < i ==> (#[trigger] self.sessions@[k].id) == ss0[k].id,
                forall|k: int| 0 <= k < i ==> (#[trigger] self.sessions@[k].reader.buffer@)
                    == spec_tail(ss0[k].reader.buffer@),
                forall|k: int| i <= k < ss0.len() ==> (#[trigger] self.sessions@[k]) == ss0[k],
                forall|k: int| 0 <= k < i ==> (#[trigger] self.state.players@[k])
                    == spec_update_player(ps0[k], its[k].x_input as int, its[k].y_input as int,
                    delta as int),
                forall|k: int| 0 <= k < i ==> (#[trigger] self.state.players@[k]).wf(),
                forall|k: int| i <= k < ps0.len() ==> (#[trigger] self.state.players@[k])
                    == ps0[k],
                forall|k: int| 0 <= k < ps0.len() ==> (#[trigger] ps0[k]).wf(),
                self.state.bullets@ == old(self).state.bullets@ + spec_spawned(
                    self.state.players@.take(i as int), its.take(i as int)),
                forall|k: int| 0 <= k < self.state.bullets@.len() ==> (#[trigger] self.state.bullets@[k]).wf(),
                forall|k: int| 0 <= k < self.state.bullets@.len() ==> spec_alive(
                    #[trigger] self.state.bullets@[k]),
        {
            proof {
                assert(self.sessions@[i as int] == ss0[i as int]);
                assert(self.state.players@[i as int] == ps0[i as int]);
            }
            let ghost ss_pre = self.sessions@;
            let ghost ps_pre = self.state.players@;
            let ghost spawned_pre = spec_spawned(ps_pre.take(i as int), its.take(i as int));
            let session = &mut self.sessions[i];
            let intent = poll_intent(&mut session.reader);
            proof {
                assert(intent == its[i as int]);
            }
            update_player_position(&mut self.state.players[i], intent.x_input, intent.y_input,
                delta);
            let ghost ps_now = self.state.players@;
            proof {
                assert(ps_now.take(i as int) =~= ps_pre.take(i as int));
                assert(spec_spawned(ps_now.take(i as int), its.take(i as int)) == spawned_pre);
                assert(ps_now.take(i + 1).drop_last() =~= ps_now.take(i as int));
                assert(ps_now.take(i + 1).last() == ps_now[i as int]);
                assert(its.take(i + 1).drop_last() =~= its.take(i as int));
                assert(its.take(i + 1).last() == its[i as int]);
            }
            if intent.shoot {
                let b = self.state.players[i].shoot();
                self.state.bullets.push(b);
                proof {
                    assert(self.state.bullets@ =~= old(self).state.bullets@ + spec_spawned(
                        ps_now.take(i + 1), its.take(i + 1)));
                }
            } else {
                proof {
                    assert(spec_spawned(ps_now.take(i + 1), its.take(i + 1)) == spec_spawned(
                        ps_now.take(i as int), its.take(i as int)));
                }
            }
            proof {
                assert(self.sessions@.len() == ss_pre.len());
                assert forall|k: int| 0 <= k < i + 1 implies (
                #[trigger] self.sessions@[k].reader.buffer@) == spec_tail(
                    ss0[k].reader.buffer@) by {
                    if k < i {
                        assert(self.sessions@[k] == ss_pre[k]);
                        assert(ss_pre[k].reader.buffer@ == spec_tail(ss0[k].reader.buffer@));
                    } else {
                        assert(self.sessions@[i as int].reader.buffer@ == spec_tail(
                            ss0[i as int].reader.buffer@));
                    }
                }
            }
        }
        proof {
            assert(self.state.players@.take(ns as int) =~= self.state.players@);
            assert(its.take(ns as int) =~= its);
        }
    }

    /// One simulation step, phases in the fixed order: advance and
    /// expire every bullet that already existed, then fold each
    /// session's inbound frames and apply them — so a bullet spawned
    /// this tick joins the world now but first moves next tick.
    pub fn tick(&mut self, delta: u32)
        requires
            old(self).wf(),
            0 < delta <= MAX_DELTA_MS,
        ensures
            final(self).wf(),
            final(self).next_id == old(self).next_id,
            final(self).sessions@.len() == old(self).sessions@.len(),
            forall|i: int| 0 <= i < old(self).sessions@.len() ==> (#[trigger] final(
                self).sessions@[i].id) == old(self).sessions@[i].id,
            forall|i: int| 0 <= i < old(self).sessions@.len() ==> (#[trigger] final(
                self).sessions@[i].reader.buffer@) == spec_tail(
                old(self).sessions@[i].reader.buffer@),
            final(self).state.players@.len() == old(self).state.players@.len(),
            forall|i: int| 0 <= i < old(self).state.players@.len() ==> (#[trigger] final(
                self).state.players@[i]) == spec_update_player(
                old(self).state.players@[i],
                spec_intents(old(self).sessions@)[i].x_input as int,
                spec_intents(old(self).sessions@)[i].y_input as int,
                delta as int,
            ),
            final(self).state.bullets@ == spec_step_bullets(old(self).state.bullets@,
                delta as int) + spec_spawned(final(self).state.players@,
                spec_intents(old(self).sessions@)),
    {
        let nb: usize = self.state.bullets.len();
        let mut bullets2: Vec<Bullet> = Vec::new();
        let ghost bs0 = self.state.bullets@;
        for i in 0..nb
            invariant
                nb == bs0.len(),
                self.state.bullets@ == bs0,
                0 < delta <= MAX_DELTA_MS,
                forall|k: int| 0 <= k < bs0.len() ==> (#[trigger] bs0[k]).wf(),
                forall|k: int| 0 <= k < bs0.len() ==> spec_alive(#[trigger] bs0[k]),
                bullets2@ == spec_step_bullets(bs0.take(i as int), delta as int),
                forall|k: int| 0 <= k < bullets2@.len() ==> (#[trigger] bullets2@[k]).wf(),
                forall|k: int| 0 <= k < bullets2@.len() ==> spec_alive(#[trigger] bullets2@[k]),
        {
            let mut b: Bullet = self.state.bullets[i];
            let expired = b.update(delta);
            proof {
                assert(bs0.take(i + 1).drop_last() =~= bs0.take(i as int));
                assert(bs0.take(i + 1).last() == bs0[i as int]);
            }
            if !expired {
                bullets2.push(b);
            }
        }
        proof {
            assert(bs0.take(nb as int) =~= bs0);
        }
        self.state.bullets = bullets2;
        self.apply_intents(delta);
    }
}

/// The players surviving a prune: those whose id is not on the dead
/// list, kept in order and unchanged.
pub open spec fn spec_keep_players(ps: Seq<Player>, dead: Seq<u64>) -> Seq<Player>
    decreases ps.len(),
{
    if ps.len() == 0 {
        Seq::empty()
    } else {
        let rest = spec_keep_players(ps.skip(1), dead);
        if dead.contains(ps[0].id) {
            rest
        } else {
            seq![ps[0]] + rest
        }
    }
}

/// The sessions surviving a prune, mirroring [`spec_keep_players`].
pub open spec fn spec_keep_sessions(ss: Seq<Session>, dead: Seq<u64>) -> Seq<Session>
    decreases ss.len(),
{
    if ss.len() == 0 {
        Seq::empty()
    } else {
        let rest = spec_keep_sessions(ss.skip(1), dead);
        if dead.contains(ss[0].id) {
            rest
        } else {
            seq![ss[0]] + rest
        }
    }
}

/// Disconnect isolation: pruning removes exactly the dead ids — no
/// surviving session or player carries one — while every live session
/// and its player are kept, untouched, still aligned pair by pair, in
/// the same relative order, with ids still strictly increasing and
/// below the allocator cursor.
pub proof fn lemma_disconnect_isolation(ps: Seq<Player>, ss: Seq<Session>, dead: Seq<u64>,
    bound: u64)
    requires
        ps.len() == ss.len(),
        forall|i: int| 0 <= i < ss.len() ==> (#[trigger] ps[i].id) == ss[i].id,
        forall|i: int, k: int| 0 <= i < k < ss.len() ==> (#[trigger] ss[i].id) < (#[trigger] ss[k].id),
        forall|i: int| 0 <= i < ss.len() ==> (#[trigger] ss[i].id) < bound,
        forall|i: int| 0 <= i < ps.len() ==> (#[trigger] ps[i]).wf(),
    ensures
        spec_keep_players(ps, dead).len() == spec_keep_sessions(ss, dead).len(),
        forall|i: int| 0 <= i < spec_keep_sessions(ss, dead).len() ==> (#[trigger] spec_keep_players(
            ps, dead)[i].id) == spec_keep_sessions(ss, dead)[i].id,
        forall|i: int, k: int| 0 <= i < k < spec_keep_sessions(ss, dead).len() ==> (
        #[trigger] spec_keep_sessions(ss, dead)[i].id) < (#[trigger] spec_keep_sessions(ss,
            dead)[k].id),
        forall|i: int| 0 <= i < spec_keep_sessions(ss, dead).len() ==> (
        #[trigger] spec_keep_sessions(ss, dead)[i].id) < bound,
        forall|i: int| 0 <= i < spec_keep_players(ps, dead).len() ==> (#[trigger] spec_keep_players(
            ps, dead)[i]).wf(),
        forall|i: int| 0 <= i < spec_keep_sessions(ss, dead).len() ==> !dead.contains(
            (#[trigger] spec_keep_sessions(ss, dead)[i]).id),
        ss.len() > 0 ==> forall|i: int| 0 <= i < spec_keep_sessions(ss, dead).len() ==> (
        #[trigger] spec_keep_sessions(ss, dead)[i].id) >= ss[0].id,
        forall|i: int| 0 <= i < ss.len() && !dead.contains(ss[i].id) ==> spec_keep_sessions(ss,
            dead).contains(#[trigger] ss[i]) && spec_keep_players(ps, dead).contains(ps[i]),
    decreases ss.len(),
{
    if ss.len() > 0 {
        lemma_disconnect_isolation(ps.skip(1), ss.skip(1), dead, bound);
        let ps2 = spec_keep_players(ps, dead);
        let ss2 = spec_keep_sessions(ss, dead);
        let rps = spec_keep_players(ps.skip(1), dead);
        let rss = spec_keep_sessions(ss.skip(1), dead);
        assert(ps[0].id == ss[0].id);
        if dead.contains(ss[0].id) {
            assert(ps2 == rps);
            assert(ss2 == rss);
            assert forall|i: int| 0 <= i < ss.len() && !dead.contains(ss[i].id) implies
                ss2.contains(#[trigger] ss[i]) && ps2.contains(ps[i]) by {
                if i > 0 {
                    assert(ss.skip(1)[i - 1] == ss[i]);
                    assert(ps.skip(1)[i - 1] == ps[i]);
                }
            }
        } else {
            assert(ps2 == seq![ps[0]] + rps);
            assert(ss2 == seq![ss[0]] + rss);
            assert forall|i: int| 0 <= i < ss2.len() implies (#[trigger] ss2[i].id) >= ss[0].id
                by {
                if i > 0 {
                    assert(ss2[i] == rss[i - 1]);
                    if ss.len() > 1 {
                        assert(rss[i - 1].id >= ss.skip(1)[0].id);
                        assert(ss.skip(1)[0].id == ss[1].id);
                    }
                }
            }
            assert forall|i: int| 0 <= i < ss.len() && !dead.contains(ss[i].id) implies
                ss2.contains(#[trigger] ss[i]) && ps2.contains(ps[i]) by {
                if i == 0 {
                    assert(ss2[0] == ss[0]);
                    assert(ps2[0] == ps[0]);
                } else {
                    assert(ss.skip(1)[i - 1] == ss[i]);
                    assert(ps.skip(1)[i - 1] == ps[i]);
                    assert(rss.contains(ss[i]));
                    assert(rps.contains(ps[i]));
                    let w = choose|w: int| 0 <= w < rss.len() && rss[w] == ss[i];
                    assert(ss2[w + 1] == ss[i]);
                    let v = choose|v: int| 0 <= v < rps.len() && rps[v] == ps[i];
                    assert(ps2[v + 1] == ps[i]);
                }
            }
        }
    }
}

/// Whether an id is on the dead list.
fn contains_id(dead: &Vec<u64>, id: u64) -> (r: bool)
    ensures
        r == dead@.contains(id),
{
    let n: usize = dead.len();
    for i in 0..n
        invariant
            n == dead@.len(),
            forall|k: int| 0 <= k < i ==> #[trigger] dead@[k] != id,
    {
        if dead[i] == id {
            proof {
                assert(dead@[i as int] == id);
            }
            return true;
        }
    }
    false
}

impl Server {
    /// The prune phase: removes every session whose id is on the dead
    /// list, and its player in the same pass, so the very next
    /// broadcast never carries a player whose socket is gone. Every
    /// other session is untouched.
    pub fn remove_sessions(&mut self, dead: &Vec<u64>)
        requires
            old(self).wf(),
        ensures
            final(self).wf(),
            final(self).next_id == old(self).next_id,
            final(self).state.bullets@ == old(self).state.bullets@,
            final(self).state.players@ == spec_keep_players(old(self).state.players@, dead@),
            final(self).sessions@ == spec_keep_sessions(old(self).sessions@, dead@),
    {
        let ghost ps0 = self.state.players@;
        let ghost ss0 = self.sessions@;
        let mut i: usize = self.sessions.len();
        while i > 0
            invariant
                old(self).wf(),
                ps0 == old(self).state.players@,
                ss0 == old(self).sessions@,
                i <= ss0.len(),
                ps0.len() == ss0.len(),
                self.next_id == old(self).next_id,
                self.state.bullets@ == old(self).state.bullets@,
                self.state.players@ == ps0.take(i as int) + spec_keep_players(
                    ps0.skip(i as int), dead@),
                self.sessions@ == ss0.take(i as int) + spec_keep_sessions(
                    ss0.skip(i as int), dead@),
            decreases i,
        {
            i = i - 1;
            proof {
                assert(ss0.skip(i as int)[0] == ss0[i as int]);
                assert(ss0.skip(i as int).skip(1) =~= ss0.skip(i + 1));
                assert(ps0.skip(i as int)[0] == ps0[i as int]);
                assert(ps0.skip(i as int).skip(1) =~= ps0.skip(i + 1));
                assert(self.sessions@[i as int] == ss0[i as int]);
                assert(ps0[i as int].id == ss0[i as int].id);
            }
            let id: u64 = self.sessions[i].id;
            if contains_id(dead, id) {
                self.sessions.remove(i);
                self.state.players.remove(i);
                proof {
                    assert(self.sessions@ =~= ss0.take(i as int) + spec_keep_sessions(
                        ss0.skip(i as int), dead@));
                    assert(self.state.players@ =~= ps0.take(i as int) + spec_keep_players(
                        ps0.skip(i as int), dead@));
                }
            } else {
                proof {
                    assert(self.sessions@ =~= ss0.take(i as int) + spec_keep_sessions(
                        ss0.skip(i as int), dead@));
                    assert(self.state.players@ =~= ps0.take(i as int) + spec_keep_players(
                        ps0.skip(i as int), dead@));
                }
            }
        }
        proof {
            assert(ss0.skip(0) =~= ss0);
            assert(ps0.skip(0) =~= ps0);
            assert(self.sessions@ =~= spec_keep_sessions(ss0, dead@));
            assert(self.state.players@ =~= spec_keep_players(ps0, dead@));
            lemma_disconnect_isolation(ps0, ss0, dead@, old(self).next_id);
        }
    }

    /// The broadcast frame of the current state: the encoded snapshot,
    /// closed with the delimiter, written verbatim to every live
    /// session this tick.
    pub fn broadcast_frame(&self) -> (r: Vec<u8>)
        requires
            self.wf(),
        ensures
            r@ == spec_enc_server(ServerMessage::GameState(self.state)) + seq![0u8],
    {
        let mut frame = encode_state(&self.state);
        frame.push(0);
        proof {
            assert(frame@ =~= spec_enc_server(ServerMessage::GameState(self.state))
                + seq![0u8]);
        }
        frame
    }
}

/// The handshake frame for a freshly accepted connection: the id
/// assignment, closed with the delimiter. It is sent before the
/// session is registered; if the send fails the connection is
/// discarded and the id stays consumed.
pub fn assign_id_frame(id: u64) -> (r: Vec<u8>)
    ensures
        r@ == spec_enc_server(ServerMessage::AssignId(id)) + seq![0u8],
{
    let mut frame = encode_server(&ServerMessage::AssignId(id));
    frame.push(0);
    proof {
        assert(frame@ =~= spec_enc_server(ServerMessage::AssignId(id)) + seq![0u8]);
    }
    frame
}

/// What issuing one identity does: hands out the cursor and moves it
/// up by one; nothing else changes.
pub open spec fn spec_allocate(s: Server) -> (Server, u64) {
    (Server { state: s.state, sessions: s.sessions, next_id: (s.next_id + 1) as u64 }, s.next_id)
}

/// The ids that a run of sequential accepts issues, in order.
pub open spec fn spec_issued(s: Server, n: nat) -> Seq<u64>
    decreases n,
{
    if n == 0 {
        Seq::empty()
    } else {
        seq![spec_allocate(s).1] + spec_issued(spec_allocate(s).0, (n - 1) as nat)
    }
}

/// Identity monotonicity: any number of sequential accepts yields
/// strictly increasing, never-repeating ids, each fresh — strictly
/// above every id a registered session already carries — however many
/// of those sessions have disconnected meanwhile.
pub proof fn lemma_identity_monotonic(s: Server, n: nat)
    requires
        s.next_id + n <= u64::MAX,
    ensures
        spec_issued(s, n).len() == n,
        forall|i: int| 0 <= i < n ==> spec_issued(s, n)[i] == s.next_id + i,
        forall|i: int, k: int| 0 <= i < k < n ==> spec_issued(s, n)[i] < spec_issued(s, n)[k],
        s.wf() ==> forall|i: int, j: int|
            0 <= i < n && 0 <= j < s.sessions@.len() ==> (#[trigger] spec_issued(s, n)[i]) > (
            #[trigger] s.sessions@[j]).id,
    decreases n,
{
    if n > 0 {
        lemma_identity_monotonic(spec_allocate(s).0, (n - 1) as nat);
        assert forall|i: int| 0 <= i < n implies spec_issued(s, n)[i] == s.next_id + i by {
            if i > 0 {
                assert(spec_issued(s, n)[i] == spec_issued(spec_allocate(s).0, (n - 1) as nat)[i
                    - 1]);
            }
        }
    }
}

/// The speed a plane ends at after any whole sequence of integration
/// steps, each pairing a forward-axis input with a step length.
pub open spec fn spec_integrate_speed(speed: int, steps: Seq<(int, int)>) -> int
    decreases steps.len(),
{
    if steps.len() == 0 {
        speed
    } else {
        spec_integrate_speed(spec_new_speed(speed, steps[0].0, steps[0].1), steps.skip(1))
    }
}

/// Speed clamp: starting anywhere inside `[MIN_SPEED, MAX_SPEED]`, no
/// sequence of inputs and step lengths ever drives the integrated speed
/// out of that band.
pub proof fn lemma_speed_clamp(speed: int, steps: Seq<(int, int)>)
    requires
        MIN_SPEED <= speed <= MAX_SPEED,
    ensures
        MIN_SPEED <= spec_integrate_speed(speed, steps) <= MAX_SPEED,
    decreases steps.len(),
{
    if steps.len() > 0 {
        lemma_speed_clamp(spec_new_speed(speed, steps[0].0, steps[0].1), steps.skip(1));
    }
}

} // verus!
