//! The typed messages of the wire protocol and their textual encoding.
//!
//! A frame's content is ASCII: a one-letter tag, then space-separated
//! decimal fields. The content never contains the `0x00` frame
//! delimiter, which is what lets the stream framer split on it.

use vstd::prelude::*;
use crate::bullet::Bullet;
use crate::codec::{
    spec_digits, spec_sint, spec_parse_sint, no_zero_byte, find_byte_from,
    lemma_digits_are_digits, lemma_digit_run_bytes, lemma_parse_sint_round_trip,
    lemma_find_byte_exact, lemma_find_byte_skip, push_digits, push_sint, parse_sint_range,
    find_byte,
};
use crate::constants::INPUT_SCALE;
use crate::gamestate::GameState;
use crate::player::Player;

verus! {

/// Sounds the server can ask a client to play.
#[derive(Clone, Copy, PartialEq, Eq, Structural, Debug)]
pub enum SoundEffect {
    Powerup,
    Gun,
    Explosion,
}

/// Client intent, one value per frame. `Input` carries the most recent
/// joystick axes in milli-units of `[-1, 1]`; within a tick the last
/// one wins.
#[derive(Clone, Copy, PartialEq, Eq, Structural, Debug)]
pub enum ClientMessage {
    Ping,
    Shoot,
    Input { x_input: i32, y_input: i32 },
}

/// Server to client: the identity handshake, the per-tick full state
/// snapshot, a positioned sound cue, or the terminal notice.
#[derive(Clone, Debug)]
pub enum ServerMessage {
    AssignId(u64),
    GameState(GameState),
    PlaySound(SoundEffect, u64, u64),
    YouDied,
}

/// A client message whose axes stay inside the advertised `[-1, 1]`
/// range.
pub open spec fn client_msg_wf(m: ClientMessage) -> bool {
    match m {
        ClientMessage::Input { x_input, y_input } => {
            &&& -INPUT_SCALE <= x_input <= INPUT_SCALE
            &&& -INPUT_SCALE <= y_input <= INPUT_SCALE
        },
        _ => true,
    }
}

/// Encoding of a client message: `P`, `S`, or `I` with the two signed
/// axes.
pub open spec fn spec_enc_client(m: ClientMessage) -> Seq<u8> {
    match m {
        ClientMessage::Ping => seq![80u8],
        ClientMessage::Shoot => seq![83u8],
        ClientMessage::Input { x_input, y_input } => seq![73u8, 32u8] + spec_sint(
            x_input as int) + seq![32u8] + spec_sint(y_input as int),
    }
}

/// Decoding of the two space-separated axis tokens behind an `I` tag:
/// both must parse as signed decimals inside `[-1000, 1000]`, with
/// nothing after the second.
pub open spec fn spec_dec_input_tokens(t: Seq<u8>) -> Option<ClientMessage> {
    let j = find_byte_from(t, 32, 0);
    if j >= t.len() {
        None
    } else if find_byte_from(t, 32, j + 1) < t.len() {
        None
    } else {
        match (spec_parse_sint(t.take(j)), spec_parse_sint(t.skip(j + 1))) {
            (Some(x), Some(y)) => {
                if -INPUT_SCALE <= x <= INPUT_SCALE && -INPUT_SCALE <= y <= INPUT_SCALE {
                    Some(ClientMessage::Input { x_input: x as i32, y_input: y as i32 })
                } else {
                    None
                }
            },
            _ => None,
        }
    }
}

/// What decoding a frame's content yields; anything that is not the
/// exact encoding of a well-formed client message is rejected.
pub open spec fn spec_dec_client(s: Seq<u8>) -> Option<ClientMessage> {
    if s.len() == 1 && s[0] == 80 {
        Some(ClientMessage::Ping)
    } else if s.len() == 1 && s[0] == 83 {
        Some(ClientMessage::Shoot)
    } else if s.len() >= 2 && s[0] == 73 && s[1] == 32 {
        spec_dec_input_tokens(s.skip(2))
    } else {
        None
    }
}

/// Encodes a client message; see [`spec_enc_client`].
pub fn encode_client(m: &ClientMessage) -> (r: Vec<u8>)
    ensures
        r@ == spec_enc_client(*m),
{
    let mut out: Vec<u8> = Vec::new();
    match m {
        ClientMessage::Ping => {
            out.push(80);
            assert(out@ =~= spec_enc_client(*m));
        },
        ClientMessage::Shoot => {
            out.push(83);
            assert(out@ =~= spec_enc_client(*m));
        },
        ClientMessage::Input { x_input, y_input } => {
            out.push(73);
            out.push(32);
            assert(out@ =~= seq![73u8, 32u8]);
            push_sint(&mut out, *x_input as i64);
            out.push(32);
            assert(out@ =~= seq![73u8, 32u8] + spec_sint(*x_input as int) + seq![32u8]);
            push_sint(&mut out, *y_input as i64);
            assert(out@ =~= spec_enc_client(*m));
        },
    }
    out
}

/// Decodes one frame's content as a client message; see
/// [`spec_dec_client`].
pub fn decode_client(frame: &[u8]) -> (r: Option<ClientMessage>)
    ensures
        r == spec_dec_client(frame@),
{
    let n: usize = frame.len();
    if n == 1 && frame[0] == 80 {
        return Some(ClientMessage::Ping);
    }
    if n == 1 && frame[0] == 83 {
        return Some(ClientMessage::Shoot);
    }
    if n >= 2 && frame[0] == 73 && frame[1] == 32 {
        let t = Ghost(frame@.skip(2));
        let j_abs: usize = find_byte(frame, 32, 2);
        proof {
            lemma_find_byte_skip(frame@, 32, 2, 2);
            assert(find_byte_from(t@, 32, 0) == j_abs - 2);
        }
        if j_abs >= n {
            return None;
        }
        let j2_abs: usize = find_byte(frame, 32, j_abs + 1);
        proof {
            lemma_find_byte_skip(frame@, 32, 2, j_abs + 1);
            assert(find_byte_from(t@, 32, j_abs - 2 + 1) == j2_abs - 2);
        }
        if j2_abs < n {
            return None;
        }
        proof {
            assert(t@.take(j_abs - 2) =~= frame@.subrange(2, j_abs as int));
            assert(t@.skip(j_abs - 2 + 1) =~= frame@.subrange(j_abs + 1, n as int));
        }
        let x = parse_sint_range(frame, 2, j_abs);
        let y = parse_sint_range(frame, j_abs + 1, n);
        match (x, y) {
            (Some(xv), Some(yv)) => {
                if -1000 <= xv && xv <= 1000 && -1000 <= yv && yv <= 1000 {
                    Some(ClientMessage::Input { x_input: xv as i32, y_input: yv as i32 })
                } else {
                    None
                }
            },
            _ => None,
        }
    } else {
        None
    }
}

/// The encoding of a well-formed client message never contains the
/// frame delimiter.
pub proof fn lemma_enc_client_no_zero(m: ClientMessage)
    ensures
        no_zero_byte(spec_enc_client(m)),
{
    match m {
        ClientMessage::Ping => {},
        ClientMessage::Shoot => {},
        ClientMessage::Input { x_input, y_input } => {
            lemma_sint_no_zero(x_input as int);
            lemma_sint_no_zero(y_input as int);
            let a = spec_sint(x_input as int);
            let b = spec_sint(y_input as int);
            let s = spec_enc_client(m);
            assert(s =~= seq![73u8, 32u8] + a + seq![32u8] + b);
            assert forall|i: int| 0 <= i < s.len() implies #[trigger] s[i] != 0 by {
                if 2 <= i < 2 + a.len() {
                    assert(s[i] == a[i - 2]);
                } else if 2 + a.len() + 1 <= i {
                    assert(s[i] == b[i - (2 + a.len() + 1)]);
                }
            }
        },
    }
}

/// A signed token never contains the frame delimiter.
pub proof fn lemma_sint_no_zero(v: int)
    ensures
        no_zero_byte(spec_sint(v)),
{
    if v >= 0 {
        lemma_digits_are_digits(v as nat);
        lemma_digit_run_bytes(spec_digits(v as nat));
    } else {
        lemma_digits_are_digits((-v) as nat);
        lemma_digit_run_bytes(spec_digits((-v) as nat));
        let d = spec_digits((-v) as nat);
        let s = spec_sint(v);
        assert forall|i: int| 0 <= i < s.len() implies #[trigger] s[i] != 0 by {
            if i >= 1 {
                assert(s[i] == d[i - 1]);
            }
        }
    }
}

/// Decoding the encoding of a well-formed client message gives the
/// message back: the codec loses nothing.
pub proof fn lemma_client_round_trip(m: ClientMessage)
    requires
        client_msg_wf(m),
    ensures
        spec_dec_client(spec_enc_client(m)) == Some(m),
{
    match m {
        ClientMessage::Ping => {},
        ClientMessage::Shoot => {},
        ClientMessage::Input { x_input, y_input } => {
            let a = spec_sint(x_input as int);
            let b = spec_sint(y_input as int);
            let s = spec_enc_client(m);
            assert(s =~= seq![73u8, 32u8] + a + seq![32u8] + b);
            lemma_sint_no_space(x_input as int);
            lemma_sint_no_space(y_input as int);
            assert(s.len() >= 2 && s[0] == 73 && s[1] == 32);
            let t = s.skip(2);
            assert(t =~= a + seq![32u8] + b);
            let ja = a.len() as int;
            assert forall|i: int| 0 <= i < ja implies #[trigger] t[i] != 32 by {
                assert(t[i] == a[i]);
            }
            assert(t[ja] == 32);
            lemma_find_byte_exact(t, 32, 0, ja);
            assert forall|i: int| ja + 1 <= i < t.len() implies #[trigger] t[i] != 32 by {
                assert(t[i] == b[i - (ja + 1)]);
            }
            lemma_find_byte_exact(t, 32, ja + 1, t.len() as int);
            assert(t.take(ja) =~= a);
            assert(t.skip(ja + 1) =~= b);
            lemma_parse_sint_round_trip(x_input as int);
            lemma_parse_sint_round_trip(y_input as int);
            assert(spec_dec_input_tokens(t) == Some(m));
        },
    }
}

/// Whatever the decoder accepts is well-formed: the axis range check
/// is part of decoding.
pub proof fn lemma_dec_client_wf(s: Seq<u8>)
    ensures
        spec_dec_client(s) is Some ==> client_msg_wf(spec_dec_client(s).unwrap()),
{
}

/// A signed token never contains a space.
pub proof fn lemma_sint_no_space(v: int)
    ensures
        forall|i: int| 0 <= i < spec_sint(v).len() ==> #[trigger] spec_sint(v)[i] != 32,
{
    if v >= 0 {
        lemma_digits_are_digits(v as nat);
        lemma_digit_run_bytes(spec_digits(v as nat));
    } else {
        lemma_digits_are_digits((-v) as nat);
        lemma_digit_run_bytes(spec_digits((-v) as nat));
        let d = spec_digits((-v) as nat);
        let s = spec_sint(v);
        assert forall|i: int| 0 <= i < s.len() implies #[trigger] s[i] != 32 by {
            if i >= 1 {
                assert(s[i] == d[i - 1]);
            }
        }
    }
}

/// One space-led unsigned field of the snapshot encoding.
pub open spec fn spec_field_u(n: nat) -> Seq<u8> {
    seq![32u8] + spec_digits(n)
}

/// One space-led signed field of the snapshot encoding.
pub open spec fn spec_field_s(v: int) -> Seq<u8> {
    seq![32u8] + spec_sint(v)
}

/// Encoding of one player: id, position, velocity, rotation and speed,
/// each as a space-led decimal field.
pub open spec fn spec_enc_player(p: Player) -> Seq<u8> {
    spec_field_u(p.id as nat) + spec_field_u(p.x as nat) + spec_field_u(p.y as nat)
        + spec_field_s(p.velocity_x as int) + spec_field_s(p.velocity_y as int) + spec_field_u(
        p.rotation as nat) + spec_field_u(p.speed as nat)
}

/// Encoding of one bullet: position, velocity, odometer and owner, each
/// as a space-led decimal field.
pub open spec fn spec_enc_bullet(b: Bullet) -> Seq<u8> {
    spec_field_u(b.x as nat) + spec_field_u(b.y as nat) + spec_field_s(b.velocity_x as int)
        + spec_field_s(b.velocity_y as int) + spec_field_u(b.distance_travelled as nat)
        + spec_field_u(b.owner as nat)
}

/// Encoding of the players in order.
pub open spec fn spec_enc_players(ps: Seq<Player>) -> Seq<u8>
    decreases ps.len(),
{
    if ps.len() == 0 {
        Seq::empty()
    } else {
        spec_enc_players(ps.drop_last()) + spec_enc_player(ps.last())
    }
}

/// Encoding of the bullets in order.
pub open spec fn spec_enc_bullets(bs: Seq<Bullet>) -> Seq<u8>
    decreases bs.len(),
{
    if bs.len() == 0 {
        Seq::empty()
    } else {
        spec_enc_bullets(bs.drop_last()) + spec_enc_bullet(bs.last())
    }
}

/// Tag byte of a sound cue.
pub open spec fn spec_enc_sound(e: SoundEffect) -> Seq<u8> {
    match e {
        SoundEffect::Powerup => seq![112u8],
        SoundEffect::Gun => seq![103u8],
        SoundEffect::Explosion => seq![101u8],
    }
}

/// Encoding of a server message: `A` with the id, `G` with both counts
/// and then every player and bullet, `L` with a sound and a position,
/// or a bare `Y`.
pub open spec fn spec_enc_server(m: ServerMessage) -> Seq<u8> {
    match m {
        ServerMessage::AssignId(id) => seq![65u8] + spec_field_u(id as nat),
        ServerMessage::YouDied => seq![89u8],
        ServerMessage::PlaySound(e, x, y) => seq![76u8, 32u8] + spec_enc_sound(e) + spec_field_u(
            x as nat) + spec_field_u(y as nat),
        ServerMessage::GameState(gs) => seq![71u8] + spec_field_u(gs.players@.len())
            + spec_field_u(gs.bullets@.len()) + spec_enc_players(gs.players@) + spec_enc_bullets(
            gs.bullets@),
    }
}

/// Every velocity in a snapshot can be negated without overflow, so
/// each signed field has an encoding.
pub open spec fn state_enc_wf(gs: GameState) -> bool {
    &&& (forall|i: int| 0 <= i < gs.players@.len() ==> (#[trigger] gs.players@[i]).velocity_x
        > i64::MIN && gs.players@[i].velocity_y > i64::MIN)
    &&& (forall|i: int| 0 <= i < gs.bullets@.len() ==> (#[trigger] gs.bullets@[i]).velocity_x
        > i64::MIN && gs.bullets@[i].velocity_y > i64::MIN)
}

/// A server message whose snapshot, if it carries one, is encodable.
pub open spec fn server_msg_wf(m: ServerMessage) -> bool {
    match m {
        ServerMessage::GameState(gs) => state_enc_wf(gs),
        _ => true,
    }
}

/// Appends one space-led unsigned field.
fn push_field_u(out: &mut Vec<u8>, n: u64)
    ensures
        final(out)@ == old(out)@ + spec_field_u(n as nat),
{
    out.push(32);
    push_digits(out, n);
    assert(out@ =~= old(out)@ + spec_field_u(n as nat));
}

/// Appends one space-led signed field.
fn push_field_s(out: &mut Vec<u8>, v: i64)
    requires
        v > i64::MIN,
    ensures
        final(out)@ == old(out)@ + spec_field_s(v as int),
{
    out.push(32);
    push_sint(out, v);
    assert(out@ =~= old(out)@ + spec_field_s(v as int));
}

/// Appends the encoding of one player.
fn push_player(out: &mut Vec<u8>, p: &Player)
    requires
        p.velocity_x > i64::MIN,
        p.velocity_y > i64::MIN,
    ensures
        final(out)@ == old(out)@ + spec_enc_player(*p),
{
    push_field_u(out, p.id);
    push_field_u(out, p.x);
    push_field_u(out, p.y);
    push_field_s(out, p.velocity_x);
    push_field_s(out, p.velocity_y);
    push_field_u(out, p.rotation as u64);
    push_field_u(out, p.speed as u64);
    assert(out@ =~= old(out)@ + spec_enc_player(*p));
}

/// Appends the encoding of one bullet.
fn push_bullet(out: &mut Vec<u8>, b: &Bullet)
    requires
        b.velocity_x > i64::MIN,
        b.velocity_y > i64::MIN,
    ensures
        final(out)@ == old(out)@ + spec_enc_bullet(*b),
{
    push_field_u(out, b.x);
    push_field_u(out, b.y);
    push_field_s(out, b.velocity_x);
    push_field_s(out, b.velocity_y);
    push_field_u(out, b.distance_travelled);
    push_field_u(out, b.owner);
    assert(out@ =~= old(out)@ + spec_enc_bullet(*b));
}

/// Appends every player of the snapshot, in order.
#[verifier::loop_isolation(false)]
fn push_players(out: &mut Vec<u8>, ps: &Vec<Player>)
    requires
        forall|i: int| 0 <= i < ps@.len() ==> (#[trigger] ps@[i]).velocity_x > i64::MIN
            && ps@[i].velocity_y > i64::MIN,
    ensures
        final(out)@ == old(out)@ + spec_enc_players(ps@),
{
    let np: usize = ps.len();
    for i in 0..np
        invariant
            out@ == old(out)@ + spec_enc_players(ps@.take(i as int)),
    {
        push_player(out, &ps[i]);
        proof {
            assert(ps@.take(i + 1).drop_last() =~= ps@.take(i as int));
            assert(ps@.take(i + 1).last() == ps@[i as int]);
            assert(out@ =~= old(out)@ + spec_enc_players(ps@.take(i + 1)));
        }
    }
    proof {
        assert(ps@.take(np as int) =~= ps@);
    }
}

/// Appends every bullet of the snapshot, in order.
#[verifier::loop_isolation(false)]
fn push_bullets(out: &mut Vec<u8>, bs: &Vec<Bullet>)
    requires
        forall|i: int| 0 <= i < bs@.len() ==> (#[trigger] bs@[i]).velocity_x > i64::MIN
            && bs@[i].velocity_y > i64::MIN,
    ensures
        final(out)@ == old(out)@ + spec_enc_bullets(bs@),
{
    let nb: usize = bs.len();
    for i in 0..nb
        invariant
            out@ == old(out)@ + spec_enc_bullets(bs@.take(i as int)),
    {
        push_bullet(out, &bs[i]);
        proof {
            assert(bs@.take(i + 1).drop_last() =~= bs@.take(i as int));
            assert(bs@.take(i + 1).last() == bs@[i as int]);
            assert(out@ =~= old(out)@ + spec_enc_bullets(bs@.take(i + 1)));
        }
    }
    proof {
        assert(bs@.take(nb as int) =~= bs@);
    }
}

/// Encodes the full-state snapshot message: the `G` frame every live
/// session receives each tick.
pub fn encode_state(gs: &GameState) -> (r: Vec<u8>)
    requires
        state_enc_wf(*gs),
    ensures
        r@ == spec_enc_server(ServerMessage::GameState(*gs)),
{
    let mut out: Vec<u8> = Vec::new();
    out.push(71);
    push_field_u(&mut out, gs.players.len() as u64);
    push_field_u(&mut out, gs.bullets.len() as u64);
    assert(out@ =~= seq![71u8] + spec_field_u(gs.players@.len()) + spec_field_u(
        gs.bullets@.len()));
    push_players(&mut out, &gs.players);
    push_bullets(&mut out, &gs.bullets);
    assert(out@ =~= spec_enc_server(ServerMessage::GameState(*gs)));
    out
}

/// Encodes a server message; see [`spec_enc_server`].
pub fn encode_server(m: &ServerMessage) -> (r: Vec<u8>)
    requires
        server_msg_wf(*m),
    ensures
        r@ == spec_enc_server(*m),
{
    let mut out: Vec<u8> = Vec::new();
    match m {
        ServerMessage::AssignId(id) => {
            out.push(65);
            push_field_u(&mut out, *id);
            assert(out@ =~= spec_enc_server(*m));
        },
        ServerMessage::YouDied => {
            out.push(89);
            assert(out@ =~= spec_enc_server(*m));
        },
        ServerMessage::PlaySound(e, x, y) => {
            out.push(76);
            out.push(32);
            match e {
                SoundEffect::Powerup => out.push(112),
                SoundEffect::Gun => out.push(103),
                SoundEffect::Explosion => out.push(101),
            }
            assert(out@ =~= seq![76u8, 32u8] + spec_enc_sound(*e));
            push_field_u(&mut out, *x);
            push_field_u(&mut out, *y);
            assert(out@ =~= spec_enc_server(*m));
        },
        ServerMessage::GameState(gs) => {
            return encode_state(gs);
        },
    }
    out
}

} // verus!
