use plen::messages::{
    encode_client, decode_client, encode_server, encode_state, ClientMessage, ServerMessage,
    SoundEffect,
};
use plen::gamestate::GameState;
use plen::player::Player;
use plen::bullet::Bullet;

#[test]
fn encode_ping_and_shoot_are_single_tags() {
    assert_eq!(encode_client(&ClientMessage::Ping), b"P".to_vec());
    assert_eq!(encode_client(&ClientMessage::Shoot), b"S".to_vec());
}

#[test]
fn encode_input_spells_both_axes() {
    let m = ClientMessage::Input { x_input: 1000, y_input: -250 };
    assert_eq!(encode_client(&m), b"I 1000 -250".to_vec());
    let z = ClientMessage::Input { x_input: 0, y_input: 0 };
    assert_eq!(encode_client(&z), b"I 0 0".to_vec());
}

#[test]
fn decode_round_trips_every_shape() {
    let msgs = [
        ClientMessage::Ping,
        ClientMessage::Shoot,
        ClientMessage::Input { x_input: 0, y_input: 0 },
        ClientMessage::Input { x_input: -1000, y_input: 1000 },
        ClientMessage::Input { x_input: 37, y_input: -5 },
    ];
    for m in msgs.iter() {
        let bytes = encode_client(m);
        assert_eq!(decode_client(&bytes), Some(*m));
    }
}

#[test]
fn decode_rejects_malformed_frames() {
    assert_eq!(decode_client(b""), None);
    assert_eq!(decode_client(b"Q"), None);
    assert_eq!(decode_client(b"PP"), None);
    assert_eq!(decode_client(b"I "), None);
    assert_eq!(decode_client(b"I 10"), None);
    assert_eq!(decode_client(b"I 1 2 3"), None);
    assert_eq!(decode_client(b"I a b"), None);
    assert_eq!(decode_client(b"I 1001 0"), None);
    assert_eq!(decode_client(b"I 0 -1001"), None);
    assert_eq!(decode_client(b"I  5 5"), None);
}

#[test]
fn decode_accepts_axis_extremes_only() {
    assert_eq!(
        decode_client(b"I 1000 -1000"),
        Some(ClientMessage::Input { x_input: 1000, y_input: -1000 })
    );
    assert_eq!(decode_client(b"I -1000 1000"), Some(ClientMessage::Input {
        x_input: -1000,
        y_input: 1000,
    }));
}

#[test]
fn server_messages_encode_exactly() {
    assert_eq!(encode_server(&ServerMessage::AssignId(7)), b"A 7".to_vec());
    assert_eq!(encode_server(&ServerMessage::AssignId(0)), b"A 0".to_vec());
    assert_eq!(
        encode_server(&ServerMessage::AssignId(18446744073709551615)),
        b"A 18446744073709551615".to_vec()
    );
    assert_eq!(encode_server(&ServerMessage::YouDied), b"Y".to_vec());
    assert_eq!(
        encode_server(&ServerMessage::PlaySound(SoundEffect::Gun, 5, 6)),
        b"L g 5 6".to_vec()
    );
    assert_eq!(
        encode_server(&ServerMessage::PlaySound(SoundEffect::Powerup, 0, 0)),
        b"L p 0 0".to_vec()
    );
    assert_eq!(
        encode_server(&ServerMessage::PlaySound(SoundEffect::Explosion, 1, 2)),
        b"L e 1 2".to_vec()
    );
}

#[test]
fn empty_snapshot_encodes_counts_only() {
    let gs = GameState::new();
    assert_eq!(encode_state(&gs), b"G 0 0".to_vec());
}

#[test]
fn snapshot_lists_player_then_bullet_fields() {
    let mut gs = GameState::new();
    gs.add_player(Player::new(4, 10_000, 20_000));
    gs.add_bullet(Bullet {
        x: 1,
        y: 2,
        velocity_x: -600_000,
        velocity_y: 0,
        distance_travelled: 30,
        owner: 4,
    });
    assert_eq!(
        encode_state(&gs),
        b"G 1 1 4 10000 20000 0 0 0 50000 1 2 -600000 0 30 4".to_vec()
    );
}

#[test]
fn no_frame_content_contains_the_delimiter() {
    let mut gs = GameState::new();
    gs.add_player(Player::new(0, 10_000, 10_000));
    let frames = [
        encode_client(&ClientMessage::Input { x_input: -1000, y_input: 1000 }),
        encode_server(&ServerMessage::AssignId(1000)),
        encode_state(&gs),
    ];
    for f in frames.iter() {
        assert!(f.iter().all(|b| *b != 0));
    }
}
