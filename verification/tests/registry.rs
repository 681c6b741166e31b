use plen::constants::{MIN_SPEED, SPAWN_POSITION, TICK_MS};
use plen::powerups::{AppliedPowerup, PowerUp, PowerUpKind};
use plen::gamestate::GameState;
use plen::player::Player;
use plen::server::Server;

#[test]
fn sequential_accepts_issue_increasing_ids() {
    let mut server = Server::new();
    for expected in 0u64..3 {
        let id = server.allocate_id();
        assert_eq!(id, expected);
        assert!(server.register_session(id));
    }
    assert_eq!(server.session_count(), 3);
    assert_eq!(server.session_id(0), 0);
    assert_eq!(server.session_id(1), 1);
    assert_eq!(server.session_id(2), 2);
    assert_eq!(server.state.players.len(), 3);
    assert_eq!(server.state.players[0].id, 0);
    assert_eq!(server.state.players[0].x, SPAWN_POSITION);
    assert_eq!(server.state.players[0].speed, MIN_SPEED);
}

#[test]
fn a_failed_handshake_burns_its_id() {
    let mut server = Server::new();
    let a = server.allocate_id();
    assert!(server.register_session(a));
    let burned = server.allocate_id();
    assert_eq!(burned, 1);
    let c = server.allocate_id();
    assert_eq!(c, 2);
    assert!(server.register_session(c));
    assert!(!server.register_session(burned));
    assert_eq!(server.session_count(), 2);
    assert_eq!(server.session_id(1), 2);
}

#[test]
fn last_input_wins_and_one_bullet_spawns() {
    let mut server = Server::new();
    let id = server.allocate_id();
    assert!(server.register_session(id));
    server.feed_session(0, b"I 1000 0\0I 0 1000\0S\0");
    server.tick(TICK_MS);
    assert_eq!(server.state.players[0].rotation, 0);
    assert_eq!(server.state.players[0].speed, MIN_SPEED + 2_000);
    assert_eq!(server.state.bullets.len(), 1);
    assert_eq!(server.state.bullets[0].owner, id);
}

#[test]
fn repeated_shoot_frames_spawn_a_single_bullet() {
    let mut server = Server::new();
    let id = server.allocate_id();
    assert!(server.register_session(id));
    server.feed_session(0, b"S\0S\0S\0");
    server.tick(TICK_MS);
    assert_eq!(server.state.bullets.len(), 1);
}

#[test]
fn a_partial_frame_waits_for_the_next_tick() {
    let mut server = Server::new();
    let id = server.allocate_id();
    assert!(server.register_session(id));
    server.feed_session(0, b"I 0 100");
    server.tick(TICK_MS);
    assert_eq!(server.state.players[0].speed, MIN_SPEED);
    server.feed_session(0, b"0\0");
    server.tick(TICK_MS);
    assert_eq!(server.state.players[0].speed, MIN_SPEED + 2_000);
}

#[test]
fn a_disconnect_removes_only_that_session() {
    let mut server = Server::new();
    for _ in 0..3 {
        let id = server.allocate_id();
        assert!(server.register_session(id));
    }
    server.feed_session(0, b"S\0");
    server.remove_sessions(&vec![1]);
    assert_eq!(server.session_count(), 2);
    assert_eq!(server.session_id(0), 0);
    assert_eq!(server.session_id(1), 2);
    assert_eq!(server.state.players.len(), 2);
    assert_eq!(server.state.players[0].id, 0);
    assert_eq!(server.state.players[1].id, 2);
    server.tick(TICK_MS);
    assert_eq!(server.state.bullets.len(), 1);
    let frame = server.broadcast_frame();
    assert!(frame.starts_with(b"G 2 1 "));
    assert_eq!(*frame.last().unwrap(), 0);
    server.tick(TICK_MS);
    assert_eq!(server.state.players.len(), 2);
}

#[test]
fn broadcast_frame_of_an_empty_world() {
    let server = Server::new();
    assert_eq!(server.broadcast_frame(), b"G 0 0\0".to_vec());
}

#[test]
fn assign_id_frame_is_delimited() {
    assert_eq!(plen::server::assign_id_frame(12), b"A 12\0".to_vec());
}

#[test]
fn get_player_by_id_returns_the_first_match() {
    let mut gs = GameState::new();
    gs.add_player(Player::new(5, 10_000, 10_000));
    gs.add_player(Player::new(7, 20_000, 20_000));
    let mut twin = Player::new(5, 99_000, 99_000);
    twin.rotation = 100;
    gs.add_player(twin);
    assert!(gs.get_player_by_id(6).is_none());
    let found = gs.get_player_by_id(5).unwrap();
    assert_eq!(found.x, 10_000);
    let other = gs.get_player_by_id(7).unwrap();
    assert_eq!(other.x, 20_000);
}

#[test]
fn powerup_kinds_classify_and_time_out() {
    assert!(PowerUpKind::Missile.is_weapon());
    assert!(PowerUpKind::Laser.is_weapon());
    assert!(!PowerUpKind::Health.is_weapon());
    assert!(PowerUpKind::Health.is_instant());
    assert!(!PowerUpKind::Invincibility.is_instant());
    assert_eq!(PowerUpKind::Afterburner.starting_duration(), Some(5_000));
    assert_eq!(PowerUpKind::Invincibility.starting_duration(), Some(10_000));
    assert_eq!(PowerUpKind::Missile.starting_duration(), None);
    let a = AppliedPowerup::new(PowerUpKind::Afterburner);
    assert_eq!(a.duration_left, Some(5_000));
    let p = PowerUp::new(PowerUpKind::Health, 1, 2);
    assert_eq!(p.x, 1);
    assert_eq!(p.y, 2);
}
