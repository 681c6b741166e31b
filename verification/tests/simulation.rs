use plen::bullet::Bullet;
use plen::constants::{
    BULLET_MAX_TRAVEL, MAX_SPEED, MIN_SPEED, TICK_MS, WORLD_SIZE,
};
use plen::player::Player;
use plen::server::update_player_position;

#[test]
fn neutral_input_keeps_minimum_speed_and_drifts_up_screen() {
    let mut p = Player::new(1, 10_000, 10_000);
    update_player_position(&mut p, 0, 0, TICK_MS);
    assert_eq!(p.speed, MIN_SPEED);
    assert_eq!(p.rotation, 0);
    assert_eq!(p.velocity_x, 0);
    assert_eq!(p.velocity_y, -500);
    assert_eq!(p.x, 10_000);
    assert_eq!(p.y, 9_500);
}

#[test]
fn forward_input_accelerates_by_the_formula() {
    let mut p = Player::new(1, 10_000, 10_000);
    update_player_position(&mut p, 0, 1000, TICK_MS);
    assert_eq!(p.speed, MIN_SPEED + 2_000);
}

#[test]
fn speed_never_leaves_the_clamp_band() {
    let mut p = Player::new(1, 10_000, 10_000);
    for _ in 0..300 {
        update_player_position(&mut p, 0, 1000, TICK_MS);
        assert!(MIN_SPEED <= p.speed && p.speed <= MAX_SPEED);
    }
    assert_eq!(p.speed, MAX_SPEED);
    for _ in 0..300 {
        update_player_position(&mut p, 0, -1000, TICK_MS);
        assert!(MIN_SPEED <= p.speed && p.speed <= MAX_SPEED);
    }
    assert_eq!(p.speed, MIN_SPEED);
}

#[test]
fn turning_is_a_per_tick_rate_and_wraps() {
    let mut p = Player::new(1, 10_000, 10_000);
    update_player_position(&mut p, 1000, 0, TICK_MS);
    assert_eq!(p.rotation, 573);
    let mut q = Player::new(2, 10_000, 10_000);
    update_player_position(&mut q, -1000, 0, TICK_MS);
    assert_eq!(q.rotation, 3_027);
    let mut r = Player::new(3, 10_000, 10_000);
    update_player_position(&mut r, 500, 0, TICK_MS);
    assert_eq!(r.rotation, 286);
}

#[test]
fn east_facing_player_wraps_to_a_small_positive_x() {
    let mut p = Player::new(1, WORLD_SIZE - 1, 10_000);
    p.rotation = 900;
    update_player_position(&mut p, 0, 0, TICK_MS);
    assert_eq!(p.velocity_x, 500);
    assert_eq!(p.velocity_y, 0);
    assert_eq!(p.x, 499);
    assert!(p.x < WORLD_SIZE);
    assert_eq!(p.y, 10_000);
}

#[test]
fn shooting_spawns_ahead_along_the_heading() {
    let mut p = Player::new(9, 100_000, 100_000);
    p.rotation = 0;
    let b = p.shoot();
    assert_eq!(b.x, 100_000);
    assert_eq!(b.y, 70_000);
    assert_eq!(b.velocity_x, 0);
    assert_eq!(b.velocity_y, -600_000);
    assert_eq!(b.distance_travelled, 0);
    assert_eq!(b.owner, 9);
}

#[test]
fn bullet_odometer_counts_the_nominal_step() {
    let mut b = Bullet {
        x: 0,
        y: 10_000,
        velocity_x: 600_000,
        velocity_y: 0,
        distance_travelled: 0,
        owner: 1,
    };
    let expired = b.update(TICK_MS);
    assert!(!expired);
    assert_eq!(b.x, 6_000);
    assert_eq!(b.y, 10_000);
    assert_eq!(b.distance_travelled, 6_000);
}

#[test]
fn bullet_expires_in_the_tick_it_crosses_the_threshold() {
    let mut b = Bullet {
        x: 0,
        y: 0,
        velocity_x: 600_000,
        velocity_y: 0,
        distance_travelled: 0,
        owner: 1,
    };
    let mut ticks = 0u32;
    loop {
        let expired = b.update(TICK_MS);
        ticks += 1;
        if expired {
            break;
        }
        assert!(b.distance_travelled <= BULLET_MAX_TRAVEL);
    }
    assert_eq!(ticks, 401);
    assert!(b.distance_travelled > BULLET_MAX_TRAVEL);
}

#[test]
fn bullet_wraps_across_the_world_edge() {
    let mut b = Bullet {
        x: 2_998_000,
        y: 0,
        velocity_x: 600_000,
        velocity_y: 0,
        distance_travelled: 0,
        owner: 1,
    };
    b.update(TICK_MS);
    assert_eq!(b.x, 4_000);
}
