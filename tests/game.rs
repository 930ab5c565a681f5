use tanks_arena::environment::{Environment, Tile};
use tanks_arena::game::{
    Bullet, GameState, Player, TankState, BULLET_COUNT, BULLET_RICOCHETS, SHOOT_COOLDOWN,
};
use tanks_arena::geometry::Vector2;

fn bullet(owner: &str, x: i64, y: i64, vx: i64, vy: i64, ricochets: u8) -> Bullet {
    Bullet {
        player_id: owner.to_string(),
        position: Vector2::new(x, y),
        velocity: Vector2::new(vx, vy),
        angle: Vector2::new(1000, 0),
        ricochets,
    }
}

fn owned(g: &GameState, id: &str) -> usize {
    g.bullets.iter().filter(|b| b.player_id == id).count()
}

#[test]
fn new_player_is_idle_with_full_ammo() {
    let p = Player::new("a".to_string());
    assert!(p.alive);
    assert_eq!(p.state, TankState::Idle);
    assert_eq!(p.bullets_remaining, BULLET_COUNT);
    assert_eq!(p.position, Vector2::zero());
}

#[test]
fn shot_bounces_once_off_right_bound() {
    let mut g = GameState::new(Environment::new());
    g.add_player("A");
    g.set_player_angle("A", &Vector2::new(1, 0));
    g.player_shoot("A");
    assert_eq!(g.bullets.len(), 1);
    assert_eq!(g.bullets[0].position, Vector2::new(400, 0));
    assert_eq!(g.bullets[0].velocity, Vector2::new(120, 0));
    assert_eq!(g.bullets[0].ricochets, BULLET_RICOCHETS);
    // ceil((22 - 0.4) / 0.12) = 180 ticks
    for _ in 0..179 {
        g.tick();
    }
    assert_eq!(g.bullets[0].velocity.x, 120);
    assert_eq!(g.bullets[0].ricochets, 1);
    g.tick();
    assert_eq!(g.bullets.len(), 1);
    assert_eq!(g.bullets[0].ricochets, 0);
    assert!(g.bullets[0].velocity.x < 0);
    assert_eq!(g.bullets[0].velocity.y, 0);
}

#[test]
fn bullet_removed_on_collision_after_ricochets_spent() {
    let mut g = GameState::new(Environment::new());
    g.add_player("A");
    g.players[0].bullets_remaining = 4;
    g.bullets.push(bullet("A", 21950, 5000, 120, 0, 1));
    g.tick();
    assert_eq!(g.bullets.len(), 1);
    assert_eq!(g.bullets[0].velocity.x, -120);
    assert_eq!(g.bullets[0].ricochets, 0);
    g.bullets[0].velocity.x = 120;
    g.tick();
    assert_eq!(g.bullets.len(), 0);
    assert_eq!(g.players[0].bullets_remaining, 5);
}

#[test]
fn shooting_conserves_ammo_plus_bullets() {
    let mut g = GameState::new(Environment::new());
    g.add_player("A");
    g.set_player_angle("A", &Vector2::new(0, 1));
    let total = g.players[0].bullets_remaining as usize + owned(&g, "A");
    for step in 0..400 {
        if step % 7 == 0 {
            g.player_shoot("A");
        }
        g.tick();
        assert_eq!(g.players[0].bullets_remaining as usize + owned(&g, "A"), total);
    }
}

#[test]
fn shoot_starts_cooldown_and_spends_ammo() {
    let mut g = GameState::new(Environment::new());
    g.add_player("A");
    g.player_shoot("A");
    assert_eq!(g.players[0].bullets_remaining, BULLET_COUNT - 1);
    assert_eq!(g.players[0].state, TankState::Shooting(SHOOT_COOLDOWN));
    g.player_shoot("A");
    assert_eq!(g.bullets.len(), 1);
    for _ in 0..SHOOT_COOLDOWN {
        g.tick();
    }
    assert_eq!(g.players[0].state, TankState::Shooting(0));
    g.tick();
    assert_eq!(g.players[0].state, TankState::Idle);
}

#[test]
fn shoot_without_ammo_does_nothing() {
    let mut g = GameState::new(Environment::new());
    g.add_player("A");
    g.players[0].bullets_remaining = 0;
    g.player_shoot("A");
    assert!(g.bullets.is_empty());
    assert_eq!(g.players[0].state, TankState::Idle);
}

#[test]
fn actions_of_unknown_player_are_ignored() {
    let mut g = GameState::new(Environment::new());
    g.add_player("A");
    g.player_shoot("B");
    g.set_player_movement("B", &Vector2::new(1, 0));
    assert!(g.bullets.is_empty());
    assert_eq!(g.players[0].movement, Vector2::zero());
}

#[test]
fn colliding_bullets_are_removed_and_refunded() {
    let mut g = GameState::new(Environment::new());
    g.add_player("A");
    g.add_player("B");
    g.players[0].bullets_remaining = 3;
    g.players[1].bullets_remaining = 4;
    g.players[0].position = Vector2::new(10000, 10000);
    g.players[1].position = Vector2::new(15000, 10000);
    g.bullets.push(bullet("A", 5000, 5000, 0, 0, 1));
    g.bullets.push(bullet("B", 5100, 5000, 0, 0, 1));
    g.bullets.push(bullet("A", 8000, 5000, 0, 0, 1));
    g.tick();
    assert_eq!(g.bullets.len(), 1);
    assert_eq!(g.bullets[0].position, Vector2::new(8000, 5000));
    assert_eq!(g.players[0].bullets_remaining, 4);
    assert_eq!(g.players[1].bullets_remaining, 5);
}

#[test]
fn player_hit_by_bullet_dies() {
    let mut g = GameState::new(Environment::new());
    g.add_player("A");
    g.players[0].position = Vector2::new(5000, 5000);
    g.bullets.push(bullet("B", 5400, 5000, 0, 0, 1));
    g.tick();
    assert!(!g.players[0].alive);
    assert_eq!(g.bullets.len(), 1);
}

#[test]
fn bullet_bounces_off_wall() {
    let mut env = Environment::new();
    env.insert_tile(0, 5, Tile::DestructibleWall { health: 3, elevation: 0 });
    let mut g = GameState::new(env);
    g.bullets.push(bullet("A", 4000, 500, 120, 0, 1));
    for _ in 0..7 {
        g.tick();
    }
    assert_eq!(g.bullets[0].velocity.x, 120);
    g.tick();
    assert_eq!(g.bullets[0].position, Vector2::new(4960, 500));
    assert_eq!(g.bullets[0].velocity.x, -120);
    assert_eq!(g.bullets[0].ricochets, 0);
}

#[test]
fn raised_walls_do_not_block() {
    let mut env = Environment::new();
    env.insert_tile(0, 5, Tile::DestructibleWall { health: 3, elevation: 1 });
    env.insert_tile(0, 6, Tile::IndestructibleWall { elevation: 2 });
    let mut g = GameState::new(env);
    g.bullets.push(bullet("A", 4000, 500, 120, 0, 1));
    for _ in 0..20 {
        g.tick();
    }
    assert_eq!(g.bullets[0].velocity.x, 120);
    assert_eq!(g.bullets[0].position, Vector2::new(6400, 500));
}

#[test]
fn player_pushed_out_of_wall() {
    let mut env = Environment::new();
    env.insert_tile(0, 5, Tile::DestructibleWall { health: 3, elevation: 0 });
    let mut g = GameState::new(env);
    g.add_player("A");
    g.players[0].position = Vector2::new(4800, 500);
    g.tick();
    assert_eq!(g.players[0].position, Vector2::new(4600, 500));
}

#[test]
fn players_are_clamped_inside_map() {
    let mut g = GameState::new(Environment::new());
    g.add_player("A");
    g.set_player_movement("A", &Vector2::new(-3, -4));
    assert_eq!(g.players[0].movement, Vector2::new(-600, -800));
    g.tick();
    assert_eq!(g.players[0].position, Vector2::new(400, 400));
    g.set_player_movement("A", &Vector2::new(1, 0));
    g.players[0].position = Vector2::new(21990, 16990);
    g.tick();
    assert_eq!(g.players[0].position, Vector2::new(21600, 16600));
}

#[test]
fn tick_is_deterministic() {
    let build = || {
        let mut g = GameState::new(Environment::new());
        g.add_player("A");
        g.add_player("B");
        g.set_player_movement("A", &Vector2::new(1, 2));
        g.set_player_angle("B", &Vector2::new(-1, 1));
        g.player_shoot("B");
        g
    };
    let mut a = build();
    let mut b = build();
    for _ in 0..100 {
        a.tick();
        b.tick();
        assert_eq!(format!("{:?}", a), format!("{:?}", b));
    }
}

#[test]
fn joining_twice_adds_one_player() {
    let mut g = GameState::new(Environment::new());
    g.add_player("A");
    g.add_player("A");
    assert_eq!(g.players.len(), 1);
    assert_eq!(g.get_client_ids(), vec!["A".to_string()]);
    g.remove_player("A");
    assert!(g.players.is_empty());
}
