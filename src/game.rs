//! The per-session game state engine: players, bullets, and the fixed-order
//! physics tick.
use vstd::prelude::*;

use crate::environment::{blocks, is_obstacle, tile_corner, tiles_wf, Environment, PlacedTile, Tile, MAX_GRID};
use crate::geometry::{
    circle_circle_collision, circle_rect_collision, circle_rect_overlap, circles_overlap, clamp,
    clamp_i64, mul_div, rect_offset, vec_normalize, vec_plus, vec_scale, Vector2, UNIT,
};

verus! {

/// Width of the map in tiles.
pub const MAP_BLOCK_WIDTH: i64 = 22;
/// Height of the map in tiles.
pub const MAP_BLOCK_HEIGHT: i64 = 17;
/// Width of the map in fixed-point units.
pub const MAP_WIDTH: i64 = 22000;
/// Height of the map in fixed-point units.
pub const MAP_HEIGHT: i64 = 17000;
/// Radius of a bullet.
pub const BULLET_RADIUS: i64 = 120;
/// Most bullets a player can have out at once; also the ammo a player starts with.
pub const BULLET_COUNT: u8 = 5;
/// Distance a bullet travels in one tick.
pub const BULLET_SPEED: i64 = 120;
/// Wall bounces a new bullet is allowed before it is destroyed.
pub const BULLET_RICOCHETS: u8 = 1;
/// Radius of a tank.
pub const PLAYER_RADIUS: i64 = 400;
/// Distance a tank travels in one tick.
pub const PLAYER_SPEED: i64 = 80;
/// Ticks a tank stays in place after it fires.
pub const SHOOT_COOLDOWN: u32 = 5;

/// Furthest a coordinate of a tank may be pushed while walls are resolved.
pub const PUSH_LIMIT: i64 = 2_000_000_000;

/// Firing state of a tank.
#[derive(Clone, Copy, Debug, PartialEq, Eq, Structural)]
pub enum TankState {
    /// Ticks left before the tank may move and fire again.
    Shooting(u32),
    /// The tank may move and fire.
    Idle,
}

/// A tank, controlled by one client.
#[derive(Debug)]
pub struct Player {
    /// Id of the controlling client.
    pub id: String,
    pub alive: bool,
    pub state: TankState,
    pub position: Vector2,
    /// Direction of the gun, as a vector of length at most `UNIT` per axis.
    pub angle: Vector2,
    /// Direction of movement, normalized.
    pub movement: Vector2,
    pub bullets_remaining: u8,
}

/// A projectile shot from a tank.
#[derive(Debug)]
pub struct Bullet {
    /// Id of the player who fired it.
    pub player_id: String,
    pub position: Vector2,
    pub velocity: Vector2,
    /// Direction the bullet was fired in.
    pub angle: Vector2,
    /// Wall bounces left before the bullet is destroyed.
    pub ricochets: u8,
}

/// The state of one session's world.
#[derive(Debug)]
pub struct GameState {
    pub players: Vec<Player>,
    pub bullets: Vec<Bullet>,
    pub environment: Environment,
}

pub struct PlayerView {
    pub id: Seq<char>,
    pub alive: bool,
    pub state: TankState,
    pub position: Vector2,
    pub aim: Vector2,
    pub movement: Vector2,
    pub ammo: u8,
}

pub struct BulletView {
    pub owner: Seq<char>,
    pub position: Vector2,
    pub velocity: Vector2,
    pub aim: Vector2,
    pub ricochets: u8,
}

pub struct GameView {
    pub players: Seq<PlayerView>,
    pub bullets: Seq<BulletView>,
    pub tiles: Seq<PlacedTile>,
}

impl View for Player {
    type V = PlayerView;

    open spec fn view(&self) -> PlayerView {
        PlayerView {
            id: self.id@,
            alive: self.alive,
            state: self.state,
            position: self.position,
            aim: self.angle,
            movement: self.movement,
            ammo: self.bullets_remaining,
        }
    }
}

impl View for Bullet {
    type V = BulletView;

    open spec fn view(&self) -> BulletView {
        BulletView {
            owner: self.player_id@,
            position: self.position,
            velocity: self.velocity,
            aim: self.angle,
            ricochets: self.ricochets,
        }
    }
}

pub open spec fn players_view(ps: Seq<Player>) -> Seq<PlayerView> {
    ps.map_values(|p: Player| p@)
}

pub open spec fn bullets_view(bs: Seq<Bullet>) -> Seq<BulletView> {
    bs.map_values(|b: Bullet| b@)
}

impl View for GameState {
    type V = GameView;

    open spec fn view(&self) -> GameView {
        GameView {
            players: players_view(self.players@),
            bullets: bullets_view(self.bullets@),
            tiles: self.environment@,
        }
    }
}

// ---------------------------------------------------------------------------
// Well-formedness

pub open spec fn unit_bounded(v: Vector2) -> bool {
    -UNIT <= v.x <= UNIT && -UNIT <= v.y <= UNIT
}

pub open spec fn player_wf(p: PlayerView) -> bool {
    &&& p.ammo <= BULLET_COUNT
    &&& 0 <= p.position.x <= MAP_WIDTH
    &&& 0 <= p.position.y <= MAP_HEIGHT
    &&& unit_bounded(p.aim)
    &&& unit_bounded(p.movement)
}

/// One axis of a bullet: within reach of the map, no faster than a bullet
/// flies, and heading back whenever it is beyond where a tank could have
/// fired it.
pub open spec fn axis_wf(pos: int, vel: int, extent: int) -> bool {
    &&& -(PLAYER_RADIUS + BULLET_SPEED) <= pos <= extent + PLAYER_RADIUS + BULLET_SPEED
    &&& -BULLET_SPEED <= vel <= BULLET_SPEED
    &&& (pos < -PLAYER_RADIUS ==> vel >= 0)
    &&& (pos > extent + PLAYER_RADIUS ==> vel <= 0)
}

pub open spec fn bullet_wf(b: BulletView) -> bool {
    &&& axis_wf(b.position.x as int, b.velocity.x as int, MAP_WIDTH as int)
    &&& axis_wf(b.position.y as int, b.velocity.y as int, MAP_HEIGHT as int)
    &&& unit_bounded(b.aim)
}

pub open spec fn ids_unique(ps: Seq<PlayerView>) -> bool {
    forall|i: int, j: int| 0 <= i < ps.len() && 0 <= j < ps.len() && i != j ==> (#[trigger] ps[i]).id != (#[trigger] ps[j]).id
}

pub open spec fn game_wf(g: GameView) -> bool {
    &&& forall|i: int| 0 <= i < g.players.len() ==> player_wf(#[trigger] g.players[i])
    &&& ids_unique(g.players)
    &&& forall|i: int| 0 <= i < g.bullets.len() ==> bullet_wf(#[trigger] g.bullets[i])
    &&& tiles_wf(g.tiles)
}

// ---------------------------------------------------------------------------
// The model of one tick

/// Step 1 for a bullet: it moves by its velocity.
pub open spec fn bullet_moved(b: BulletView) -> BulletView {
    BulletView { position: vec_plus(b.position, b.velocity), ..b }
}

/// Step 1 for a tank: an idle tank moves; a firing one counts down its
/// cooldown and turns idle once it has reached zero.
pub open spec fn player_moved(p: PlayerView) -> PlayerView {
    match p.state {
        TankState::Idle => PlayerView {
            position: vec_plus(p.position, vec_scale(p.movement, PLAYER_SPEED as int)),
            ..p
        },
        TankState::Shooting(n) => if n > 0 {
            PlayerView { state: TankState::Shooting((n - 1) as u32), ..p }
        } else {
            PlayerView { state: TankState::Idle, ..p }
        },
    }
}

pub open spec fn hit_by_bullet(p: PlayerView, bullets: Seq<BulletView>) -> bool {
    exists|j: int|
        0 <= j < bullets.len() && circles_overlap(
            p.position,
            PLAYER_RADIUS as int,
            #[trigger] bullets[j].position,
            BULLET_RADIUS as int,
        )
}

/// Step 2: a living tank that overlaps any bullet dies.
pub open spec fn player_after_hits(p: PlayerView, bullets: Seq<BulletView>) -> PlayerView {
    if p.alive && hit_by_bullet(p, bullets) {
        PlayerView { alive: false, ..p }
    } else {
        p
    }
}

/// Step 3: bullet `i` overlaps some other bullet.
pub open spec fn collides_with_other(bullets: Seq<BulletView>, i: int) -> bool {
    exists|j: int|
        0 <= j < bullets.len() && j != i && circles_overlap(
            bullets[i].position,
            BULLET_RADIUS as int,
            #[trigger] bullets[j].position,
            BULLET_RADIUS as int,
        )
}

/// Bullets not marked in `doomed`, in their order.
pub open spec fn kept(bullets: Seq<BulletView>, doomed: Seq<bool>) -> Seq<BulletView>
    decreases bullets.len(),
{
    if bullets.len() == 0 {
        Seq::empty()
    } else {
        let rest = kept(bullets.drop_last(), doomed);
        if doomed[bullets.len() - 1] {
            rest
        } else {
            rest.push(bullets.last())
        }
    }
}

/// Number of bullets marked in `doomed` that belong to `id`.
pub open spec fn refunds(bullets: Seq<BulletView>, doomed: Seq<bool>, id: Seq<char>) -> nat
    decreases bullets.len(),
{
    if bullets.len() == 0 {
        0
    } else {
        refunds(bullets.drop_last(), doomed, id) + if doomed[bullets.len() - 1] && bullets.last().owner == id {
            1nat
        } else {
            0nat
        }
    }
}

/// Number of bullets that belong to `id`.
pub open spec fn owned_count(bullets: Seq<BulletView>, id: Seq<char>) -> nat
    decreases bullets.len(),
{
    if bullets.len() == 0 {
        0
    } else {
        owned_count(bullets.drop_last(), id) + if bullets.last().owner == id {
            1nat
        } else {
            0nat
        }
    }
}

/// A tank gets back one unit of ammo per destroyed bullet of its own, up to the maximum.
pub open spec fn refunded(p: PlayerView, n: nat) -> PlayerView {
    PlayerView {
        ammo: if p.ammo + n <= BULLET_COUNT {
            (p.ammo + n) as u8
        } else {
            BULLET_COUNT
        },
        ..p
    }
}

/// Removes the bullets marked in `doomed` and returns their ammo to their owners.
pub open spec fn after_removal(g: GameView, doomed: Seq<bool>) -> GameView {
    GameView {
        players: g.players.map_values(|p: PlayerView| refunded(p, refunds(g.bullets, doomed, p.id))),
        bullets: kept(g.bullets, doomed),
        tiles: g.tiles,
    }
}

/// A bullet bounces: the marked axes of its velocity are reversed and one
/// ricochet is spent.
pub open spec fn ricochet(b: BulletView, reflect_x: bool, reflect_y: bool) -> BulletView {
    BulletView {
        velocity: Vector2 {
            x: if reflect_x { (-b.velocity.x) as i64 } else { b.velocity.x },
            y: if reflect_y { (-b.velocity.y) as i64 } else { b.velocity.y },
        },
        ricochets: (b.ricochets - 1) as u8,
        ..b
    }
}

/// One collision with a wall or a bound: the bullet bounces while it has
/// ricochets left, and is destroyed (second component) otherwise.
pub open spec fn wall_hit(b: BulletView, reflect_x: bool, reflect_y: bool) -> (BulletView, bool) {
    if b.ricochets > 0 {
        (ricochet(b, reflect_x, reflect_y), false)
    } else {
        (b, true)
    }
}

/// Step 4 for one bullet: the tiles are met in order; a destroyed bullet
/// meets no more.
pub open spec fn tile_bounce(b: BulletView, tiles: Seq<PlacedTile>) -> (BulletView, bool)
    decreases tiles.len(),
{
    if tiles.len() == 0 {
        (b, false)
    } else {
        let (b1, gone) = tile_bounce(b, tiles.drop_last());
        let t = tiles.last();
        if gone || !blocks(t) || !circle_rect_overlap(b1.position, BULLET_RADIUS as int, tile_corner(t), UNIT as int, UNIT as int) {
            (b1, gone)
        } else {
            let d = rect_offset(b1.position, tile_corner(t), UNIT as int, UNIT as int);
            wall_hit(b1, d.x != 0, d.y != 0)
        }
    }
}

/// Step 5 for one tank and one tile: a tank overlapping an obstacle is moved
/// out of it along the axis that needs the shortest move.
pub open spec fn push_out(c: Vector2, t: PlacedTile) -> Vector2 {
    let k = tile_corner(t);
    if blocks(t) && circle_rect_overlap(c, PLAYER_RADIUS as int, k, UNIT as int, UNIT as int) {
        let left = c.x + PLAYER_RADIUS - k.x;
        let right = k.x + UNIT + PLAYER_RADIUS - c.x;
        let up = c.y + PLAYER_RADIUS - k.y;
        let down = k.y + UNIT + PLAYER_RADIUS - c.y;
        if left <= right && left <= up && left <= down {
            Vector2 { x: (k.x - PLAYER_RADIUS) as i64, y: c.y }
        } else if right <= up && right <= down {
            Vector2 { x: (k.x + UNIT + PLAYER_RADIUS) as i64, y: c.y }
        } else if up <= down {
            Vector2 { x: c.x, y: (k.y - PLAYER_RADIUS) as i64 }
        } else {
            Vector2 { x: c.x, y: (k.y + UNIT + PLAYER_RADIUS) as i64 }
        }
    } else {
        c
    }
}

pub open spec fn push_out_all(c: Vector2, tiles: Seq<PlacedTile>) -> Vector2
    decreases tiles.len(),
{
    if tiles.len() == 0 {
        c
    } else {
        push_out(push_out_all(c, tiles.drop_last()), tiles.last())
    }
}

/// Step 6: the bullet is beyond a bound of the map and still heading out.
pub open spec fn leaves_x(b: BulletView) -> bool {
    (b.position.x + BULLET_RADIUS > MAP_WIDTH && b.velocity.x > 0) || (b.position.x - BULLET_RADIUS < 0
        && b.velocity.x < 0)
}

pub open spec fn leaves_y(b: BulletView) -> bool {
    (b.position.y + BULLET_RADIUS > MAP_HEIGHT && b.velocity.y > 0) || (b.position.y - BULLET_RADIUS < 0
        && b.velocity.y < 0)
}

pub open spec fn bounds_bounce(b: BulletView) -> (BulletView, bool) {
    if leaves_x(b) || leaves_y(b) {
        wall_hit(b, leaves_x(b), leaves_y(b))
    } else {
        (b, false)
    }
}

/// Step 7: a tank is kept fully inside the map.
pub open spec fn clamped(p: PlayerView) -> PlayerView {
    PlayerView {
        position: Vector2 {
            x: clamp(p.position.x as int, PLAYER_RADIUS as int, MAP_WIDTH - PLAYER_RADIUS) as i64,
            y: clamp(p.position.y as int, PLAYER_RADIUS as int, MAP_HEIGHT - PLAYER_RADIUS) as i64,
        },
        ..p
    }
}

pub open spec fn step_move(g: GameView) -> GameView {
    GameView {
        players: g.players.map_values(|p: PlayerView| player_moved(p)),
        bullets: g.bullets.map_values(|b: BulletView| bullet_moved(b)),
        tiles: g.tiles,
    }
}

pub open spec fn step_player_hits(g: GameView) -> GameView {
    GameView { players: g.players.map_values(|p: PlayerView| player_after_hits(p, g.bullets)), ..g }
}

pub open spec fn bullet_collision_flags(bullets: Seq<BulletView>) -> Seq<bool> {
    Seq::new(bullets.len(), |i: int| collides_with_other(bullets, i))
}

pub open spec fn step_bullet_collisions(g: GameView) -> GameView {
    after_removal(g, bullet_collision_flags(g.bullets))
}

pub open spec fn step_bullet_tiles(g: GameView) -> GameView {
    let bounced = GameView { bullets: g.bullets.map_values(|b: BulletView| tile_bounce(b, g.tiles).0), ..g };
    after_removal(bounced, g.bullets.map_values(|b: BulletView| tile_bounce(b, g.tiles).1))
}

pub open spec fn step_player_tiles(g: GameView) -> GameView {
    GameView {
        players: g.players.map_values(|p: PlayerView| PlayerView { position: push_out_all(p.position, g.tiles), ..p }),
        ..g
    }
}

pub open spec fn step_bullet_bounds(g: GameView) -> GameView {
    let bounced = GameView { bullets: g.bullets.map_values(|b: BulletView| bounds_bounce(b).0), ..g };
    after_removal(bounced, g.bullets.map_values(|b: BulletView| bounds_bounce(b).1))
}

pub open spec fn step_clamp(g: GameView) -> GameView {
    GameView { players: g.players.map_values(|p: PlayerView| clamped(p)), ..g }
}

/// One tick of the world: the seven steps in their fixed order.
pub open spec fn tick_model(g: GameView) -> GameView {
    step_clamp(
        step_bullet_bounds(
            step_player_tiles(step_bullet_tiles(step_bullet_collisions(step_player_hits(step_move(g))))),
        ),
    )
}


// ---------------------------------------------------------------------------
// Bounds that hold between the steps of a tick

pub open spec fn player_mid(p: PlayerView) -> bool {
    &&& p.ammo <= BULLET_COUNT
    &&& -PUSH_LIMIT <= p.position.x <= PUSH_LIMIT
    &&& -PUSH_LIMIT <= p.position.y <= PUSH_LIMIT
    &&& unit_bounded(p.aim)
    &&& unit_bounded(p.movement)
}

pub open spec fn bullet_mid(b: BulletView) -> bool {
    &&& -(PLAYER_RADIUS + BULLET_SPEED) <= b.position.x <= MAP_WIDTH + PLAYER_RADIUS + BULLET_SPEED
    &&& -(PLAYER_RADIUS + BULLET_SPEED) <= b.position.y <= MAP_HEIGHT + PLAYER_RADIUS + BULLET_SPEED
    &&& -BULLET_SPEED <= b.velocity.x <= BULLET_SPEED
    &&& -BULLET_SPEED <= b.velocity.y <= BULLET_SPEED
    &&& unit_bounded(b.aim)
}

pub open spec fn game_mid(g: GameView) -> bool {
    &&& forall|i: int| 0 <= i < g.players.len() ==> player_mid(#[trigger] g.players[i])
    &&& ids_unique(g.players)
    &&& forall|i: int| 0 <= i < g.bullets.len() ==> bullet_mid(#[trigger] g.bullets[i])
    &&& tiles_wf(g.tiles)
}

pub open spec fn all_bullets_mid(bs: Seq<BulletView>) -> bool {
    forall|i: int| 0 <= i < bs.len() ==> bullet_mid(#[trigger] bs[i])
}

/// Every kept bullet satisfies what each bullet that is not doomed satisfied.
pub proof fn lemma_kept_all(bs: Seq<BulletView>, d: Seq<bool>, pred: spec_fn(BulletView) -> bool)
    requires
        d.len() >= bs.len(),
        forall|i: int| 0 <= i < bs.len() && !d[i] ==> pred(#[trigger] bs[i]),
    ensures
        forall|i: int| 0 <= i < kept(bs, d).len() ==> pred(#[trigger] kept(bs, d)[i]),
    decreases bs.len(),
{
    if bs.len() > 0 {
        let pre = bs.drop_last();
        assert forall|i: int| 0 <= i < pre.len() && !d[i] implies pred(#[trigger] pre[i]) by {
            assert(pre[i] == bs[i]);
        }
        lemma_kept_all(pre, d, pred);
        let k = kept(pre, d);
        if !d[bs.len() - 1] {
            assert(pred(bs[bs.len() - 1]));
            assert forall|i: int| 0 <= i < k.push(bs.last()).len() implies pred(#[trigger] k.push(bs.last())[i]) by {
                if i < k.len() {
                    assert(k.push(bs.last())[i] == k[i]);
                }
            }
        }
    }
}

/// Removed and kept bullets together are all the bullets a player owned.
pub proof fn lemma_refunds_partition(bs: Seq<BulletView>, d: Seq<bool>, id: Seq<char>)
    requires
        d.len() >= bs.len(),
    ensures
        refunds(bs, d, id) + owned_count(kept(bs, d), id) == owned_count(bs, id),
    decreases bs.len(),
{
    if bs.len() > 0 {
        lemma_refunds_partition(bs.drop_last(), d, id);
        let k = kept(bs.drop_last(), d);
        if !d[bs.len() - 1] {
            assert(k.push(bs.last()).drop_last() =~= k);
        }
    }
}

/// Applying the same change to every bullet, keeping its owner, keeps the
/// number that each player owns.
proof fn lemma_owned_count_map(bs: Seq<BulletView>, f: spec_fn(BulletView) -> BulletView, id: Seq<char>)
    requires
        forall|b: BulletView| #[trigger] f(b).owner == b.owner,
    ensures
        owned_count(bs.map_values(f), id) == owned_count(bs, id),
    decreases bs.len(),
{
    if bs.len() > 0 {
        lemma_owned_count_map(bs.drop_last(), f, id);
        assert(bs.map_values(f).drop_last() =~= bs.drop_last().map_values(f));
    }
}

// ---------------------------------------------------------------------------
// Executable engine

pub open spec fn new_player_view(id: Seq<char>) -> PlayerView {
    PlayerView {
        id,
        alive: true,
        state: TankState::Idle,
        position: Vector2 { x: 0, y: 0 },
        aim: Vector2 { x: 0, y: 0 },
        movement: Vector2 { x: 0, y: 0 },
        ammo: BULLET_COUNT,
    }
}

impl Player {
    /// A fresh tank for client `id`: alive, idle, at the origin, with full ammo.
    pub fn new(id: String) -> (r: Player)
        ensures
            r@ == new_player_view(id@),
    {
        Player {
            id,
            alive: true,
            state: TankState::Idle,
            position: Vector2 { x: 0, y: 0 },
            angle: Vector2 { x: 0, y: 0 },
            movement: Vector2 { x: 0, y: 0 },
            bullets_remaining: BULLET_COUNT,
        }
    }

    fn duplicate(&self) -> (r: Player)
        ensures
            r@ == self@,
    {
        Player {
            id: self.id.clone(),
            alive: self.alive,
            state: self.state,
            position: self.position,
            angle: self.angle,
            movement: self.movement,
            bullets_remaining: self.bullets_remaining,
        }
    }

    /// Movement and cooldown for one tick.
    pub fn physics_update(&self) -> (r: Player)
        requires
            -PUSH_LIMIT + PLAYER_SPEED <= self.position.x <= PUSH_LIMIT - PLAYER_SPEED,
            -PUSH_LIMIT + PLAYER_SPEED <= self.position.y <= PUSH_LIMIT - PLAYER_SPEED,
            unit_bounded(self.movement),
        ensures
            r@ == player_moved(self@),
    {
        let mut p = self.duplicate();
        match self.state {
            TankState::Idle => {
                proof {
                    lemma_scaled_unit(self.movement.x as int, PLAYER_SPEED as int);
                    lemma_scaled_unit(self.movement.y as int, PLAYER_SPEED as int);
                }
                let step = self.movement.scale(PLAYER_SPEED);
                p.position = self.position.plus(&step);
            },
            TankState::Shooting(n) => {
                if n > 0 {
                    p.state = TankState::Shooting(n - 1);
                } else {
                    p.state = TankState::Idle;
                }
            },
        }
        p
    }
}

/// A component of at most `UNIT` in size, scaled by `s / UNIT`, is at most `s` in size.
pub proof fn lemma_scaled_unit(a: int, s: int)
    requires
        -UNIT <= a <= UNIT,
        0 <= s <= UNIT,
    ensures
        -s <= mul_div(a, s, UNIT as int) <= s,
{
    if a >= 0 {
        assert(a * s / 1000 <= s) by (nonlinear_arith)
            requires
                0 <= a <= 1000,
                0 <= s,
        ;
        assert(a * s / 1000 >= 0) by (nonlinear_arith)
            requires
                0 <= a,
                0 <= s,
        ;
    } else {
        assert((-a) * s / 1000 <= s) by (nonlinear_arith)
            requires
                0 <= -a <= 1000,
                0 <= s,
        ;
        assert((-a) * s / 1000 >= 0) by (nonlinear_arith)
            requires
                0 <= -a,
                0 <= s,
        ;
        assert(a * s == -((-a) * s)) by (nonlinear_arith);
    }
}

impl Bullet {
    fn duplicate(&self) -> (r: Bullet)
        ensures
            r@ == self@,
    {
        Bullet {
            player_id: self.player_id.clone(),
            position: self.position,
            velocity: self.velocity,
            angle: self.angle,
            ricochets: self.ricochets,
        }
    }

    /// Moves the bullet by its velocity.
    pub fn physics_update(&mut self)
        requires
            i64::MIN <= old(self).position.x + old(self).velocity.x <= i64::MAX,
            i64::MIN <= old(self).position.y + old(self).velocity.y <= i64::MAX,
        ensures
            final(self)@ == bullet_moved(old(self)@),
    {
        self.position = self.position.plus(&self.velocity);
    }

    /// One collision with a wall or bound: bounces if ricochets are left and
    /// returns `false`; otherwise returns `true`, meaning the bullet is destroyed.
    pub fn hit_wall(&mut self, reflect_x: bool, reflect_y: bool) -> (destroyed: bool)
        requires
            -BULLET_SPEED <= old(self).velocity.x <= BULLET_SPEED,
            -BULLET_SPEED <= old(self).velocity.y <= BULLET_SPEED,
        ensures
            (final(self)@, destroyed) == wall_hit(old(self)@, reflect_x, reflect_y),
    {
        if self.ricochets > 0 {
            self.ricochets = self.ricochets - 1;
            if reflect_x {
                self.velocity.x = -self.velocity.x;
            }
            if reflect_y {
                self.velocity.y = -self.velocity.y;
            }
            false
        } else {
            true
        }
    }
}


pub open spec fn has_player(ps: Seq<PlayerView>, id: Seq<char>) -> bool {
    exists|i: int| 0 <= i < ps.len() && (#[trigger] ps[i]).id == id
}

/// Position of the player with `id`, where there is one.
pub open spec fn index_of(ps: Seq<PlayerView>, id: Seq<char>) -> int {
    choose|i: int| 0 <= i < ps.len() && (#[trigger] ps[i]).id == id
}

/// The player with `id` heads along `movement`; nothing happens without such a player.
pub open spec fn movement_model(g: GameView, id: Seq<char>, movement: Vector2) -> GameView {
    if has_player(g.players, id) {
        let i = index_of(g.players, id);
        GameView { players: g.players.update(i, PlayerView { movement, ..g.players[i] }), ..g }
    } else {
        g
    }
}

/// The player with `id` aims along `aim`; nothing happens without such a player.
pub open spec fn aim_model(g: GameView, id: Seq<char>, aim: Vector2) -> GameView {
    if has_player(g.players, id) {
        let i = index_of(g.players, id);
        GameView { players: g.players.update(i, PlayerView { aim, ..g.players[i] }), ..g }
    } else {
        g
    }
}

pub open spec fn add_player_model(g: GameView, id: Seq<char>) -> GameView {
    if has_player(g.players, id) {
        g
    } else {
        GameView { players: g.players.push(new_player_view(id)), ..g }
    }
}

pub open spec fn remove_player_model(g: GameView, id: Seq<char>) -> GameView {
    if has_player(g.players, id) {
        GameView { players: g.players.remove(index_of(g.players, id)), ..g }
    } else {
        g
    }
}

/// The bullet a tank fires: from the muzzle, one tank radius out along the
/// gun, flying along the gun at bullet speed.
pub open spec fn fired_bullet(p: PlayerView) -> BulletView {
    BulletView {
        owner: p.id,
        position: vec_plus(p.position, vec_scale(p.aim, PLAYER_RADIUS as int)),
        velocity: vec_scale(p.aim, BULLET_SPEED as int),
        aim: p.aim,
        ricochets: BULLET_RICOCHETS,
    }
}

pub open spec fn can_shoot(p: PlayerView) -> bool {
    p.state == TankState::Idle && p.ammo > 0
}

/// An idle tank with ammo left fires: one unit of ammo becomes a bullet and
/// the tank starts its cooldown. Otherwise, or without such a player, nothing happens.
pub open spec fn shoot_model(g: GameView, id: Seq<char>) -> GameView {
    if has_player(g.players, id) && can_shoot(g.players[index_of(g.players, id)]) {
        let i = index_of(g.players, id);
        let p = g.players[i];
        GameView {
            players: g.players.update(
                i,
                PlayerView { ammo: (p.ammo - 1) as u8, state: TankState::Shooting(SHOOT_COOLDOWN), ..p },
            ),
            bullets: g.bullets.push(fired_bullet(p)),
            tiles: g.tiles,
        }
    } else {
        g
    }
}

impl GameState {
    pub open spec fn wf(&self) -> bool {
        game_wf(self@)
    }

    /// An empty world on the given map.
    pub fn new(environment: Environment) -> (r: GameState)
        requires
            environment.wf(),
        ensures
            r@.players.len() == 0,
            r@.bullets.len() == 0,
            r@.tiles == environment@,
            r.wf(),
    {
        GameState { players: Vec::new(), bullets: Vec::new(), environment }
    }

    /// Index of the player with `id`.
    pub fn find_player(&self, id: &String) -> (r: Option<usize>)
        requires
            ids_unique(self@.players),
        ensures
            r is Some <==> has_player(self@.players, id@),
            r matches Some(i) ==> i as int == index_of(self@.players, id@) && i < self@.players.len()
                && self@.players[i as int].id == id@,
    {
        let mut i: usize = 0;
        while i < self.players.len()
            invariant
                i <= self.players@.len(),
                ids_unique(self@.players),
                forall|k: int| 0 <= k < i ==> self@.players[k].id != id@,
            decreases self.players@.len() - i,
        {
            if self.players[i].id == *id {
                proof {
                    assert(self@.players[i as int].id == id@);
                    assert(has_player(self@.players, id@));
                    let j = index_of(self@.players, id@);
                    assert(self@.players[j].id == id@);
                    if j != i as int {
                        assert(self@.players[j].id != self@.players[i as int].id);
                    }
                }
                return Some(i);
            }
            i = i + 1;
        }
        proof {
            assert forall|k: int| 0 <= k < self@.players.len() implies (#[trigger] self@.players[k]).id != id@ by {}
        }
        None
    }

    /// Adds a fresh tank for client `id`, unless it already has one.
    pub fn add_player(&mut self, id: &str)
        requires
            old(self).wf(),
        ensures
            final(self).wf(),
            final(self)@ == add_player_model(old(self)@, id@),
    {
        let owned = id.to_owned();
        match self.find_player(&owned) {
            Some(_) => {},
            None => {
                self.players.push(Player::new(owned));
                proof {
                    assert(players_view(self.players@) =~= players_view(old(self).players@).push(new_player_view(id@)));
                    let ps = self@.players;
                    assert forall|i: int| 0 <= i < ps.len() implies player_wf(#[trigger] ps[i]) by {
                        if i < ps.len() - 1 {
                            assert(ps[i] == old(self)@.players[i]);
                        }
                    }
                    assert forall|a: int, b: int| 0 <= a < ps.len() && 0 <= b < ps.len() && a != b implies ps[a].id != ps[b].id by {
                        if a < ps.len() - 1 && b < ps.len() - 1 {
                            assert(ps[a] == old(self)@.players[a]);
                            assert(ps[b] == old(self)@.players[b]);
                        } else if a < ps.len() - 1 {
                            assert(ps[a] == old(self)@.players[a]);
                            assert(old(self)@.players[a].id != id@);
                        } else {
                            assert(ps[b] == old(self)@.players[b]);
                            assert(old(self)@.players[b].id != id@);
                        }
                    }
                    assert(ids_unique(ps));
                    assert(self@.bullets == old(self)@.bullets);
                    assert(self@.tiles == old(self)@.tiles);
                }
            },
        }
    }

    /// Removes the tank of client `id`, if there is one. Its bullets fly on.
    pub fn remove_player(&mut self, id: &str)
        requires
            old(self).wf(),
        ensures
            final(self).wf(),
            final(self)@ == remove_player_model(old(self)@, id@),
    {
        let owned = id.to_owned();
        match self.find_player(&owned) {
            Some(i) => {
                let _removed = self.players.remove(i);
                proof {
                    assert(players_view(self.players@) =~= old(self)@.players.remove(i as int));
                    let ps = self@.players;
                    let o = old(self)@.players;
                    assert forall|k: int| 0 <= k < ps.len() implies player_wf(#[trigger] ps[k]) by {
                        if k < i {
                            assert(ps[k] == o[k]);
                        } else {
                            assert(ps[k] == o[k + 1]);
                        }
                    }
                    assert forall|a: int, b: int| 0 <= a < ps.len() && 0 <= b < ps.len() && a != b implies ps[a].id != ps[b].id by {
                        let a1 = if a < i { a } else { a + 1 };
                        let b1 = if b < i { b } else { b + 1 };
                        assert(ps[a] == o[a1]);
                        assert(ps[b] == o[b1]);
                    }
                    assert(ids_unique(ps));
                    assert(self@.bullets == old(self)@.bullets);
                    assert(self@.tiles == old(self)@.tiles);
                }
            },
            None => {},
        }
    }

    /// Sets where the tank of `player_id` heads, as the normalized `radial`.
    pub fn set_player_movement(&mut self, player_id: &str, radial: &Vector2)
        requires
            old(self).wf(),
        ensures
            final(self).wf(),
            final(self)@ == movement_model(old(self)@, player_id@, vec_normalize(*radial)),
    {
        let owned = player_id.to_owned();
        let movement = radial.normalize();
        match self.find_player(&owned) {
            Some(i) => {
                let mut p = self.players[i].duplicate();
                p.movement = movement;
                self.players.set(i, p);
                proof {
                    assert(players_view(self.players@) =~= old(self)@.players.update(i as int, p@));
                    let ps = self@.players;
                    assert forall|k: int| 0 <= k < ps.len() implies player_wf(#[trigger] ps[k]) by {
                        if k != i {
                            assert(ps[k] == old(self)@.players[k]);
                        }
                    }
                    assert forall|a: int, b: int| 0 <= a < ps.len() && 0 <= b < ps.len() && a != b implies ps[a].id != ps[b].id by {
                        assert(ps[a].id == old(self)@.players[a].id);
                        assert(ps[b].id == old(self)@.players[b].id);
                    }
                    assert(ids_unique(ps));
                    assert(self@.bullets == old(self)@.bullets);
                    assert(self@.tiles == old(self)@.tiles);
                }
            },
            None => {},
        }
    }

    /// Points the gun of `player_id` along `angle`, normalized.
    pub fn set_player_angle(&mut self, player_id: &str, angle: &Vector2)
        requires
            old(self).wf(),
        ensures
            final(self).wf(),
            final(self)@ == aim_model(old(self)@, player_id@, vec_normalize(*angle)),
    {
        let owned = player_id.to_owned();
        let aim = angle.normalize();
        match self.find_player(&owned) {
            Some(i) => {
                let mut p = self.players[i].duplicate();
                p.angle = aim;
                self.players.set(i, p);
                proof {
                    assert(players_view(self.players@) =~= old(self)@.players.update(i as int, p@));
                    let ps = self@.players;
                    assert forall|k: int| 0 <= k < ps.len() implies player_wf(#[trigger] ps[k]) by {
                        if k != i {
                            assert(ps[k] == old(self)@.players[k]);
                        }
                    }
                    assert forall|a: int, b: int| 0 <= a < ps.len() && 0 <= b < ps.len() && a != b implies ps[a].id != ps[b].id by {
                        assert(ps[a].id == old(self)@.players[a].id);
                        assert(ps[b].id == old(self)@.players[b].id);
                    }
                    assert(ids_unique(ps));
                    assert(self@.bullets == old(self)@.bullets);
                    assert(self@.tiles == old(self)@.tiles);
                }
            },
            None => {},
        }
    }

    /// Fires a bullet from the tank of `player_id`, if it is idle and has ammo.
    pub fn player_shoot(&mut self, player_id: &str)
        requires
            old(self).wf(),
        ensures
            final(self).wf(),
            final(self)@ == shoot_model(old(self)@, player_id@),
    {
        let owned = player_id.to_owned();
        match self.find_player(&owned) {
            Some(i) => {
                let p = &self.players[i];
                if p.state == TankState::Idle && p.bullets_remaining > 0 {
                    proof {
                        assert(player_wf(self@.players[i as int]));
                        lemma_scaled_unit(p.angle.x as int, PLAYER_RADIUS as int);
                        lemma_scaled_unit(p.angle.y as int, PLAYER_RADIUS as int);
                        lemma_scaled_unit(p.angle.x as int, BULLET_SPEED as int);
                        lemma_scaled_unit(p.angle.y as int, BULLET_SPEED as int);
                    }
                    let muzzle = p.angle.scale(PLAYER_RADIUS);
                    let bullet = Bullet {
                        player_id: p.id.clone(),
                        position: p.position.plus(&muzzle),
                        velocity: p.angle.scale(BULLET_SPEED),
                        angle: p.angle,
                        ricochets: BULLET_RICOCHETS,
                    };
                    let mut q = p.duplicate();
                    q.bullets_remaining = q.bullets_remaining - 1;
                    q.state = TankState::Shooting(SHOOT_COOLDOWN);
                    self.players.set(i, q);
                    self.bullets.push(bullet);
                    proof {
                        assert(players_view(self.players@) =~= old(self)@.players.update(i as int, q@));
                        assert(bullets_view(self.bullets@) =~= old(self)@.bullets.push(bullet@));
                        let ps = self@.players;
                        assert forall|k: int| 0 <= k < ps.len() implies player_wf(#[trigger] ps[k]) by {
                            if k != i {
                                assert(ps[k] == old(self)@.players[k]);
                            }
                        }
                        assert forall|a: int, b: int| 0 <= a < ps.len() && 0 <= b < ps.len() && a != b implies ps[a].id != ps[b].id by {
                            assert(ps[a].id == old(self)@.players[a].id);
                            assert(ps[b].id == old(self)@.players[b].id);
                        }
                        let bs = self@.bullets;
                        assert forall|k: int| 0 <= k < bs.len() implies bullet_wf(#[trigger] bs[k]) by {
                            if k < bs.len() - 1 {
                                assert(bs[k] == old(self)@.bullets[k]);
                            }
                        }
                    }
                }
            },
            None => {},
        }
    }

    /// Ids of the players, in the order they joined.
    pub fn get_client_ids(&self) -> (r: Vec<String>)
        ensures
            r@.len() == self@.players.len(),
            forall|i: int| 0 <= i < r@.len() ==> r@[i]@ == self@.players[i].id,
    {
        let mut ids: Vec<String> = Vec::new();
        let mut i: usize = 0;
        while i < self.players.len()
            invariant
                i <= self.players@.len(),
                ids@.len() == i,
                forall|k: int| 0 <= k < i ==> ids@[k]@ == self@.players[k].id,
            decreases self.players@.len() - i,
        {
            ids.push(self.players[i].id.clone());
            i = i + 1;
        }
        ids
    }
}


// ---------------------------------------------------------------------------
// The steps of a tick, one executable function each

/// The tile's corner in fixed-point units.
fn corner_of(t: &PlacedTile) -> (r: Vector2)
    requires
        t.row < MAX_GRID,
        t.col < MAX_GRID,
    ensures
        r == tile_corner(*t),
        0 <= r.x <= MAX_GRID * UNIT,
        0 <= r.y <= MAX_GRID * UNIT,
{
    Vector2 { x: (t.col as i64) * UNIT, y: (t.row as i64) * UNIT }
}

fn is_obstacle_exec(t: &Tile) -> (r: bool)
    ensures
        r == is_obstacle(*t),
{
    match t {
        Tile::DestructibleWall { elevation, .. } => *elevation == 0,
        _ => false,
    }
}

/// Step 4 for one bullet.
fn tile_bounce_exec(b: &Bullet, tiles: &Vec<PlacedTile>) -> (r: (Bullet, bool))
    requires
        bullet_mid(b@),
        tiles_wf(tiles@),
    ensures
        (r.0@, r.1) == tile_bounce(b@, tiles@),
        bullet_mid(r.0@),
{
    let mut cur = b.duplicate();
    let mut gone = false;
    let mut j: usize = 0;
    while j < tiles.len()
        invariant
            j <= tiles@.len(),
            tiles_wf(tiles@),
            (cur@, gone) == tile_bounce(b@, tiles@.subrange(0, j as int)),
            bullet_mid(cur@),
        decreases tiles@.len() - j,
    {
        proof {
            assert(tiles@.subrange(0, j + 1).drop_last() =~= tiles@.subrange(0, j as int));
        }
        let t = &tiles[j];
        if !gone && is_obstacle_exec(&t.tile) && t.row < MAX_GRID && t.col < MAX_GRID {
            let corner = corner_of(t);
            match circle_rect_collision(&cur.position, BULLET_RADIUS, &corner, UNIT, UNIT) {
                Err(d) => {
                    gone = cur.hit_wall(d.x != 0, d.y != 0);
                },
                Ok(()) => {},
            }
        }
        j = j + 1;
    }
    proof {
        assert(tiles@.subrange(0, tiles@.len() as int) =~= tiles@);
    }
    (cur, gone)
}

/// Step 5 for one tank and one tile.
fn push_out_exec(c: Vector2, t: &PlacedTile) -> (r: Vector2)
    requires
        -PUSH_LIMIT <= c.x <= PUSH_LIMIT,
        -PUSH_LIMIT <= c.y <= PUSH_LIMIT,
    ensures
        r == push_out(c, *t),
        -PUSH_LIMIT <= r.x <= PUSH_LIMIT,
        -PUSH_LIMIT <= r.y <= PUSH_LIMIT,
{
    if !(is_obstacle_exec(&t.tile) && t.row < MAX_GRID && t.col < MAX_GRID) {
        return c;
    }
    let k = corner_of(t);
    match circle_rect_collision(&c, PLAYER_RADIUS, &k, UNIT, UNIT) {
        Ok(()) => c,
        Err(_) => {
            let left = c.x + PLAYER_RADIUS - k.x;
            let right = k.x + UNIT + PLAYER_RADIUS - c.x;
            let up = c.y + PLAYER_RADIUS - k.y;
            let down = k.y + UNIT + PLAYER_RADIUS - c.y;
            if left <= right && left <= up && left <= down {
                Vector2 { x: k.x - PLAYER_RADIUS, y: c.y }
            } else if right <= up && right <= down {
                Vector2 { x: k.x + UNIT + PLAYER_RADIUS, y: c.y }
            } else if up <= down {
                Vector2 { x: c.x, y: k.y - PLAYER_RADIUS }
            } else {
                Vector2 { x: c.x, y: k.y + UNIT + PLAYER_RADIUS }
            }
        },
    }
}

/// Step 5 for one tank and all tiles.
fn push_out_all_exec(c: Vector2, tiles: &Vec<PlacedTile>) -> (r: Vector2)
    requires
        -PUSH_LIMIT <= c.x <= PUSH_LIMIT,
        -PUSH_LIMIT <= c.y <= PUSH_LIMIT,
        tiles_wf(tiles@),
    ensures
        r == push_out_all(c, tiles@),
        -PUSH_LIMIT <= r.x <= PUSH_LIMIT,
        -PUSH_LIMIT <= r.y <= PUSH_LIMIT,
{
    let mut cur = c;
    let mut j: usize = 0;
    while j < tiles.len()
        invariant
            j <= tiles@.len(),
            tiles_wf(tiles@),
            cur == push_out_all(c, tiles@.subrange(0, j as int)),
            -PUSH_LIMIT <= cur.x <= PUSH_LIMIT,
            -PUSH_LIMIT <= cur.y <= PUSH_LIMIT,
        decreases tiles@.len() - j,
    {
        proof {
            assert(tiles@.subrange(0, j + 1).drop_last() =~= tiles@.subrange(0, j as int));
        }
        cur = push_out_exec(cur, &tiles[j]);
        j = j + 1;
    }
    proof {
        assert(tiles@.subrange(0, tiles@.len() as int) =~= tiles@);
    }
    cur
}

/// Step 6 for one bullet.
fn bounds_bounce_exec(b: &Bullet) -> (r: (Bullet, bool))
    requires
        bullet_mid(b@),
    ensures
        (r.0@, r.1) == bounds_bounce(b@),
        bullet_mid(r.0@),
        !r.1 ==> bullet_wf(r.0@),
{
    let mut cur = b.duplicate();
    let lx = (b.position.x + BULLET_RADIUS > MAP_WIDTH && b.velocity.x > 0) || (b.position.x
        - BULLET_RADIUS < 0 && b.velocity.x < 0);
    let ly = (b.position.y + BULLET_RADIUS > MAP_HEIGHT && b.velocity.y > 0) || (b.position.y
        - BULLET_RADIUS < 0 && b.velocity.y < 0);
    let mut gone = false;
    if lx || ly {
        gone = cur.hit_wall(lx, ly);
    }
    (cur, gone)
}

impl GameState {
    fn moved_bullets(&self) -> (r: Vec<Bullet>)
        requires
            game_wf(self@),
        ensures
            r@.len() == self@.bullets.len(),
            forall|i: int| 0 <= i < r@.len() ==> (#[trigger] r@[i])@ == bullet_moved(self@.bullets[i]),
    {
        let mut out: Vec<Bullet> = Vec::new();
        let mut i: usize = 0;
        while i < self.bullets.len()
            invariant
                i <= self@.bullets.len(),
                game_wf(self@),
                out@.len() == i,
                forall|k: int| 0 <= k < i ==> (#[trigger] out@[k])@ == bullet_moved(self@.bullets[k]),
            decreases self@.bullets.len() - i,
        {
            assert(bullet_wf(self@.bullets[i as int]));
            let mut b = self.bullets[i].duplicate();
            b.physics_update();
            out.push(b);
            i = i + 1;
        }
        out
    }

    fn moved_players(&self) -> (r: Vec<Player>)
        requires
            game_wf(self@),
        ensures
            r@.len() == self@.players.len(),
            forall|i: int| 0 <= i < r@.len() ==> (#[trigger] r@[i])@ == player_moved(self@.players[i]),
    {
        let mut out: Vec<Player> = Vec::new();
        let mut i: usize = 0;
        while i < self.players.len()
            invariant
                i <= self@.players.len(),
                game_wf(self@),
                out@.len() == i,
                forall|k: int| 0 <= k < i ==> (#[trigger] out@[k])@ == player_moved(self@.players[k]),
            decreases self@.players.len() - i,
        {
            assert(player_wf(self@.players[i as int]));
            out.push(self.players[i].physics_update());
            i = i + 1;
        }
        out
    }

    /// Step 2 for one tank: scans the bullets until one hits.
    fn is_hit(&self, p: &Player) -> (r: bool)
        requires
            game_mid(self@),
            player_mid(p@),
        ensures
            r == hit_by_bullet(p@, self@.bullets),
    {
        let mut j: usize = 0;
        while j < self.bullets.len()
            invariant
                j <= self@.bullets.len(),
                game_mid(self@),
                player_mid(p@),
                forall|k: int| 0 <= k < j ==> !circles_overlap(p@.position, PLAYER_RADIUS as int, #[trigger] self@.bullets[k].position, BULLET_RADIUS as int),
            decreases self@.bullets.len() - j,
        {
            assert(bullet_mid(self@.bullets[j as int]));
            if circle_circle_collision(&p.position, PLAYER_RADIUS, &self.bullets[j].position, BULLET_RADIUS).is_err() {
                assert(circles_overlap(p@.position, PLAYER_RADIUS as int, self@.bullets[j as int].position, BULLET_RADIUS as int));
                return true;
            }
            j = j + 1;
        }
        false
    }

    fn players_after_hits(&self) -> (r: Vec<Player>)
        requires
            game_mid(self@),
        ensures
            r@.len() == self@.players.len(),
            forall|i: int| 0 <= i < r@.len() ==> (#[trigger] r@[i])@ == player_after_hits(self@.players[i], self@.bullets),
    {
        let mut out: Vec<Player> = Vec::new();
        let mut i: usize = 0;
        while i < self.players.len()
            invariant
                i <= self@.players.len(),
                game_mid(self@),
                out@.len() == i,
                forall|k: int| 0 <= k < i ==> (#[trigger] out@[k])@ == player_after_hits(self@.players[k], self@.bullets),
            decreases self@.players.len() - i,
        {
            let p = &self.players[i];
            assert(player_mid(self@.players[i as int]));
            let mut q = p.duplicate();
            if p.alive && self.is_hit(p) {
                q.alive = false;
            }
            out.push(q);
            i = i + 1;
        }
        out
    }

    /// Step 3: marks each bullet that overlaps another bullet.
    fn collisions_between_bullets(&self) -> (r: Vec<bool>)
        requires
            game_mid(self@),
        ensures
            r@ == bullet_collision_flags(self@.bullets),
    {
        let n = self.bullets.len();
        let mut flags: Vec<bool> = Vec::new();
        let mut i: usize = 0;
        while i < n
            invariant
                n == self@.bullets.len(),
                i <= n,
                game_mid(self@),
                flags@.len() == i,
                forall|k: int| 0 <= k < i ==> flags@[k] == collides_with_other(self@.bullets, k),
            decreases n - i,
        {
            let mut hit = false;
            let mut j: usize = 0;
            assert(bullet_mid(self@.bullets[i as int]));
            while j < n && !hit
                invariant
                    n == self@.bullets.len(),
                    i < n,
                    j <= n,
                    game_mid(self@),
                    hit ==> collides_with_other(self@.bullets, i as int),
                    !hit ==> forall|k: int| 0 <= k < j && k != i ==> !circles_overlap(self@.bullets[i as int].position, BULLET_RADIUS as int, #[trigger] self@.bullets[k].position, BULLET_RADIUS as int),
                decreases n - j,
            {
                assert(bullet_mid(self@.bullets[j as int]));
                assert(bullet_mid(self@.bullets[i as int]));
                if i != j && circle_circle_collision(&self.bullets[i].position, BULLET_RADIUS, &self.bullets[j].position, BULLET_RADIUS).is_err() {
                    assert(circles_overlap(self@.bullets[i as int].position, BULLET_RADIUS as int, self@.bullets[j as int].position, BULLET_RADIUS as int));
                    hit = true;
                }
                j = j + 1;
            }
            flags.push(hit);
            i = i + 1;
        }
        proof {
            assert(flags@ =~= bullet_collision_flags(self@.bullets));
        }
        flags
    }

    /// Removes the marked bullets; each returns one unit of ammo to its owner, if present.
    fn remove_bullets(&mut self, doomed: &Vec<bool>)
        requires
            game_mid(old(self)@),
            doomed@.len() == old(self)@.bullets.len(),
        ensures
            final(self)@.players =~= after_removal(old(self)@, doomed@).players,
            final(self)@.bullets =~= after_removal(old(self)@, doomed@).bullets,
            final(self)@.tiles == old(self)@.tiles,
    {
        let ghost g0 = old(self)@;
        let n = self.bullets.len();
        let mut kept_v: Vec<Bullet> = Vec::new();
        let mut i: usize = 0;
        while i < n
            invariant
                n == g0.bullets.len(),
                i <= n,
                doomed@.len() == n,
                game_mid(g0),
                self@.bullets == g0.bullets,
                self@.tiles == g0.tiles,
                self@.players.len() == g0.players.len(),
                ids_unique(self@.players),
                forall|k: int| 0 <= k < g0.players.len() ==> (#[trigger] self@.players[k]) == refunded(
                    g0.players[k],
                    refunds(g0.bullets.subrange(0, i as int), doomed@, g0.players[k].id),
                ),
                bullets_view(kept_v@) == kept(g0.bullets.subrange(0, i as int), doomed@),
            decreases n - i,
        {
            proof {
                assert(g0.bullets.subrange(0, i + 1).drop_last() =~= g0.bullets.subrange(0, i as int));
            }
            let ghost ps0 = self@.players;
            proof {
                let sub1 = g0.bullets.subrange(0, i + 1);
                assert(sub1.last() == g0.bullets[i as int]);
                assert forall|id: Seq<char>| #[trigger] refunds(sub1, doomed@, id) == refunds(g0.bullets.subrange(0, i as int), doomed@, id) + if doomed@[i as int] && g0.bullets[i as int].owner == id {
                    1nat
                } else {
                    0nat
                } by {}
            }
            if doomed[i] {
                match self.find_player(&self.bullets[i].player_id) {
                    Some(k) => {
                        if self.players[k].bullets_remaining < BULLET_COUNT {
                            let mut p = self.players[k].duplicate();
                            p.bullets_remaining = p.bullets_remaining + 1;
                            self.players.set(k, p);
                        }
                        proof {
                            let ps = self@.players;
                            assert forall|m: int| 0 <= m < g0.players.len() implies (#[trigger] ps[m]) == refunded(
                                g0.players[m],
                                refunds(g0.bullets.subrange(0, i + 1), doomed@, g0.players[m].id),
                            ) by {
                                if m != k {
                                    assert(ps0[m] == ps[m]);
                                    assert(ps0[m].id == g0.players[m].id);
                                    assert(ps0[k as int].id == g0.players[k as int].id);
                                    assert(g0.players[m].id != g0.players[k as int].id);
                                } else {
                                    assert(ps0[k as int].id == g0.bullets[i as int].owner);
                                }
                            }
                            assert forall|a: int, b: int| 0 <= a < ps.len() && 0 <= b < ps.len() && a != b implies (#[trigger] ps[a]).id != (#[trigger] ps[b]).id by {
                                assert(ps[a].id == g0.players[a].id);
                                assert(ps[b].id == g0.players[b].id);
                            }
                        }
                    },
                    None => {
                        proof {
                            let ps = self@.players;
                            assert forall|m: int| 0 <= m < g0.players.len() implies (#[trigger] ps[m]) == refunded(
                                g0.players[m],
                                refunds(g0.bullets.subrange(0, i + 1), doomed@, g0.players[m].id),
                            ) by {
                                assert(ps[m].id == g0.players[m].id);
                            }
                        }
                    },
                }
            } else {
                kept_v.push(self.bullets[i].duplicate());
                proof {
                    assert(bullets_view(kept_v@) =~= kept(g0.bullets.subrange(0, i as int), doomed@).push(g0.bullets[i as int]));
                }
            }
            i = i + 1;
        }
        self.bullets = kept_v;
        proof {
            assert(g0.bullets.subrange(0, n as int) =~= g0.bullets);
        }
    }

    fn bounce_off_tiles(&self) -> (r: (Vec<Bullet>, Vec<bool>))
        requires
            game_mid(self@),
        ensures
            r.0@.len() == self@.bullets.len(),
            r.1@.len() == self@.bullets.len(),
            forall|i: int| 0 <= i < r.0@.len() ==> ((#[trigger] r.0@[i])@, r.1@[i]) == tile_bounce(self@.bullets[i], self@.tiles),
            forall|i: int| 0 <= i < r.0@.len() ==> bullet_mid((#[trigger] r.0@[i])@),
    {
        let mut out: Vec<Bullet> = Vec::new();
        let mut flags: Vec<bool> = Vec::new();
        let mut i: usize = 0;
        while i < self.bullets.len()
            invariant
                i <= self@.bullets.len(),
                game_mid(self@),
                out@.len() == i,
                flags@.len() == i,
                forall|k: int| 0 <= k < i ==> ((#[trigger] out@[k])@, flags@[k]) == tile_bounce(self@.bullets[k], self@.tiles),
                forall|k: int| 0 <= k < i ==> bullet_mid((#[trigger] out@[k])@),
            decreases self@.bullets.len() - i,
        {
            assert(bullet_mid(self@.bullets[i as int]));
            let (b, gone) = tile_bounce_exec(&self.bullets[i], &self.environment.tiles);
            out.push(b);
            flags.push(gone);
            i = i + 1;
        }
        (out, flags)
    }

    fn pushed_players(&self) -> (r: Vec<Player>)
        requires
            game_mid(self@),
        ensures
            r@.len() == self@.players.len(),
            forall|i: int| 0 <= i < r@.len() ==> (#[trigger] r@[i])@ == (PlayerView {
                position: push_out_all(self@.players[i].position, self@.tiles),
                ..self@.players[i]
            }),
            forall|i: int| 0 <= i < r@.len() ==> player_mid((#[trigger] r@[i])@),
    {
        let mut out: Vec<Player> = Vec::new();
        let mut i: usize = 0;
        while i < self.players.len()
            invariant
                i <= self@.players.len(),
                game_mid(self@),
                out@.len() == i,
                forall|k: int| 0 <= k < i ==> (#[trigger] out@[k])@ == (PlayerView {
                    position: push_out_all(self@.players[k].position, self@.tiles),
                    ..self@.players[k]
                }),
                forall|k: int| 0 <= k < i ==> player_mid((#[trigger] out@[k])@),
            decreases self@.players.len() - i,
        {
            assert(player_mid(self@.players[i as int]));
            let mut p = self.players[i].duplicate();
            p.position = push_out_all_exec(p.position, &self.environment.tiles);
            out.push(p);
            i = i + 1;
        }
        out
    }

    fn bounce_off_bounds(&self) -> (r: (Vec<Bullet>, Vec<bool>))
        requires
            game_mid(self@),
        ensures
            r.0@.len() == self@.bullets.len(),
            r.1@.len() == self@.bullets.len(),
            forall|i: int| 0 <= i < r.0@.len() ==> ((#[trigger] r.0@[i])@, r.1@[i]) == bounds_bounce(self@.bullets[i]),
            forall|i: int| 0 <= i < r.0@.len() ==> bullet_mid((#[trigger] r.0@[i])@),
            forall|i: int| 0 <= i < r.0@.len() && !r.1@[i] ==> bullet_wf((#[trigger] r.0@[i])@),
    {
        let mut out: Vec<Bullet> = Vec::new();
        let mut flags: Vec<bool> = Vec::new();
        let mut i: usize = 0;
        while i < self.bullets.len()
            invariant
                i <= self@.bullets.len(),
                game_mid(self@),
                out@.len() == i,
                flags@.len() == i,
                forall|k: int| 0 <= k < i ==> ((#[trigger] out@[k])@, flags@[k]) == bounds_bounce(self@.bullets[k]),
                forall|k: int| 0 <= k < i ==> bullet_mid((#[trigger] out@[k])@),
                forall|k: int| 0 <= k < i && !flags@[k] ==> bullet_wf((#[trigger] out@[k])@),
            decreases self@.bullets.len() - i,
        {
            assert(bullet_mid(self@.bullets[i as int]));
            let (b, gone) = bounds_bounce_exec(&self.bullets[i]);
            out.push(b);
            flags.push(gone);
            i = i + 1;
        }
        (out, flags)
    }

    fn clamped_players(&self) -> (r: Vec<Player>)
        requires
            game_mid(self@),
        ensures
            r@.len() == self@.players.len(),
            forall|i: int| 0 <= i < r@.len() ==> (#[trigger] r@[i])@ == clamped(self@.players[i]),
            forall|i: int| 0 <= i < r@.len() ==> player_wf((#[trigger] r@[i])@),
    {
        let mut out: Vec<Player> = Vec::new();
        let mut i: usize = 0;
        while i < self.players.len()
            invariant
                i <= self@.players.len(),
                game_mid(self@),
                out@.len() == i,
                forall|k: int| 0 <= k < i ==> (#[trigger] out@[k])@ == clamped(self@.players[k]),
                forall|k: int| 0 <= k < i ==> player_wf((#[trigger] out@[k])@),
            decreases self@.players.len() - i,
        {
            assert(player_mid(self@.players[i as int]));
            let mut p = self.players[i].duplicate();
            p.position = Vector2 {
                x: clamp_i64(p.position.x, PLAYER_RADIUS, MAP_WIDTH - PLAYER_RADIUS),
                y: clamp_i64(p.position.y, PLAYER_RADIUS, MAP_HEIGHT - PLAYER_RADIUS),
            };
            out.push(p);
            i = i + 1;
        }
        out
    }

    /// Advances the world by one tick: movement, tank hits, bullet-bullet
    /// collisions, bullet-wall bounces, tank-wall pushes, bullet-bound bounces,
    /// and tank clamping, in this order.
    pub fn tick(&mut self)
        requires
            old(self).wf(),
        ensures
            final(self).wf(),
            final(self)@ == tick_model(old(self)@),
    {
        let ghost g0 = self@;
        // 1. movement
        let bs = self.moved_bullets();
        let ps = self.moved_players();
        self.bullets = bs;
        self.players = ps;
        let ghost g1 = step_move(g0);
        proof {
            assert(self@.players =~= g1.players);
            assert(self@.bullets =~= g1.bullets);
            assert forall|i: int| 0 <= i < g1.players.len() implies player_mid(#[trigger] g1.players[i]) by {
                assert(player_wf(g0.players[i]));
                lemma_scaled_unit(g0.players[i].movement.x as int, PLAYER_SPEED as int);
                lemma_scaled_unit(g0.players[i].movement.y as int, PLAYER_SPEED as int);
            }
            assert forall|i: int| 0 <= i < g1.bullets.len() implies bullet_mid(#[trigger] g1.bullets[i]) by {
                assert(bullet_wf(g0.bullets[i]));
            }
            lemma_ids_kept(g0.players, g1.players);
            assert(game_mid(g1));
        }
        // 2. tanks hit by bullets
        let ps = self.players_after_hits();
        self.players = ps;
        let ghost g2 = step_player_hits(g1);
        proof {
            assert(self@.players =~= g2.players);
            assert forall|i: int| 0 <= i < g2.players.len() implies player_mid(#[trigger] g2.players[i]) by {
                assert(player_mid(g1.players[i]));
            }
            lemma_ids_kept(g1.players, g2.players);
            assert(game_mid(g2));
        }
        // 3. bullets colliding with each other
        let doomed = self.collisions_between_bullets();
        self.remove_bullets(&doomed);
        let ghost g3 = step_bullet_collisions(g2);
        proof {
            lemma_removal_mid(g2, doomed@);
            assert(self@ == g3);
        }
        // 4. bullets against walls
        let (bs, doomed) = self.bounce_off_tiles();
        proof {
            assert forall|i: int| 0 <= i < doomed@.len() implies doomed@[i] == tile_bounce(g3.bullets[i], g3.tiles).1 by {
                assert((bs@[i]@, doomed@[i]) == tile_bounce(self@.bullets[i], self@.tiles));
            }
        }
        self.bullets = bs;
        let ghost bounced = GameView { bullets: g3.bullets.map_values(|b: BulletView| tile_bounce(b, g3.tiles).0), ..g3 };
        proof {
            assert(self@.bullets =~= bounced.bullets);
            assert(doomed@ =~= g3.bullets.map_values(|b: BulletView| tile_bounce(b, g3.tiles).1));
            assert(game_mid(bounced));
        }
        self.remove_bullets(&doomed);
        let ghost g4 = step_bullet_tiles(g3);
        proof {
            lemma_removal_mid(bounced, doomed@);
            assert(self@ == g4);
        }
        // 5. tanks against walls
        let ps = self.pushed_players();
        self.players = ps;
        let ghost g5 = step_player_tiles(g4);
        proof {
            assert(self@.players =~= g5.players);
            lemma_ids_kept(g4.players, g5.players);
            assert(game_mid(g5));
        }
        // 6. bullets against the bounds of the map
        let (bs, doomed) = self.bounce_off_bounds();
        proof {
            assert forall|i: int| 0 <= i < doomed@.len() implies doomed@[i] == bounds_bounce(g5.bullets[i]).1 by {
                assert((bs@[i]@, doomed@[i]) == bounds_bounce(self@.bullets[i]));
            }
        }
        self.bullets = bs;
        let ghost bounced6 = GameView { bullets: g5.bullets.map_values(|b: BulletView| bounds_bounce(b).0), ..g5 };
        proof {
            assert(self@.bullets =~= bounced6.bullets);
            assert(doomed@ =~= g5.bullets.map_values(|b: BulletView| bounds_bounce(b).1));
            assert(game_mid(bounced6));
        }
        self.remove_bullets(&doomed);
        let ghost g6 = step_bullet_bounds(g5);
        proof {
            lemma_removal_mid(bounced6, doomed@);
            assert(self@ == g6);
            lemma_kept_all(bounced6.bullets, doomed@, |b: BulletView| bullet_wf(b));
        }
        // 7. tanks kept inside the map
        let ps = self.clamped_players();
        self.players = ps;
        proof {
            let g7 = step_clamp(g6);
            assert(self@.players =~= g7.players);
            lemma_ids_kept(g6.players, g7.players);
            assert(self@ == g7);
            assert forall|i: int| 0 <= i < g7.bullets.len() implies bullet_wf(#[trigger] g7.bullets[i]) by {
                assert(g7.bullets[i] == kept(bounced6.bullets, doomed@)[i]);
            }
        }
    }
}

/// Keeping every player's id keeps them distinct.
proof fn lemma_ids_kept(ps0: Seq<PlayerView>, ps1: Seq<PlayerView>)
    requires
        ids_unique(ps0),
        ps1.len() == ps0.len(),
        forall|i: int| 0 <= i < ps0.len() ==> (#[trigger] ps1[i]).id == ps0[i].id,
    ensures
        ids_unique(ps1),
{
    assert forall|a: int, b: int| 0 <= a < ps1.len() && 0 <= b < ps1.len() && a != b implies (#[trigger] ps1[a]).id != (#[trigger] ps1[b]).id by {
        assert(ps0[a].id != ps0[b].id);
    }
}

/// Removing bullets and refunding their ammo keeps the bounds between steps.
proof fn lemma_removal_mid(g: GameView, d: Seq<bool>)
    requires
        game_mid(g),
        d.len() == g.bullets.len(),
    ensures
        game_mid(after_removal(g, d)),
{
    let r = after_removal(g, d);
    assert forall|i: int| 0 <= i < r.players.len() implies player_mid(#[trigger] r.players[i]) by {
        assert(player_mid(g.players[i]));
    }
    lemma_ids_kept(g.players, r.players);
    assert forall|i: int| 0 <= i < g.bullets.len() && !d[i] implies (|b: BulletView| bullet_mid(b))(#[trigger] g.bullets[i]) by {
        assert(bullet_mid(g.bullets[i]));
    }
    lemma_kept_all(g.bullets, d, |b: BulletView| bullet_mid(b));
}


// ---------------------------------------------------------------------------
// Laws of the engine

/// The world after `n` ticks.
pub open spec fn ticks(g: GameView, n: nat) -> GameView
    decreases n,
{
    if n == 0 {
        g
    } else {
        tick_model(ticks(g, (n - 1) as nat))
    }
}

/// Ticking is deterministic: equal worlds stay equal through any number of
/// ticks, as the outcome is a function of the world and fixed constants alone.
pub proof fn lemma_tick_deterministic(a: GameView, b: GameView, n: nat)
    requires
        a == b,
    ensures
        ticks(a, n) == ticks(b, n),
        tick_model(a) == tick_model(b),
{
}

/// A bullet after meeting walls or bounds in turn; once destroyed it meets no more.
pub open spec fn wall_hits(b: BulletView, hits: Seq<(bool, bool)>) -> (BulletView, bool)
    decreases hits.len(),
{
    if hits.len() == 0 {
        (b, false)
    } else {
        let (b1, gone) = wall_hits(b, hits.drop_last());
        if gone {
            (b1, true)
        } else {
            wall_hit(b1, hits.last().0, hits.last().1)
        }
    }
}

/// Ricochet accounting: a bullet with `R` ricochets survives exactly `R`
/// reflecting collisions and is destroyed by the next one; while it survives,
/// each collision has spent one ricochet.
pub proof fn lemma_ricochet_accounting(b: BulletView, hits: Seq<(bool, bool)>)
    ensures
        wall_hits(b, hits).1 <==> hits.len() > b.ricochets,
        !wall_hits(b, hits).1 ==> wall_hits(b, hits).0.ricochets == b.ricochets - hits.len(),
    decreases hits.len(),
{
    if hits.len() > 0 {
        lemma_ricochet_accounting(b, hits.drop_last());
    }
}

/// Ammo a player holds plus the bullets of theirs in flight.
pub open spec fn holding(g: GameView, i: int) -> int {
    g.players[i].ammo + owned_count(g.bullets, g.players[i].id)
}

proof fn lemma_tile_bounce_owner(b: BulletView, tiles: Seq<PlacedTile>)
    ensures
        tile_bounce(b, tiles).0.owner == b.owner,
    decreases tiles.len(),
{
    if tiles.len() > 0 {
        lemma_tile_bounce_owner(b, tiles.drop_last());
    }
}

proof fn lemma_refunds_le(bs: Seq<BulletView>, d: Seq<bool>, id: Seq<char>)
    ensures
        refunds(bs, d, id) <= owned_count(bs, id),
    decreases bs.len(),
{
    if bs.len() > 0 {
        lemma_refunds_le(bs.drop_last(), d, id);
    }
}

/// Removing bullets returns their ammo, keeping each holding that has room.
proof fn lemma_removal_conserves(g: GameView, d: Seq<bool>, i: int)
    requires
        d.len() == g.bullets.len(),
        0 <= i < g.players.len(),
        holding(g, i) <= BULLET_COUNT,
    ensures
        after_removal(g, d).players.len() == g.players.len(),
        after_removal(g, d).players[i].id == g.players[i].id,
        holding(after_removal(g, d), i) == holding(g, i),
{
    lemma_refunds_partition(g.bullets, d, g.players[i].id);
    lemma_refunds_le(g.bullets, d, g.players[i].id);
}

/// A tick keeps, for every player whose holding has room, ammo plus bullets in flight.
pub proof fn lemma_tick_conserves_ammo(g: GameView, i: int)
    requires
        0 <= i < g.players.len(),
        holding(g, i) <= BULLET_COUNT,
    ensures
        tick_model(g).players.len() == g.players.len(),
        tick_model(g).players[i].id == g.players[i].id,
        holding(tick_model(g), i) == holding(g, i),
{
    let id = g.players[i].id;
    let g1 = step_move(g);
    lemma_owned_count_map(g.bullets, |b: BulletView| bullet_moved(b), id);
    assert(holding(g1, i) == holding(g, i));
    let g2 = step_player_hits(g1);
    assert(holding(g2, i) == holding(g, i));
    let g3 = step_bullet_collisions(g2);
    lemma_removal_conserves(g2, bullet_collision_flags(g2.bullets), i);
    let f4 = |b: BulletView| tile_bounce(b, g3.tiles).0;
    assert forall|b: BulletView| #[trigger] f4(b).owner == b.owner by {
        lemma_tile_bounce_owner(b, g3.tiles);
    }
    lemma_owned_count_map(g3.bullets, f4, id);
    let bounced = GameView { bullets: g3.bullets.map_values(f4), ..g3 };
    assert(holding(bounced, i) == holding(g, i));
    lemma_removal_conserves(bounced, g3.bullets.map_values(|b: BulletView| tile_bounce(b, g3.tiles).1), i);
    let g4 = step_bullet_tiles(g3);
    assert(holding(g4, i) == holding(g, i));
    let g5 = step_player_tiles(g4);
    assert(holding(g5, i) == holding(g, i));
    let f6 = |b: BulletView| bounds_bounce(b).0;
    lemma_owned_count_map(g5.bullets, f6, id);
    let bounced6 = GameView { bullets: g5.bullets.map_values(f6), ..g5 };
    assert(holding(bounced6, i) == holding(g, i));
    lemma_removal_conserves(bounced6, g5.bullets.map_values(|b: BulletView| bounds_bounce(b).1), i);
    let g6 = step_bullet_bounds(g5);
    assert(holding(g6, i) == holding(g, i));
    let g7 = step_clamp(g6);
    assert(holding(g7, i) == holding(g, i));
}

/// Firing turns one unit of a player's ammo into one bullet of theirs.
pub proof fn lemma_shoot_conserves_ammo(g: GameView, id: Seq<char>, i: int)
    requires
        ids_unique(g.players),
        0 <= i < g.players.len(),
    ensures
        shoot_model(g, id).players.len() == g.players.len(),
        shoot_model(g, id).players[i].id == g.players[i].id,
        ids_unique(shoot_model(g, id).players),
        holding(shoot_model(g, id), i) == holding(g, i),
{
    let g2 = shoot_model(g, id);
    if has_player(g.players, id) && can_shoot(g.players[index_of(g.players, id)]) {
        let k = index_of(g.players, id);
        let p = g.players[k];
        assert(g2.bullets.drop_last() =~= g.bullets);
        lemma_ids_kept(g.players, g2.players);
        if k != i {
            assert(g.players[i].id != g.players[k].id);
        }
    }
}

/// A run of operations: `Some(id)` is a shot by `id`, `None` a tick.
pub open spec fn run_ops(g: GameView, ops: Seq<Option<Seq<char>>>) -> GameView
    decreases ops.len(),
{
    if ops.len() == 0 {
        g
    } else {
        let g1 = run_ops(g, ops.drop_last());
        match ops.last() {
            Some(id) => shoot_model(g1, id),
            None => tick_model(g1),
        }
    }
}

/// Ammo conservation: over any sequence of shots and ticks, a player's ammo
/// plus their bullets in flight stays constant, for a player whose total is
/// within the ammo limit (so that no returned bullet is lost to the cap).
pub proof fn lemma_ammo_conservation(g: GameView, ops: Seq<Option<Seq<char>>>, i: int)
    requires
        ids_unique(g.players),
        0 <= i < g.players.len(),
        holding(g, i) <= BULLET_COUNT,
    ensures
        run_ops(g, ops).players.len() == g.players.len(),
        run_ops(g, ops).players[i].id == g.players[i].id,
        holding(run_ops(g, ops), i) == holding(g, i),
        ids_unique(run_ops(g, ops).players),
    decreases ops.len(),
{
    if ops.len() > 0 {
        lemma_ammo_conservation(g, ops.drop_last(), i);
        let g1 = run_ops(g, ops.drop_last());
        match ops.last() {
            Some(id) => {
                lemma_shoot_conserves_ammo(g1, id, i);
            },
            None => {
                lemma_tick_conserves_ammo(g1, i);
                let g2 = tick_model(g1);
                assert forall|k: int| 0 <= k < g1.players.len() implies (#[trigger] g2.players[k]).id == g1.players[k].id by {}
                lemma_ids_kept(g1.players, g2.players);
            },
        }
    }
}

} // verus!
