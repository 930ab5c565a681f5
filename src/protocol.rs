//! The events exchanged with clients, and the world snapshot sent each tick.
use vstd::prelude::*;

use crate::game::{GameState, GameView};
use crate::geometry::Vector2;

verus! {

/// What a client asks of the server.
#[derive(Debug)]
pub enum ClientEvent {
    /// Head in this direction (normalized by the server).
    MovementUpdate { direction: Vector2 },
    /// Aim the gun along this direction (normalized by the server).
    AimUpdate { direction: Vector2 },
    Shoot,
    /// Join the session with this id, creating it if unknown.
    JoinSession(String),
    /// Create a session with a fresh id and join it.
    CreateSession,
    LeaveSession,
}

/// Where a bullet is and where it flies.
#[derive(Clone, Copy, Debug, PartialEq, Eq, Structural)]
pub struct BulletWrapper {
    pub position: Vector2,
    pub angle: Vector2,
}

/// Where a tank is, where it heads and where it aims.
#[derive(Debug)]
pub struct TankWrapper {
    pub id: String,
    pub position: Vector2,
    pub movement: Vector2,
    pub angle: Vector2,
}

/// What the server tells clients.
#[derive(Debug)]
pub enum ServerEvent {
    /// The world after a tick.
    GameState { bullets: Vec<BulletWrapper>, tanks: Vec<TankWrapper> },
    /// A client joined a session; the roster lists all members.
    ClientJoined { session_id: String, client_id: String, session_client_ids: Vec<String> },
    /// A member left or lost its connection.
    PlayerDisconnect { player: String },
}

/// One event for a list of clients.
#[derive(Debug)]
pub struct Broadcast {
    pub recipients: Vec<String>,
    pub event: ServerEvent,
}

pub open spec fn strings_view(v: Seq<String>) -> Seq<Seq<char>> {
    v.map_values(|s: String| s@)
}

/// `ev` is the snapshot of world `g`: each bullet's position and direction,
/// and each tank's id, position, movement and aim, in order.
pub open spec fn snapshot_of(ev: ServerEvent, g: GameView) -> bool {
    match ev {
        ServerEvent::GameState { bullets, tanks } => {
            &&& bullets@.len() == g.bullets.len()
            &&& forall|i: int| 0 <= i < bullets@.len() ==> (#[trigger] bullets@[i]) == (BulletWrapper {
                position: g.bullets[i].position,
                angle: g.bullets[i].aim,
            })
            &&& tanks@.len() == g.players.len()
            &&& forall|i: int| 0 <= i < tanks@.len() ==> {
                &&& (#[trigger] tanks@[i]).id@ == g.players[i].id
                &&& tanks@[i].position == g.players[i].position
                &&& tanks@[i].movement == g.players[i].movement
                &&& tanks@[i].angle == g.players[i].aim
            }
        },
        _ => false,
    }
}

/// The snapshot of a world that is broadcast after each tick.
pub fn convert_gamestate_to_broadcast(gs: &GameState) -> (r: ServerEvent)
    ensures
        snapshot_of(r, gs@),
{
    let mut bullets: Vec<BulletWrapper> = Vec::new();
    let mut i: usize = 0;
    while i < gs.bullets.len()
        invariant
            i <= gs@.bullets.len(),
            bullets@.len() == i,
            forall|k: int| 0 <= k < i ==> (#[trigger] bullets@[k]) == (BulletWrapper {
                position: gs@.bullets[k].position,
                angle: gs@.bullets[k].aim,
            }),
        decreases gs@.bullets.len() - i,
    {
        bullets.push(BulletWrapper { position: gs.bullets[i].position, angle: gs.bullets[i].angle });
        i = i + 1;
    }
    let mut tanks: Vec<TankWrapper> = Vec::new();
    let mut j: usize = 0;
    while j < gs.players.len()
        invariant
            j <= gs@.players.len(),
            tanks@.len() == j,
            forall|k: int| 0 <= k < j ==> {
                &&& (#[trigger] tanks@[k]).id@ == gs@.players[k].id
                &&& tanks@[k].position == gs@.players[k].position
                &&& tanks@[k].movement == gs@.players[k].movement
                &&& tanks@[k].angle == gs@.players[k].aim
            },
        decreases gs@.players.len() - j,
    {
        let p = &gs.players[j];
        tanks.push(TankWrapper { id: p.id.clone(), position: p.position, movement: p.movement, angle: p.angle });
        j = j + 1;
    }
    ServerEvent::GameState { bullets, tanks }
}

} // verus!
