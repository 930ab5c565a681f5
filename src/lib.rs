//! Server core of a real-time multiplayer tank arena: fixed-point geometry,
//! the per-session game state engine, the session and client registries, the
//! map format, and the dispatch of client events.
//!
//! All positions and velocities are integers in thousandths of a map tile,
//! so a tick is exact and reproducible: the same world always ticks to the
//! same world. Transport, JSON and timers are left to the embedding program,
//! which hands events in and sends the returned broadcasts out.
use vstd::prelude::*;

pub mod clients;
pub mod environment;
pub mod game;
pub mod geometry;
pub mod map;
pub mod protocol;
pub mod server;
pub mod sessions;

verus! {

} // verus!
