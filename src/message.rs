use vstd::prelude::*;

use std::collections::VecDeque;

use crate::grid::Pos;

verus! {

/// What one tick changed in a room, as broadcast to every client in it.
pub struct TickUpdate {
    /// Each surviving client with the direction it moved in.
    pub moves: Vec<(u128, (i32, i32))>,
    pub food: Pos,
    /// The clients that died this tick: at a wall, then by collision.
    pub deaths: Vec<u128>,
    /// The clients whose head landed on the food.
    pub eaters: Vec<u128>,
    /// The whole bodies of the clients that joined since the last tick.
    pub new_snakes: Vec<(u128, VecDeque<Pos>)>,
    /// The clients still in their ghost grace.
    pub ghosts: Vec<u128>,
}

/// The messages between a client session and its room.
pub enum SnakeMessage {
    /// Sent once to a client that joins: its id and every body in the room.
    OnJoin { my_id: u128, snakes: Vec<(u128, VecDeque<Pos>)>, tick_duration_ms: u32 },
    /// Sent to every client of a room once per tick.
    TickUpdate(TickUpdate),
    /// Sent by a client: the direction it wants to move in.
    MoveIntent { dx: i32, dy: i32 },
}

/// How many players a room holds, for lobby observers.
#[derive(Clone, Copy, Debug, PartialEq, Eq, Structural)]
pub struct LobbyUpdate {
    pub room_id: u32,
    pub player_count: usize,
}

/// A room as a lobby lists it.
#[derive(Clone, Debug)]
pub struct RoomInfo {
    pub name: String,
    pub player_count: usize,
}

} // verus!
