use vstd::prelude::*;

pub mod bitgrid;
pub mod grid;
pub mod message;
pub mod mirror;
pub mod snake;
pub mod room;

pub use grid::{OccupancyGrid, Pos};
pub use message::{LobbyUpdate, RoomInfo, SnakeMessage, TickUpdate};
pub use room::{RoomConfig, RoomManager};
pub use snake::Client;

verus! {

/// Relies on rand::random (rand 0.8): a value drawn from the thread-local
/// generator. Nothing is promised of the value.
pub assume_specification<T>[ rand::random::<T> ]() -> (r: T)
    where
        rand::distributions::Standard: rand::distributions::Distribution<T>,
;

} // verus!
