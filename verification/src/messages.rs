//! Player identity and the per-tick input and event vocabulary.

use vstd::prelude::*;
use crate::geom::{Coord, Direction};

verus! {

/// An opaque player identity: assigned monotonically by the session actor and
/// never reused while the process runs.
#[derive(Copy, Clone, Debug, PartialEq, Eq, Structural, Hash)]
pub struct PlayerId(pub usize);

/// The only mutation a client may request, buffered until the next tick.
#[derive(Copy, Clone, Debug, PartialEq, Eq, Structural)]
pub enum SnakePlayerInput {
    ChangeDirection(Direction),
}

/// The externally observable outcomes of one tick. A death carries the
/// probability weight with which each vacated cell turns into food.
#[derive(Copy, Clone, Debug, PartialEq, Eq, Structural)]
pub enum SnakeGameEvent {
    PlayerDied(PlayerId, u32),
    PlayerAteFood(PlayerId, Coord),
}

impl SnakeGameEvent {
    /// The player this event speaks of.
    pub open spec fn pid(self) -> PlayerId {
        match self {
            SnakeGameEvent::PlayerDied(pid, _) => pid,
            SnakeGameEvent::PlayerAteFood(pid, _) => pid,
        }
    }
}

} // verus!
