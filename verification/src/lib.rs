//! A deterministic, tick-based multiplayer worm-game engine.
//!
//! Players steer growing worms on a shared rectangular board; worms die on
//! collision with walls or bodies, eat food to grow, and vacated cells may
//! turn into food. The simulation is driven by a seeded counter-based random
//! generator whose cursor can be saved and restored exactly, so that a whole
//! game snapshot replayed elsewhere evolves identically.

pub mod geom;
pub mod messages;
pub mod board;
pub mod serializable_chacha;
pub mod model;
pub mod game;
pub mod actor;
