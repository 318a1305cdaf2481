//! Scorekeeping engine for a multiplayer card game: a roster of players, a
//! grid of per-round scores with a single edit cursor, game-over detection
//! with tie handling, and a stable leaderboard.
use vstd::prelude::*;

pub mod state;
pub mod cursor;
pub mod roster;
pub mod session;
