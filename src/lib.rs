//! Verified core of a chess-engine tournament arbiter: pairing generation,
//! the live schedule queue, result bookkeeping and standings, the engine
//! protocol parser and the per-game decision rules.

pub mod types;
pub mod text;
pub mod pairing;
pub mod schedule;
pub mod protocol;
pub mod sprt;
pub mod stats;
pub mod progress;
pub mod game;
pub mod record;
pub mod variant;
pub mod openings;
pub mod board;
pub mod session;
