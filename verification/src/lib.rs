//! An authoritative multiplayer snake engine: per-lobby simulation state, a
//! tick-driven game loop, toroidal movement, apple growth, collision rules,
//! an accelerating tick clock, and a fixed-capacity ring of random tick
//! identifiers used for stale-input rejection.

pub mod battle;
pub mod client;
pub mod game;
pub mod protocol;
mod rng;
pub mod tick_buffer;
