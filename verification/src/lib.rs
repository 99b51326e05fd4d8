//! A simulator core for a card-and-board expedition game for 2 to 4 players.
//!
//! The heart of the library is a turn state machine, [`state::GameState`],
//! which enumerates the legal actions in every state, applies a chosen action,
//! and resolves scoring once the draw deck runs out.  All rules are stated as
//! contracts over a mathematical model of the game ([`model`]) and proved.

pub mod game;
pub mod model;
pub mod state;
pub mod types;
