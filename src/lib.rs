//! A four-player trick-taking card game of the Hearts family: a 52-card set
//! packed into one machine word, its text grammar, the rules of play, the
//! scoring state machine and a deterministic strategy for unattended players.

pub mod bits;
pub mod card;
pub mod text;
pub mod deal;
pub mod strategy;
pub mod player;
pub mod game;
pub mod extra;
pub mod phase;
