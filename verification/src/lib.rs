//! Move evaluation for a Battlesnake bot: board model, threat maps,
//! flood-fill space counting and the per-direction assessment that the
//! server turns into a move.

pub mod datatypes;
pub mod grid;
pub mod tools;
pub mod algorithms;
pub mod algorythms;
pub mod move_algos;
pub mod game;
