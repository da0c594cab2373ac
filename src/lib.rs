//! A turn-based sea battle on a small grid: enemy ships and sea monsters move
//! all at once, and a resolver settles every collision by a fixed outcome table,
//! with no two entities left on one cell and a bounded number of passes.

pub mod grid;
pub mod entity;
pub mod dice;
pub mod outcome;
pub mod resolver;
pub mod laws;
pub mod navigation;
pub mod setup;
pub mod weapons;
pub mod player;
