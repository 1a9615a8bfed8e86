//! Deterministic world generation, chunk streaming and game-state rules
//! for a procedurally generated space exploration game.
pub mod seed;
pub mod chunk;
pub mod combat;
pub mod player;
pub mod game;
