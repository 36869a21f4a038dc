//! A rules engine for chess-family games on a rectangular board of up to 256
//! squares, with pluggable troop behaviours, attack maps, self-check filtering,
//! castling rules, an en-passant trail and run-length export.

pub mod chess;
pub mod classical;
pub mod export;
pub mod laws;
