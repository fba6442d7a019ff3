//! The simulation core of a falling-block puzzle game with per-pixel "sand"
//! physics: pieces are made of individually simulated sub-cells, locked
//! particles settle and pack under a gravity automaton, and a same-colour
//! connected path spanning the board horizontally is cleared.

pub mod game;
