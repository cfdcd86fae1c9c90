//! A verified chess rules engine: board representation, legal move
//! generation, special moves (castling, en passant, promotion), terminal
//! state detection, and a Forsyth-Edwards text codec.

pub mod gamelogic;
