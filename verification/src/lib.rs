//! Chess move generation and position handling: bitboards, attack sets,
//! legal moves, move application, and the coordinate, algebraic and
//! position-text notations, for orthodox chess, Crazyhouse and Three-Check.

pub mod attacks;
pub mod bitboard;
pub mod board;
pub mod completeness;
pub mod fen;
pub mod fen_laws;
pub mod invariants;
pub mod legal;
pub mod movegen;
pub mod perft;
pub mod placement;
pub mod position;
pub mod safety;
pub mod san;
pub mod square;
pub mod text;
pub mod types;
pub mod uci;
pub mod validity;
pub mod variant;
