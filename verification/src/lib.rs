//! A chess rules engine on bitboards: legal-move generation, move
//! application, and terminal-state detection (checkmate, stalemate, draws),
//! with machine-checked contracts for every operation.
//!
//! - [`bits`] and [`geometry`] give the bitboard and square primitives.
//! - [`attacks`] computes each piece kind's attack and move squares, with
//!   contracts over per-square step and ray predicates.
//! - [`board`] holds the position aggregate and its well-formedness.
//! - [`threat`] computes side attacks and check, against real or
//!   hypothetical occupancies.
//! - [`moves`] defines and computes legal destinations, and the derived
//!   queries (checkmate, stalemate, move counting).
//! - [`play`] applies moves and evaluates terminal states.
//! - [`fen`] loads a position from its textual description.
//! - [`symmetry`] proves the colour symmetry of attack generation.

pub mod attacks;
pub mod bits;
pub mod board;
pub mod fen;
pub mod geometry;
pub mod moves;
pub mod play;
pub mod symmetry;
pub mod threat;

pub use attacks::compute_bishop_attacks;
pub use attacks::compute_black_pawn_attacks;
pub use attacks::compute_black_pawn_moves;
pub use attacks::compute_king_attacks;
pub use attacks::compute_knight_attacks;
pub use attacks::compute_rook_attacks;
pub use attacks::compute_white_pawn_attacks;
pub use attacks::compute_white_pawn_moves;
pub use bits::bit_count;
pub use bits::bit_scan;
pub use board::CastlingRights;
pub use board::ChessBoard;
pub use board::GameResult;
pub use board::PieceType;
pub use board::Snapshot;
pub use fen::string_to_square;
pub use fen::FenError;
pub use geometry::SQUARE;
pub use play::MoveError;
