//! Move application: the single mutating operation of the game, together
//! with the snapshot history, repetition detection, and the evaluation of
//! terminal states after every change to the board.

use vstd::prelude::*;

use crate::attacks::{black_pawn_step, white_pawn_step};
use crate::bits::{bit, get_bit, square_bit, square_bit_spec};
use crate::board::{
    black_union, board_of, is_pawn_piece, is_white_piece, piece_at_spec, white_union, CastlingRights,
    ChessBoard, GameResult, PieceBoards, PieceType, Snapshot,
};
use crate::geometry::{file_of, rank_of};
use crate::moves::{
    black_checkmated, black_stalemated, legal_dest, white_checkmated, white_stalemated,
};
use crate::threat::{black_checked, white_checked};

verus! {

broadcast use crate::bits::group_bit_lemmas, crate::geometry::group_square_lemmas;

/// Why a move was rejected.
#[derive(Debug, PartialEq, Eq, Structural, Copy, Clone)]
pub enum MoveError {
    /// The game has already ended.
    GameAlreadyOver,
    /// The source square holds no piece (or is out of range).
    NoPieceAtSource,
    /// The piece at the source has no legal move at all.
    NoLegalMoves,
    /// The destination is not a legal target of the source piece.
    IllegalDestination,
    /// The piece at the source does not belong to the side to move.
    WrongSideToMove,
    /// The chosen promotion piece is a king, a pawn, or of the wrong colour.
    InvalidPromotionChoice,
}

/// The piece boards with square `i` emptied everywhere.
pub open spec fn cleared_boards(b: PieceBoards, i: int) -> PieceBoards {
    PieceBoards {
        white_pawns: b.white_pawns & !square_bit_spec(i),
        white_knights: b.white_knights & !square_bit_spec(i),
        white_bishops: b.white_bishops & !square_bit_spec(i),
        white_rooks: b.white_rooks & !square_bit_spec(i),
        white_queens: b.white_queens & !square_bit_spec(i),
        white_kings: b.white_kings & !square_bit_spec(i),
        black_pawns: b.black_pawns & !square_bit_spec(i),
        black_knights: b.black_knights & !square_bit_spec(i),
        black_bishops: b.black_bishops & !square_bit_spec(i),
        black_rooks: b.black_rooks & !square_bit_spec(i),
        black_queens: b.black_queens & !square_bit_spec(i),
        black_kings: b.black_kings & !square_bit_spec(i),
    }
}

/// The piece boards with a piece of kind `pt` added on square `i`.
pub open spec fn placed_boards(b: PieceBoards, pt: PieceType, i: int) -> PieceBoards {
    match pt {
        PieceType::WhitePawn => PieceBoards {
            white_pawns: b.white_pawns | square_bit_spec(i),
            ..b
        },
        PieceType::WhiteKnight => PieceBoards {
            white_knights: b.white_knights | square_bit_spec(i),
            ..b
        },
        PieceType::WhiteBishop => PieceBoards {
            white_bishops: b.white_bishops | square_bit_spec(i),
            ..b
        },
        PieceType::WhiteRook => PieceBoards { white_rooks: b.white_rooks | square_bit_spec(i), ..b },
        PieceType::WhiteQueen => PieceBoards {
            white_queens: b.white_queens | square_bit_spec(i),
            ..b
        },
        PieceType::WhiteKing => PieceBoards { white_kings: b.white_kings | square_bit_spec(i), ..b },
        PieceType::BlackPawn => PieceBoards { black_pawns: b.black_pawns | square_bit_spec(i), ..b },
        PieceType::BlackKnight => PieceBoards {
            black_knights: b.black_knights | square_bit_spec(i),
            ..b
        },
        PieceType::BlackBishop => PieceBoards {
            black_bishops: b.black_bishops | square_bit_spec(i),
            ..b
        },
        PieceType::BlackRook => PieceBoards { black_rooks: b.black_rooks | square_bit_spec(i), ..b },
        PieceType::BlackQueen => PieceBoards {
            black_queens: b.black_queens | square_bit_spec(i),
            ..b
        },
        PieceType::BlackKing => PieceBoards { black_kings: b.black_kings | square_bit_spec(i), ..b },
        PieceType::Empty => b,
    }
}

/// The piece boards after the piece `pt` moves from `from` to `to`: both
/// squares are emptied everywhere first (so no square ever holds two
/// pieces), then the piece is placed on `to`.
pub open spec fn moved_boards(b: PieceBoards, pt: PieceType, from: int, to: int) -> PieceBoards {
    placed_boards(cleared_boards(cleared_boards(b, from), to), pt, to)
}


/// The game result after evaluating the position `c`: a stalemate of the
/// side to move draws, a checkmated side loses, and otherwise the previous
/// result stands.
pub open spec fn game_result_eval(c: ChessBoard, prev: GameResult) -> GameResult {
    if white_stalemated(c) {
        GameResult::Draw
    } else if black_stalemated(c) {
        GameResult::Draw
    } else if white_checkmated(c) {
        GameResult::Black
    } else if black_checkmated(c) {
        GameResult::White
    } else {
        prev
    }
}

/// A pawn of the capturing side attacks the en passant target.
pub open spec fn ep_capturable(c: ChessBoard, by_white: bool) -> bool {
    if by_white {
        exists|s: int, t: int|
            bit(c.boards.white_pawns, s) && bit(c.en_passant_square, t)
                && #[trigger] white_pawn_step(s, t)
    } else {
        exists|s: int, t: int|
            bit(c.boards.black_pawns, s) && bit(c.en_passant_square, t)
                && #[trigger] black_pawn_step(s, t)
    }
}

/// The snapshot stored for repetition detection: the piece boards, whether
/// the side about to move could capture en passant, and the castling
/// rights.
pub open spec fn snapshot_of(c: ChessBoard, capturer_white: bool) -> Snapshot {
    Snapshot {
        boards: c.boards,
        en_passant_possible: ep_capturable(c, capturer_white),
        castle_white_king: c.castling_rights.white_king,
        castle_white_queen: c.castling_rights.white_queen,
        castle_black_king: c.castling_rights.black_king,
        castle_black_queen: c.castling_rights.black_queen,
    }
}

/// How many entries of `h` equal `s`.
pub open spec fn snap_count(h: Seq<Snapshot>, s: Snapshot) -> nat
    decreases h.len(),
{
    if h.len() == 0 {
        0
    } else {
        snap_count(h.drop_last(), s) + (if h.last() == s {
            1nat
        } else {
            0nat
        })
    }
}

/// The castling rights after `pt` moves from `from` to `to`: a king move
/// revokes both of its side's rights, and a right is revoked the moment
/// its rook's home square is left or captured on.
pub open spec fn rights_after(c: ChessBoard, pt: PieceType, from: int, to: int) -> CastlingRights {
    CastlingRights {
        white_king: c.castling_rights.white_king && pt != PieceType::WhiteKing && from != 7 && to
            != 7,
        white_queen: c.castling_rights.white_queen && pt != PieceType::WhiteKing && from != 0 && to
            != 0,
        black_king: c.castling_rights.black_king && pt != PieceType::BlackKing && from != 63 && to
            != 63,
        black_queen: c.castling_rights.black_queen && pt != PieceType::BlackKing && from != 56 && to
            != 56,
    }
}

/// The en passant target after `pt` moves from `from` to `to`: the skipped
/// square after a double pawn push, else none.
pub open spec fn ep_square_after(pt: PieceType, from: int, to: int) -> u64 {
    if pt == PieceType::WhitePawn && rank_of(from) == 1 && rank_of(to) == 3 {
        square_bit_spec(from + 8)
    } else if pt == PieceType::BlackPawn && rank_of(from) == 6 && rank_of(to) == 4 {
        square_bit_spec(from - 8)
    } else {
        0u64
    }
}

/// The move of `pt` to `to` is a promotion: a pawn reaches the last rank.
pub open spec fn is_promotion_move(pt: PieceType, to: int) -> bool {
    (pt == PieceType::WhitePawn && rank_of(to) == 7) || (pt == PieceType::BlackPawn && rank_of(to)
        == 0)
}

/// The piece boards after the whole move: the piece relocates, a castling
/// king brings its rook over, an en passant capture removes the passed
/// pawn, and a promotion replaces the pawn on arrival.
pub open spec fn boards_after_move(
    c: ChessBoard,
    pt: PieceType,
    from: int,
    to: int,
    promo: PieceType,
) -> PieceBoards {
    let b1 = moved_boards(c.boards, pt, from, to);
    let b2 = if pt == PieceType::WhiteKing && from == 4 && to == 6
        && c.castling_rights.white_king {
        moved_boards(b1, PieceType::WhiteRook, 7, 5)
    } else if pt == PieceType::WhiteKing && from == 4 && to == 2
        && c.castling_rights.white_queen {
        moved_boards(b1, PieceType::WhiteRook, 0, 3)
    } else if pt == PieceType::BlackKing && from == 60 && to == 62
        && c.castling_rights.black_king {
        moved_boards(b1, PieceType::BlackRook, 63, 61)
    } else if pt == PieceType::BlackKing && from == 60 && to == 58
        && c.castling_rights.black_queen {
        moved_boards(b1, PieceType::BlackRook, 56, 59)
    } else {
        b1
    };
    let b3 = if pt == PieceType::WhitePawn && c.en_passant_square == square_bit_spec(to) {
        cleared_boards(b2, to - 8)
    } else if pt == PieceType::BlackPawn && c.en_passant_square == square_bit_spec(to) {
        cleared_boards(b2, to + 8)
    } else {
        b2
    };
    if is_promotion_move(pt, to) && promo != PieceType::Empty {
        moved_boards(b3, promo, to, to)
    } else {
        b3
    }
}

/// What a completed move leaves behind: the boards and derived boards, the
/// flipped turn, the updated rights, target, clocks and history, the game
/// result after terminal-state, repetition and fifty-move evaluation, and
/// the new check status.
pub open spec fn move_applied(
    pre: ChessBoard,
    post: ChessBoard,
    from: int,
    to: int,
    promo: PieceType,
) -> bool {
    let pt = piece_at_spec(pre, from);
    let capture = bit(pre.all_pieces, to);
    let nb = boards_after_move(pre, pt, from, to, promo);
    &&& post.boards == nb
    &&& post.white_pieces == white_union(nb)
    &&& post.black_pieces == black_union(nb)
    &&& post.all_pieces == white_union(nb) | black_union(nb)
    &&& post.whites_turn == !pre.whites_turn
    &&& post.castling_rights == rights_after(pre, pt, from, to)
    &&& post.en_passant_square == ep_square_after(pt, from, to)
    &&& post.halfmove_clock == (if is_pawn_piece(pt) || capture {
        0int
    } else if pre.halfmove_clock < i32::MAX {
        pre.halfmove_clock + 1
    } else {
        pre.halfmove_clock as int
    })
    &&& post.fullmove == (if !pre.whites_turn && pre.fullmove < i32::MAX {
        pre.fullmove + 1
    } else {
        pre.fullmove as int
    })
    &&& post.positions@ == pre.positions@.push(snapshot_of(post, !pre.whites_turn))
    &&& post.game_result == ({
        let evaluated = game_result_eval(
            ChessBoard { whites_turn: pre.whites_turn, ..post },
            GameResult::Ongoing,
        );
        let with_repetition = if snap_count(post.positions@, post.positions@.last()) >= 3 {
            GameResult::Draw
        } else {
            evaluated
        };
        if with_repetition == GameResult::Ongoing && post.halfmove_clock >= 100 {
            GameResult::Draw
        } else {
            with_repetition
        }
    })
    &&& post.player_in_check == (if post.whites_turn {
        white_checked(post, post.black_pieces, post.white_pieces, post.boards.white_kings)
    } else {
        black_checked(post, post.black_pieces, post.white_pieces, post.boards.black_kings)
    })
    &&& post.board@.len() == 64
    &&& forall|i: int| 0 <= i < 64 ==> post.board@[i] == piece_at_spec(post, i)
}

/// The full contract of one move request: which error is returned on which
/// input (leaving the position untouched), when a promotion choice is still
/// needed (also untouched), and what a completed move leaves behind.
pub open spec fn move_outcome(
    pre: ChessBoard,
    post: ChessBoard,
    from: int,
    to: int,
    promo: PieceType,
    r: Result<bool, MoveError>,
) -> bool {
    if pre.game_result != GameResult::Ongoing {
        r == Err::<bool, MoveError>(MoveError::GameAlreadyOver) && post == pre
    } else if !(0 <= from < 64) || !bit(pre.all_pieces, from) {
        r == Err::<bool, MoveError>(MoveError::NoPieceAtSource) && post == pre
    } else if !(exists|t: int| #[trigger] legal_dest(pre, from, t)) {
        r == Err::<bool, MoveError>(MoveError::NoLegalMoves) && post == pre
    } else if !legal_dest(pre, from, to) {
        r == Err::<bool, MoveError>(MoveError::IllegalDestination) && post == pre
    } else if pre.whites_turn != is_white_piece(piece_at_spec(pre, from)) {
        r == Err::<bool, MoveError>(MoveError::WrongSideToMove) && post == pre
    } else if is_promotion_move(piece_at_spec(pre, from), to) && promo == PieceType::Empty {
        r == Ok::<bool, MoveError>(false) && post == pre
    } else {
        r == Ok::<bool, MoveError>(true) && move_applied(pre, post, from, to, promo)
    }
}

impl ChessBoard {
    /// Relocates the piece `pt` from `from` to `to` on the piece boards:
    /// both squares are emptied in every board, then `pt`'s board gains
    /// `to`.  Derived boards are not touched.
    fn update_board_after_move(&mut self, piece_type: PieceType, from: usize, to: usize)
        requires
            from < 64,
            to < 64,
            piece_type != PieceType::Empty,
        ensures
            final(self).boards == moved_boards(
                old(self).boards,
                piece_type,
                from as int,
                to as int,
            ),
            *final(self) == (ChessBoard { boards: final(self).boards, ..*old(self) }),
    {
        let sf = square_bit(from);
        let st = square_bit(to);
        self.boards.white_pawns = (self.boards.white_pawns & !sf) & !st;
        self.boards.white_knights = (self.boards.white_knights & !sf) & !st;
        self.boards.white_bishops = (self.boards.white_bishops & !sf) & !st;
        self.boards.white_rooks = (self.boards.white_rooks & !sf) & !st;
        self.boards.white_queens = (self.boards.white_queens & !sf) & !st;
        self.boards.white_kings = (self.boards.white_kings & !sf) & !st;
        self.boards.black_pawns = (self.boards.black_pawns & !sf) & !st;
        self.boards.black_knights = (self.boards.black_knights & !sf) & !st;
        self.boards.black_bishops = (self.boards.black_bishops & !sf) & !st;
        self.boards.black_rooks = (self.boards.black_rooks & !sf) & !st;
        self.boards.black_queens = (self.boards.black_queens & !sf) & !st;
        self.boards.black_kings = (self.boards.black_kings & !sf) & !st;
        match piece_type {
            PieceType::WhitePawn => {
                self.boards.white_pawns = self.boards.white_pawns | st;
            },
            PieceType::WhiteKnight => {
                self.boards.white_knights = self.boards.white_knights | st;
            },
            PieceType::WhiteBishop => {
                self.boards.white_bishops = self.boards.white_bishops | st;
            },
            PieceType::WhiteRook => {
                self.boards.white_rooks = self.boards.white_rooks | st;
            },
            PieceType::WhiteQueen => {
                self.boards.white_queens = self.boards.white_queens | st;
            },
            PieceType::WhiteKing => {
                self.boards.white_kings = self.boards.white_kings | st;
            },
            PieceType::BlackPawn => {
                self.boards.black_pawns = self.boards.black_pawns | st;
            },
            PieceType::BlackKnight => {
                self.boards.black_knights = self.boards.black_knights | st;
            },
            PieceType::BlackBishop => {
                self.boards.black_bishops = self.boards.black_bishops | st;
            },
            PieceType::BlackRook => {
                self.boards.black_rooks = self.boards.black_rooks | st;
            },
            PieceType::BlackQueen => {
                self.boards.black_queens = self.boards.black_queens | st;
            },
            PieceType::BlackKing => {
                self.boards.black_kings = self.boards.black_kings | st;
            },
            PieceType::Empty => {},
        }
    }

    /// Empties one square in every piece board (an en passant capture
    /// removes a pawn from a square no piece moved to).
    fn remove_piece_at(&mut self, at: usize)
        requires
            at < 64,
        ensures
            final(self).boards == cleared_boards(old(self).boards, at as int),
            *final(self) == (ChessBoard { boards: final(self).boards, ..*old(self) }),
    {
        let sa = square_bit(at);
        self.boards.white_pawns = self.boards.white_pawns & !sa;
        self.boards.white_knights = self.boards.white_knights & !sa;
        self.boards.white_bishops = self.boards.white_bishops & !sa;
        self.boards.white_rooks = self.boards.white_rooks & !sa;
        self.boards.white_queens = self.boards.white_queens & !sa;
        self.boards.white_kings = self.boards.white_kings & !sa;
        self.boards.black_pawns = self.boards.black_pawns & !sa;
        self.boards.black_knights = self.boards.black_knights & !sa;
        self.boards.black_bishops = self.boards.black_bishops & !sa;
        self.boards.black_rooks = self.boards.black_rooks & !sa;
        self.boards.black_queens = self.boards.black_queens & !sa;
        self.boards.black_kings = self.boards.black_kings & !sa;
    }
}


/// Per-square contents of `cleared_boards`.
pub proof fn lemma_cleared_bits(b: PieceBoards, at: int, p: PieceType, i: int)
    requires
        0 <= at < 64,
    ensures
        bit(board_of(cleared_boards(b, at), p), i) <==> (bit(board_of(b, p), i) && i != at),
{
}

/// Per-square contents of `moved_boards`.
#[verifier::rlimit(100)]
pub proof fn lemma_moved_bits(
    b: PieceBoards,
    pt: PieceType,
    from: int,
    to: int,
    p: PieceType,
    i: int,
)
    requires
        0 <= from < 64,
        0 <= to < 64,
        pt != PieceType::Empty,
    ensures
        bit(board_of(moved_boards(b, pt, from, to), p), i) <==> ((bit(board_of(b, p), i) && i
            != from && i != to) || (p == pt && i == to)),
{
    broadcast use crate::bits::group_bit_lemmas;

    lemma_cleared_bits(b, from, p, i);
    lemma_cleared_bits(cleared_boards(b, from), to, p, i);
}


/// Two states with the same boards, target and rights take the same
/// snapshot.
pub(crate) proof fn lemma_snapshot_frame(a: ChessBoard, b: ChessBoard, w: bool)
    requires
        a.boards == b.boards,
        a.en_passant_square == b.en_passant_square,
        a.castling_rights == b.castling_rights,
    ensures
        snapshot_of(a, w) == snapshot_of(b, w),
{
    if w {
        if ep_capturable(a, w) {
            let (s, t) = choose|s: int, t: int|
                bit(a.boards.white_pawns, s) && bit(a.en_passant_square, t)
                    && #[trigger] white_pawn_step(s, t);
            assert(bit(b.boards.white_pawns, s) && bit(b.en_passant_square, t)
                && white_pawn_step(s, t));
        }
        if ep_capturable(b, w) {
            let (s, t) = choose|s: int, t: int|
                bit(b.boards.white_pawns, s) && bit(b.en_passant_square, t)
                    && #[trigger] white_pawn_step(s, t);
            assert(bit(a.boards.white_pawns, s) && bit(a.en_passant_square, t)
                && white_pawn_step(s, t));
        }
    } else {
        if ep_capturable(a, w) {
            let (s, t) = choose|s: int, t: int|
                bit(a.boards.black_pawns, s) && bit(a.en_passant_square, t)
                    && #[trigger] black_pawn_step(s, t);
            assert(bit(b.boards.black_pawns, s) && bit(b.en_passant_square, t)
                && black_pawn_step(s, t));
        }
        if ep_capturable(b, w) {
            let (s, t) = choose|s: int, t: int|
                bit(b.boards.black_pawns, s) && bit(b.en_passant_square, t)
                    && #[trigger] black_pawn_step(s, t);
            assert(bit(a.boards.black_pawns, s) && bit(a.en_passant_square, t)
                && black_pawn_step(s, t));
        }
    }
}

/// Relocating pieces and clearing squares keeps every square singly
/// occupied.
#[verifier::rlimit(100)]
proof fn lemma_after_move_disjoint(
    pre: ChessBoard,
    pt: PieceType,
    from: int,
    to: int,
    promo: PieceType,
)
    requires
        crate::board::boards_disjoint(pre.boards),
        0 <= from < 64,
        0 <= to < 64,
        pt != PieceType::Empty,
        pt == PieceType::WhitePawn && pre.en_passant_square == square_bit_spec(to) ==> to >= 8,
        pt == PieceType::BlackPawn && pre.en_passant_square == square_bit_spec(to) ==> to < 56,
    ensures
        crate::board::boards_disjoint(boards_after_move(pre, pt, from, to, promo)),
{
    let b1 = moved_boards(pre.boards, pt, from, to);
    let nb = boards_after_move(pre, pt, from, to, promo);
    assert forall|p1: PieceType, p2: PieceType, i: int|
        p1 != p2 && #[trigger] bit(board_of(nb, p1), i) implies !(#[trigger] bit(
        board_of(nb, p2),
        i,
    )) by {
        lemma_moved_bits(pre.boards, pt, from, to, p1, i);
        lemma_moved_bits(pre.boards, pt, from, to, p2, i);
        if pt == PieceType::WhiteKing && from == 4 && to == 6 && pre.castling_rights.white_king {
            lemma_moved_bits(b1, PieceType::WhiteRook, 7, 5, p1, i);
            lemma_moved_bits(b1, PieceType::WhiteRook, 7, 5, p2, i);
        } else if pt == PieceType::WhiteKing && from == 4 && to == 2
            && pre.castling_rights.white_queen {
            lemma_moved_bits(b1, PieceType::WhiteRook, 0, 3, p1, i);
            lemma_moved_bits(b1, PieceType::WhiteRook, 0, 3, p2, i);
        } else if pt == PieceType::BlackKing && from == 60 && to == 62
            && pre.castling_rights.black_king {
            lemma_moved_bits(b1, PieceType::BlackRook, 63, 61, p1, i);
            lemma_moved_bits(b1, PieceType::BlackRook, 63, 61, p2, i);
        } else if pt == PieceType::BlackKing && from == 60 && to == 58
            && pre.castling_rights.black_queen {
            lemma_moved_bits(b1, PieceType::BlackRook, 56, 59, p1, i);
            lemma_moved_bits(b1, PieceType::BlackRook, 56, 59, p2, i);
        }
        let b2 = if pt == PieceType::WhiteKing && from == 4 && to == 6
            && pre.castling_rights.white_king {
            moved_boards(b1, PieceType::WhiteRook, 7, 5)
        } else if pt == PieceType::WhiteKing && from == 4 && to == 2
            && pre.castling_rights.white_queen {
            moved_boards(b1, PieceType::WhiteRook, 0, 3)
        } else if pt == PieceType::BlackKing && from == 60 && to == 62
            && pre.castling_rights.black_king {
            moved_boards(b1, PieceType::BlackRook, 63, 61)
        } else if pt == PieceType::BlackKing && from == 60 && to == 58
            && pre.castling_rights.black_queen {
            moved_boards(b1, PieceType::BlackRook, 56, 59)
        } else {
            b1
        };
        if pt == PieceType::WhitePawn && pre.en_passant_square == square_bit_spec(to) {
            lemma_cleared_bits(b2, to - 8, p1, i);
            lemma_cleared_bits(b2, to - 8, p2, i);
        } else if pt == PieceType::BlackPawn && pre.en_passant_square == square_bit_spec(to) {
            lemma_cleared_bits(b2, to + 8, p1, i);
            lemma_cleared_bits(b2, to + 8, p2, i);
        }
        let b3 = if pt == PieceType::WhitePawn && pre.en_passant_square == square_bit_spec(to) {
            cleared_boards(b2, to - 8)
        } else if pt == PieceType::BlackPawn && pre.en_passant_square == square_bit_spec(to) {
            cleared_boards(b2, to + 8)
        } else {
            b2
        };
        if is_promotion_move(pt, to) && promo != PieceType::Empty {
            lemma_moved_bits(b3, promo, to, to, p1, i);
            lemma_moved_bits(b3, promo, to, to, p2, i);
        }
    }
}

impl ChessBoard {
    /// Recomputes the derived boards and the per-square array from the
    /// piece boards, and evaluates checkmate and stalemate for both sides,
    /// setting the game result accordingly.
    pub(crate) fn update_board(&mut self)
        ensures
            final(self).boards == old(self).boards,
            final(self).white_pieces == white_union(old(self).boards),
            final(self).black_pieces == black_union(old(self).boards),
            final(self).all_pieces == white_union(old(self).boards) | black_union(
                old(self).boards,
            ),
            final(self).whites_turn == old(self).whites_turn,
            final(self).castling_rights == old(self).castling_rights,
            final(self).halfmove_clock == old(self).halfmove_clock,
            final(self).fullmove == old(self).fullmove,
            final(self).player_in_check == old(self).player_in_check,
            final(self).en_passant_square == old(self).en_passant_square,
            final(self).positions == old(self).positions,
            final(self).board@.len() == 64,
            forall|i: int| 0 <= i < 64 ==> final(self).board@[i] == piece_at_spec(
                *final(self),
                i,
            ),
            final(self).game_result == game_result_eval(*final(self), old(self).game_result),
    {
        self.white_pieces = self.boards.white_pawns | self.boards.white_knights
            | self.boards.white_bishops | self.boards.white_rooks | self.boards.white_queens
            | self.boards.white_kings;
        self.black_pieces = self.boards.black_pawns | self.boards.black_knights
            | self.boards.black_bishops | self.boards.black_rooks | self.boards.black_queens
            | self.boards.black_kings;
        self.all_pieces = self.white_pieces | self.black_pieces;
        let ghost mid = *self;
        let black_mate = self.black_in_checkmate();
        let white_mate = self.white_in_checkmate();
        let black_stale = self.black_in_stalemate();
        let white_stale = self.white_in_stalemate();
        if black_mate {
            self.game_result = GameResult::White;
        }
        if white_mate {
            self.game_result = GameResult::Black;
        }
        if black_stale {
            self.game_result = GameResult::Draw;
        }
        if white_stale {
            self.game_result = GameResult::Draw;
        }
        let ghost pre_vec = *self;
        self.rebuild_board_vec();
        proof {
            assert forall|i: int| 0 <= i < 64 implies self.board@[i] == piece_at_spec(
                *self,
                i,
            ) by {
                crate::board::lemma_piece_at_same(pre_vec, *self, i);
            }
            crate::moves::lemma_legality_frame(mid, *self);
        }
    }

    /// Appends the current position to the history, recording whether the
    /// side about to move could capture en passant.
    pub(crate) fn store_position(&mut self, capturer_white: bool)
        ensures
            final(self).positions@ == old(self).positions@.push(
                snapshot_of(*old(self), capturer_white),
            ),
            *final(self) == (ChessBoard { positions: final(self).positions, ..*old(self) }),
    {
        let possible: bool = if capturer_white {
            let att = crate::attacks::compute_white_pawn_attacks(
                self.boards.white_pawns,
                self.en_passant_square,
            );
            let r = att != 0;
            proof {
                if r {
                    if forall|t: int| 0 <= t < 64 ==> !(#[trigger] bit(att, t)) {
                        crate::bits::lemma_bits_all_zero(att);
                    }
                    let t = choose|t: int| 0 <= t < 64 && #[trigger] bit(att, t);
                    let st = choose|s: int|
                        bit(self.boards.white_pawns, s) && #[trigger] white_pawn_step(s, t);
                    assert(bit(self.boards.white_pawns, st) && bit(self.en_passant_square, t)
                        && white_pawn_step(st, t));
                }
                if ep_capturable(*self, capturer_white) {
                    let (s, t) = choose|s: int, t: int|
                        bit(self.boards.white_pawns, s) && bit(self.en_passant_square, t)
                            && #[trigger] white_pawn_step(s, t);
                    assert(bit(att, t));
                }
                assert(r == ep_capturable(*self, capturer_white));
            }
            r
        } else {
            let att = crate::attacks::compute_black_pawn_attacks(
                self.boards.black_pawns,
                self.en_passant_square,
            );
            let r = att != 0;
            proof {
                if r {
                    if forall|t: int| 0 <= t < 64 ==> !(#[trigger] bit(att, t)) {
                        crate::bits::lemma_bits_all_zero(att);
                    }
                    let t = choose|t: int| 0 <= t < 64 && #[trigger] bit(att, t);
                    let st = choose|s: int|
                        bit(self.boards.black_pawns, s) && #[trigger] black_pawn_step(s, t);
                    assert(bit(self.boards.black_pawns, st) && bit(self.en_passant_square, t)
                        && black_pawn_step(st, t));
                }
                if ep_capturable(*self, capturer_white) {
                    let (s, t) = choose|s: int, t: int|
                        bit(self.boards.black_pawns, s) && bit(self.en_passant_square, t)
                            && #[trigger] black_pawn_step(s, t);
                    assert(bit(att, t));
                }
                assert(r == ep_capturable(*self, capturer_white));
            }
            r
        };
        let snap = Snapshot {
            boards: self.boards,
            en_passant_possible: possible,
            castle_white_king: self.castling_rights.white_king,
            castle_white_queen: self.castling_rights.white_queen,
            castle_black_king: self.castling_rights.black_king,
            castle_black_queen: self.castling_rights.black_queen,
        };
        self.positions.push(snap);
    }


    /// The shared body of [`ChessBoard::move_piece`] and
    /// [`ChessBoard::handle_promotion`]: validates the request, applies the
    /// move, updates every derived part of the state, and evaluates the
    /// terminal conditions.
    #[verifier::rlimit(100)]
    #[verifier::spinoff_prover]
    fn do_move(&mut self, from: usize, to: usize, promo: PieceType) -> (r: Result<bool, MoveError>)
        requires
            old(self).wf(),
            promo == PieceType::Empty || (!crate::board::is_king_piece(promo)
                && !is_pawn_piece(promo) && is_white_piece(promo) == old(self).whites_turn),
        ensures
            move_outcome(*old(self), *final(self), from as int, to as int, promo, r),
            final(self).wf(),
    {
        let ghost pre = *old(self);
        if self.game_result != GameResult::Ongoing {
            return Err(MoveError::GameAlreadyOver);
        }
        if from > 63 {
            return Err(MoveError::NoPieceAtSource);
        }
        if !get_bit(self.all_pieces, from) {
            return Err(MoveError::NoPieceAtSource);
        }
        let moves = self.get_moves(from);
        if moves == 0 {
            proof {
                assert forall|t: int| !(#[trigger] legal_dest(pre, from as int, t)) by {
                    if legal_dest(pre, from as int, t) {
                        assert(bit(moves, t));
                    }
                }
            }
            return Err(MoveError::NoLegalMoves);
        }
        proof {
            if forall|t: int| 0 <= t < 64 ==> !(#[trigger] bit(moves, t)) {
                crate::bits::lemma_bits_all_zero(moves);
            }
            let t0 = choose|t: int| 0 <= t < 64 && #[trigger] bit(moves, t);
            assert(legal_dest(pre, from as int, t0));
        }
        if to > 63 {
            return Err(MoveError::IllegalDestination);
        }
        if !get_bit(moves, to) {
            return Err(MoveError::IllegalDestination);
        }
        let piece_type = self.piece_at(from);
        if self.whites_turn != piece_type.is_white() {
            return Err(MoveError::WrongSideToMove);
        }
        let promotion: bool = (piece_type == PieceType::WhitePawn && to / 8 == 7) || (piece_type
            == PieceType::BlackPawn && to / 8 == 0);
        if promotion && promo == PieceType::Empty {
            return Ok(false);
        }
        proof {
            crate::board::lemma_occupied_piece(pre, from as int);
        }
        let capture = get_bit(self.all_pieces, to);
        // Relocate the piece, the castling rook, the en-passant-captured
        // pawn, and the promotion piece on the boards.
        self.update_board_after_move(piece_type, from, to);
        if piece_type == PieceType::WhiteKing && from == 4 && to == 6
            && self.castling_rights.white_king {
            self.update_board_after_move(PieceType::WhiteRook, 7, 5);
        } else if piece_type == PieceType::WhiteKing && from == 4 && to == 2
            && self.castling_rights.white_queen {
            self.update_board_after_move(PieceType::WhiteRook, 0, 3);
        } else if piece_type == PieceType::BlackKing && from == 60 && to == 62
            && self.castling_rights.black_king {
            self.update_board_after_move(PieceType::BlackRook, 63, 61);
        } else if piece_type == PieceType::BlackKing && from == 60 && to == 58
            && self.castling_rights.black_queen {
            self.update_board_after_move(PieceType::BlackRook, 56, 59);
        }
        proof {
            if piece_type == PieceType::WhitePawn && pre.en_passant_square == square_bit_spec(
                to as int,
            ) {
                assert(rank_of(to as int) >= 1);
            }
            if piece_type == PieceType::BlackPawn && pre.en_passant_square == square_bit_spec(
                to as int,
            ) {
                assert(rank_of(to as int) <= 6);
                assert(to as int == 8 * rank_of(to as int) + file_of(to as int));
            }
        }
        if piece_type == PieceType::WhitePawn && square_bit(to) == self.en_passant_square {
            self.remove_piece_at(to - 8);
        } else if piece_type == PieceType::BlackPawn && square_bit(to) == self.en_passant_square {
            self.remove_piece_at(to + 8);
        }
        if promotion {
            self.update_board_after_move(promo, to, to);
        }
        proof {
            assert(self.boards == boards_after_move(
                pre,
                piece_type,
                from as int,
                to as int,
                promo,
            ));
            lemma_after_move_disjoint(pre, piece_type, from as int, to as int, promo);
        }
        // Record a new en passant target after a double pawn push.
        self.en_passant_square = 0;
        if piece_type == PieceType::WhitePawn && from / 8 == 1 && to / 8 == 3 {
            self.en_passant_square = square_bit(from + 8);
        }
        if piece_type == PieceType::BlackPawn && from / 8 == 6 && to / 8 == 4 {
            self.en_passant_square = square_bit(from - 8);
        }
        // The halfmove clock restarts on a pawn move or capture.
        if piece_type.is_pawn() || capture {
            self.halfmove_clock = 0;
        } else if self.halfmove_clock < i32::MAX {
            self.halfmove_clock = self.halfmove_clock + 1;
        }
        // The fullmove number grows after Black's move.
        if !self.whites_turn && self.fullmove < i32::MAX {
            self.fullmove = self.fullmove + 1;
        }
        // Castling rights are revoked for good by a king move, or whenever
        // a rook home square is left or captured on.
        let mut rights = self.castling_rights;
        if piece_type == PieceType::WhiteKing {
            rights.white_king = false;
            rights.white_queen = false;
        }
        if piece_type == PieceType::BlackKing {
            rights.black_king = false;
            rights.black_queen = false;
        }
        if from == 7 || to == 7 {
            rights.white_king = false;
        }
        if from == 0 || to == 0 {
            rights.white_queen = false;
        }
        if from == 63 || to == 63 {
            rights.black_king = false;
        }
        if from == 56 || to == 56 {
            rights.black_queen = false;
        }
        self.castling_rights = rights;
        proof {
            assert(self.castling_rights == rights_after(pre, piece_type, from as int, to as int));
            assert(self.en_passant_square == ep_square_after(piece_type, from as int, to as int));
        }
        // Recompute the derived boards and evaluate checkmate and
        // stalemate.
        self.update_board();
        let ghost evaluated = *self;
        // Record the position and apply the repetition and fifty-move
        // rules.
        self.store_position(!self.whites_turn);
        if self.is_three_fold_repetition() {
            self.game_result = GameResult::Draw;
        }
        if self.game_result == GameResult::Ongoing && self.halfmove_clock >= 100 {
            self.game_result = GameResult::Draw;
        }
        // Hand the turn over and report the new check status.
        self.whites_turn = !self.whites_turn;
        let ghost before_check = *self;
        let in_check: bool = if self.whites_turn {
            self.white_in_check(None, None)
        } else {
            self.black_in_check(None, None)
        };
        self.player_in_check = in_check;
        proof {
            let post = *self;
            lemma_snapshot_frame(evaluated, post, !pre.whites_turn);
            crate::moves::lemma_legality_frame(
                evaluated,
                ChessBoard { whites_turn: pre.whites_turn, ..post },
            );
            crate::moves::lemma_legality_frame(before_check, post);
            assert forall|i: int| 0 <= i < 64 implies post.board@[i] == piece_at_spec(
                post,
                i,
            ) by {
                crate::board::lemma_piece_at_same(evaluated, post, i);
            }
            assert(move_applied(pre, post, from as int, to as int, promo));
        }
        Ok(true)
    }

    /// Attempts the move `from` to `to` for the side to move.  `Ok(true)`
    /// means the move was made; `Ok(false)` means the move is a promotion
    /// and a piece choice is still needed (the position is untouched; use
    /// [`ChessBoard::handle_promotion`]); an error reports why the move was
    /// rejected, the position again untouched.
    pub fn move_piece(&mut self, from: usize, to: usize) -> (r: Result<bool, MoveError>)
        requires
            old(self).wf(),
        ensures
            move_outcome(*old(self), *final(self), from as int, to as int, PieceType::Empty, r),
            final(self).wf(),
    {
        self.do_move(from, to, PieceType::Empty)
    }

    /// Attempts the move `from` to `to`, promoting to `piece_type` when the
    /// move is a promotion.  The choice must be a non-king, non-pawn piece
    /// of the moving side's colour; otherwise nothing happens and
    /// `InvalidPromotionChoice` is returned.
    pub fn handle_promotion(
        &mut self,
        from: usize,
        to: usize,
        piece_type: PieceType,
    ) -> (r: Result<bool, MoveError>)
        requires
            old(self).wf(),
        ensures
            (crate::board::is_king_piece(piece_type) || is_pawn_piece(piece_type)
                || is_white_piece(piece_type) != old(self).whites_turn) ==> (r == Err::<
                bool,
                MoveError,
            >(MoveError::InvalidPromotionChoice) && *final(self) == *old(self)),
            !(crate::board::is_king_piece(piece_type) || is_pawn_piece(piece_type)
                || is_white_piece(piece_type) != old(self).whites_turn) ==> move_outcome(
                *old(self),
                *final(self),
                from as int,
                to as int,
                piece_type,
                r,
            ),
            final(self).wf(),
    {
        if piece_type.is_king() || piece_type.is_pawn() {
            return Err(MoveError::InvalidPromotionChoice);
        }
        if self.whites_turn != piece_type.is_white() {
            return Err(MoveError::InvalidPromotionChoice);
        }
        self.do_move(from, to, piece_type)
    }

    /// Whether the position just stored has now occurred three times.
    fn is_three_fold_repetition(&self) -> (r: bool)
        requires
            self.positions@.len() >= 1,
        ensures
            r == (snap_count(self.positions@, self.positions@.last()) >= 3),
    {
        let n = self.positions.len();
        let current = self.positions[n - 1];
        let ghost h = self.positions@;
        let mut repetitions: usize = 0;
        let mut i: usize = 0;
        while i < n
            invariant
                i <= n,
                n == h.len(),
                h == self.positions@,
                current == h.last(),
                repetitions == snap_count(h.take(i as int), current),
                repetitions <= i,
            decreases n - i,
        {
            let entry = self.positions[i];
            proof {
                assert(h.take(i + 1).drop_last() =~= h.take(i as int));
                assert(h.take(i + 1).last() == h[i as int]);
            }
            if entry == current {
                repetitions = repetitions + 1;
            }
            i = i + 1;
        }
        proof {
            assert(h.take(n as int) =~= h);
        }
        repetitions >= 3
    }
}

} // verus!
