//! Legal-move generation: the pseudo-legal target set of a piece, filtered
//! by simulating each candidate move and testing whether the mover's own
//! king would stand in check, with castling layered on top for kings.

use vstd::prelude::*;

use crate::attacks::{
    bishop_target, black_pawn_push, black_pawn_step, king_step, knight_step, queen_target,
    rook_target, white_pawn_push, white_pawn_step,
};
use crate::bits::{bit, get_bit, square_bit, square_bit_spec};
use crate::geometry::{file_of, rank_of, square_at};
use crate::board::{
    is_king_piece, is_white_piece, piece_at_spec, ChessBoard, PieceType,
};
use crate::threat::{
    black_attack_from, black_attacks_sq, black_checked, white_attack_from, white_attacks_sq,
    white_checked,
};

verus! {

broadcast use crate::bits::group_bit_lemmas, crate::geometry::group_square_lemmas;

/// The pseudo-legal destinations of the piece `pt` on `s`: the piece's
/// movement rule applied to the position's occupancy, before any check
/// filtering.
pub open spec fn pseudo_dest(c: ChessBoard, pt: PieceType, s: int, t: int) -> bool {
    match pt {
        PieceType::WhiteKing => king_step(s, t) && !bit(c.white_pieces, t),
        PieceType::WhiteQueen => queen_target(s, t, c.all_pieces, c.black_pieces),
        PieceType::WhiteRook => rook_target(s, t, c.all_pieces, c.black_pieces),
        PieceType::WhiteBishop => bishop_target(s, t, c.all_pieces, c.black_pieces),
        PieceType::WhiteKnight => knight_step(s, t) && !bit(c.white_pieces, t),
        PieceType::WhitePawn => white_pawn_push(s, t, c.all_pieces) || (white_pawn_step(s, t)
            && bit(c.black_pieces | c.en_passant_square, t)),
        PieceType::BlackKing => king_step(s, t) && !bit(c.black_pieces, t),
        PieceType::BlackQueen => queen_target(s, t, c.all_pieces, c.white_pieces),
        PieceType::BlackRook => rook_target(s, t, c.all_pieces, c.white_pieces),
        PieceType::BlackBishop => bishop_target(s, t, c.all_pieces, c.white_pieces),
        PieceType::BlackKnight => knight_step(s, t) && !bit(c.black_pieces, t),
        PieceType::BlackPawn => black_pawn_push(s, t, c.all_pieces) || (black_pawn_step(s, t)
            && bit(c.white_pieces | c.en_passant_square, t)),
        PieceType::Empty => false,
    }
}

/// An occupancy board after its piece moves from `s` to `t`.
pub open spec fn sim_move(b: u64, s: int, t: int) -> u64 {
    (b & !square_bit_spec(s)) | square_bit_spec(t)
}

/// Black's occupancy after a white piece `pt` arrives on `t`: whatever
/// stood on `t` is captured, and an en passant capture also removes the
/// pawn one rank behind the target.
pub open spec fn sim_black_after_white(c: ChessBoard, pt: PieceType, t: int) -> u64 {
    if pt == PieceType::WhitePawn && c.en_passant_square == square_bit_spec(t) {
        c.black_pieces & !square_bit_spec(t) & !square_bit_spec(t - 8)
    } else {
        c.black_pieces & !square_bit_spec(t)
    }
}

/// White's occupancy after a black piece `pt` arrives on `t`.
pub open spec fn sim_white_after_black(c: ChessBoard, pt: PieceType, t: int) -> u64 {
    if pt == PieceType::BlackPawn && c.en_passant_square == square_bit_spec(t) {
        c.white_pieces & !square_bit_spec(t) & !square_bit_spec(t + 8)
    } else {
        c.white_pieces & !square_bit_spec(t)
    }
}

/// Moving the non-king piece `pt` from `s` to `t` leaves the mover's own
/// king out of check, judged by recomputing the opponent's attacks against
/// the simulated occupancies.
pub open spec fn nonking_dest_safe(c: ChessBoard, pt: PieceType, s: int, t: int) -> bool {
    if is_white_piece(pt) {
        !white_checked(
            c,
            sim_black_after_white(c, pt, t),
            sim_move(c.white_pieces, s, t),
            c.boards.white_kings,
        )
    } else {
        !black_checked(
            c,
            sim_move(c.black_pieces, s, t),
            sim_white_after_black(c, pt, t),
            c.boards.black_kings,
        )
    }
}

/// Moving the king `pt` from `s` to `t` does not land it on an attacked
/// square.
pub open spec fn king_dest_safe(c: ChessBoard, pt: PieceType, s: int, t: int) -> bool {
    if pt == PieceType::WhiteKing {
        !white_checked(
            c,
            c.black_pieces & !square_bit_spec(t),
            sim_move(c.white_pieces, s, t),
            square_bit_spec(t),
        )
    } else {
        !black_checked(
            c,
            sim_move(c.black_pieces, s, t),
            c.white_pieces & !square_bit_spec(t),
            square_bit_spec(t),
        )
    }
}

/// White may castle kingside: the right is held, the squares between king
/// and rook are empty, and the king's current, transit and landing squares
/// are all safe.
pub open spec fn white_kingside_castle(c: ChessBoard, s: int, t: int) -> bool {
    &&& s == 4
    &&& t == 6
    &&& c.castling_rights.white_king
    &&& !bit(c.all_pieces, 5)
    &&& !bit(c.all_pieces, 6)
    &&& !white_checked(c, c.black_pieces, c.white_pieces, c.boards.white_kings)
    &&& !white_checked(c, c.black_pieces, sim_move(c.white_pieces, 4, 5), square_bit_spec(5))
    &&& !white_checked(c, c.black_pieces, sim_move(c.white_pieces, 4, 6), square_bit_spec(6))
}

/// White may castle queenside.
pub open spec fn white_queenside_castle(c: ChessBoard, s: int, t: int) -> bool {
    &&& s == 4
    &&& t == 2
    &&& c.castling_rights.white_queen
    &&& !bit(c.all_pieces, 3)
    &&& !bit(c.all_pieces, 2)
    &&& !bit(c.all_pieces, 1)
    &&& !white_checked(c, c.black_pieces, c.white_pieces, c.boards.white_kings)
    &&& !white_checked(c, c.black_pieces, sim_move(c.white_pieces, 4, 3), square_bit_spec(3))
    &&& !white_checked(c, c.black_pieces, sim_move(c.white_pieces, 4, 2), square_bit_spec(2))
}

/// Black may castle kingside.
pub open spec fn black_kingside_castle(c: ChessBoard, s: int, t: int) -> bool {
    &&& s == 60
    &&& t == 62
    &&& c.castling_rights.black_king
    &&& !bit(c.all_pieces, 61)
    &&& !bit(c.all_pieces, 62)
    &&& !black_checked(c, c.black_pieces, c.white_pieces, c.boards.black_kings)
    &&& !black_checked(c, sim_move(c.black_pieces, 60, 61), c.white_pieces, square_bit_spec(61))
    &&& !black_checked(c, sim_move(c.black_pieces, 60, 62), c.white_pieces, square_bit_spec(62))
}

/// Black may castle queenside.
pub open spec fn black_queenside_castle(c: ChessBoard, s: int, t: int) -> bool {
    &&& s == 60
    &&& t == 58
    &&& c.castling_rights.black_queen
    &&& !bit(c.all_pieces, 59)
    &&& !bit(c.all_pieces, 58)
    &&& !bit(c.all_pieces, 57)
    &&& !black_checked(c, c.black_pieces, c.white_pieces, c.boards.black_kings)
    &&& !black_checked(c, sim_move(c.black_pieces, 60, 59), c.white_pieces, square_bit_spec(59))
    &&& !black_checked(c, sim_move(c.black_pieces, 60, 58), c.white_pieces, square_bit_spec(58))
}

/// The piece standing on `s` may move to `t`: a pseudo-legal destination
/// that does not leave the mover's own king in check, or a legal castling
/// move.  Whose turn it is is not consulted here; that is the caller's
/// check.
pub open spec fn legal_dest(c: ChessBoard, s: int, t: int) -> bool {
    &&& 0 <= s < 64
    &&& 0 <= t < 64
    &&& {
        let pt = piece_at_spec(c, s);
        if pt == PieceType::Empty {
            false
        } else if is_king_piece(pt) {
            ||| (pseudo_dest(c, pt, s, t) && king_dest_safe(c, pt, s, t))
            ||| (pt == PieceType::WhiteKing && white_kingside_castle(c, s, t))
            ||| (pt == PieceType::WhiteKing && white_queenside_castle(c, s, t))
            ||| (pt == PieceType::BlackKing && black_kingside_castle(c, s, t))
            ||| (pt == PieceType::BlackKing && black_queenside_castle(c, s, t))
        } else {
            pseudo_dest(c, pt, s, t) && nonking_dest_safe(c, pt, s, t)
        }
    }
}


/// Some white piece has a legal move.
pub open spec fn white_has_move(c: ChessBoard) -> bool {
    exists|s: int, t: int| bit(c.white_pieces, s) && #[trigger] legal_dest(c, s, t)
}

/// Some black piece has a legal move.
pub open spec fn black_has_move(c: ChessBoard) -> bool {
    exists|s: int, t: int| bit(c.black_pieces, s) && #[trigger] legal_dest(c, s, t)
}

/// White is checkmated: in check with no legal move.
pub open spec fn white_checkmated(c: ChessBoard) -> bool {
    white_checked(c, c.black_pieces, c.white_pieces, c.boards.white_kings) && !white_has_move(c)
}

/// Black is checkmated: in check with no legal move.
pub open spec fn black_checkmated(c: ChessBoard) -> bool {
    black_checked(c, c.black_pieces, c.white_pieces, c.boards.black_kings) && !black_has_move(c)
}

/// White is stalemated: to move, not in check, and without a legal move.
pub open spec fn white_stalemated(c: ChessBoard) -> bool {
    c.whites_turn && !white_checked(c, c.black_pieces, c.white_pieces, c.boards.white_kings)
        && !white_has_move(c)
}

/// Black is stalemated: to move, not in check, and without a legal move.
pub open spec fn black_stalemated(c: ChessBoard) -> bool {
    !c.whites_turn && !black_checked(c, c.black_pieces, c.white_pieces, c.boards.black_kings)
        && !black_has_move(c)
}


/// How many squares below `n` are legal destinations from `s`.
pub open spec fn dest_count(c: ChessBoard, s: int, n: int) -> nat
    decreases n,
{
    if n <= 0 {
        0
    } else {
        dest_count(c, s, n - 1) + (if legal_dest(c, s, n - 1) {
            1nat
        } else {
            0nat
        })
    }
}

/// How many squares below `n` on rank `rk` are legal destinations from `s`.
pub open spec fn dest_count_on_rank(c: ChessBoard, s: int, rk: int, n: int) -> nat
    decreases n,
{
    if n <= 0 {
        0
    } else {
        dest_count_on_rank(c, s, rk, n - 1) + (if legal_dest(c, s, n - 1) && rank_of(n - 1)
            == rk {
            1nat
        } else {
            0nat
        })
    }
}

/// The number of moves counted for the piece on `s`: its legal
/// destinations, with each promotion move counted three extra times (a
/// pawn reaching the last rank may become a knight, bishop, rook or
/// queen).
pub open spec fn square_move_count(c: ChessBoard, s: int) -> nat {
    let base = dest_count(c, s, 64);
    if piece_at_spec(c, s) == PieceType::WhitePawn && rank_of(s) == 6 {
        base + 3 * dest_count_on_rank(c, s, 7, 64)
    } else if piece_at_spec(c, s) == PieceType::BlackPawn && rank_of(s) == 1 {
        base + 3 * dest_count_on_rank(c, s, 0, 64)
    } else {
        base
    }
}

/// The number of moves of the side to move, summed over the squares below
/// `n` that its pieces hold.
pub open spec fn move_count_below(c: ChessBoard, n: int) -> nat
    decreases n,
{
    let own = if c.whites_turn {
        c.white_pieces
    } else {
        c.black_pieces
    };
    if n <= 0 {
        0
    } else {
        move_count_below(c, n - 1) + (if bit(own, n - 1) {
            square_move_count(c, n - 1)
        } else {
            0nat
        })
    }
}

proof fn lemma_dest_count_matches(m: u64, c: ChessBoard, s: int, n: int)
    requires
        forall|t: int| #[trigger] bit(m, t) <==> legal_dest(c, s, t),
        0 <= n <= 64,
    ensures
        crate::bits::count_bits_below(m, n) == dest_count(c, s, n),
        dest_count(c, s, n) <= n,
    decreases n,
{
    if n > 0 {
        lemma_dest_count_matches(m, c, s, n - 1);
    }
}

proof fn lemma_rank_count_matches(m: u64, mask: u64, c: ChessBoard, s: int, rk: int, n: int)
    requires
        forall|t: int| #[trigger] bit(m, t) <==> legal_dest(c, s, t),
        forall|t: int| #[trigger] bit(mask, t) <==> (0 <= t < 64 && rank_of(t) == rk),
        0 <= n <= 64,
    ensures
        crate::bits::count_bits_below(m & mask, n) == dest_count_on_rank(c, s, rk, n),
        dest_count_on_rank(c, s, rk, n) <= n,
    decreases n,
{
    if n > 0 {
        lemma_rank_count_matches(m, mask, c, s, rk, n - 1);
        assert(bit(m & mask, n - 1) <==> (bit(m, n - 1) && bit(mask, n - 1)));
    }
}


/// The legality, check and terminal-state predicates read only the piece
/// boards, the derived occupancies, the turn, the castling rights and the
/// en passant target: two states agreeing on those agree on all of them.
pub proof fn lemma_legality_frame(a: ChessBoard, b: ChessBoard)
    requires
        a.boards == b.boards,
        a.white_pieces == b.white_pieces,
        a.black_pieces == b.black_pieces,
        a.all_pieces == b.all_pieces,
        a.whites_turn == b.whites_turn,
        a.castling_rights == b.castling_rights,
        a.en_passant_square == b.en_passant_square,
    ensures
        forall|s: int, t: int| #[trigger] legal_dest(a, s, t) == #[trigger] legal_dest(b, s, t),
        forall|bp: u64, wp: u64, wk: u64| #[trigger] white_checked(a, bp, wp, wk)
            == #[trigger] white_checked(b, bp, wp, wk),
        forall|bp: u64, wp: u64, bk: u64| #[trigger] black_checked(a, bp, wp, bk)
            == #[trigger] black_checked(b, bp, wp, bk),
        white_has_move(a) == white_has_move(b),
        black_has_move(a) == black_has_move(b),
        white_checkmated(a) == white_checkmated(b),
        black_checkmated(a) == black_checkmated(b),
        white_stalemated(a) == white_stalemated(b),
        black_stalemated(a) == black_stalemated(b),
{
    assert forall|bp: u64, wp: u64, s: int, t: int| #[trigger] white_attack_from(a, bp, wp, s, t)
        == #[trigger] white_attack_from(b, bp, wp, s, t) by {}
    assert forall|bp: u64, wp: u64, s: int, t: int| #[trigger] black_attack_from(a, bp, wp, s, t)
        == #[trigger] black_attack_from(b, bp, wp, s, t) by {}
    assert forall|bp: u64, wp: u64, t: int| #[trigger] white_attacks_sq(a, bp, wp, t)
        == #[trigger] white_attacks_sq(b, bp, wp, t) by {
        if white_attacks_sq(a, bp, wp, t) {
            let s = choose|s: int| #[trigger] white_attack_from(a, bp, wp, s, t);
            assert(white_attack_from(b, bp, wp, s, t));
        }
        if white_attacks_sq(b, bp, wp, t) {
            let s = choose|s: int| #[trigger] white_attack_from(b, bp, wp, s, t);
            assert(white_attack_from(a, bp, wp, s, t));
        }
    }
    assert forall|bp: u64, wp: u64, t: int| #[trigger] black_attacks_sq(a, bp, wp, t)
        == #[trigger] black_attacks_sq(b, bp, wp, t) by {
        if black_attacks_sq(a, bp, wp, t) {
            let s = choose|s: int| #[trigger] black_attack_from(a, bp, wp, s, t);
            assert(black_attack_from(b, bp, wp, s, t));
        }
        if black_attacks_sq(b, bp, wp, t) {
            let s = choose|s: int| #[trigger] black_attack_from(b, bp, wp, s, t);
            assert(black_attack_from(a, bp, wp, s, t));
        }
    }
    assert forall|bp: u64, wp: u64, wk: u64| #[trigger] white_checked(a, bp, wp, wk)
        == #[trigger] white_checked(b, bp, wp, wk) by {
        if white_checked(a, bp, wp, wk) {
            let t = choose|t: int| bit(wk, t) && #[trigger] black_attacks_sq(a, bp, wp, t);
            assert(bit(wk, t) && black_attacks_sq(b, bp, wp, t));
        }
        if white_checked(b, bp, wp, wk) {
            let t = choose|t: int| bit(wk, t) && #[trigger] black_attacks_sq(b, bp, wp, t);
            assert(bit(wk, t) && black_attacks_sq(a, bp, wp, t));
        }
    }
    assert forall|bp: u64, wp: u64, bk: u64| #[trigger] black_checked(a, bp, wp, bk)
        == #[trigger] black_checked(b, bp, wp, bk) by {
        if black_checked(a, bp, wp, bk) {
            let t = choose|t: int| bit(bk, t) && #[trigger] white_attacks_sq(a, bp, wp, t);
            assert(bit(bk, t) && white_attacks_sq(b, bp, wp, t));
        }
        if black_checked(b, bp, wp, bk) {
            let t = choose|t: int| bit(bk, t) && #[trigger] white_attacks_sq(b, bp, wp, t);
            assert(bit(bk, t) && white_attacks_sq(a, bp, wp, t));
        }
    }
    assert forall|s: int, t: int| #[trigger] legal_dest(a, s, t) == #[trigger] legal_dest(
        b,
        s,
        t,
    ) by {
        crate::board::lemma_piece_at_same(a, b, s);
    }
    assert(white_has_move(a) == white_has_move(b)) by {
        if white_has_move(a) {
            let (s, t) = choose|s: int, t: int|
                bit(a.white_pieces, s) && #[trigger] legal_dest(a, s, t);
            assert(bit(b.white_pieces, s) && legal_dest(b, s, t));
        }
        if white_has_move(b) {
            let (s, t) = choose|s: int, t: int|
                bit(b.white_pieces, s) && #[trigger] legal_dest(b, s, t);
            assert(bit(a.white_pieces, s) && legal_dest(a, s, t));
        }
    }
    assert(black_has_move(a) == black_has_move(b)) by {
        if black_has_move(a) {
            let (s, t) = choose|s: int, t: int|
                bit(a.black_pieces, s) && #[trigger] legal_dest(a, s, t);
            assert(bit(b.black_pieces, s) && legal_dest(b, s, t));
        }
        if black_has_move(b) {
            let (s, t) = choose|s: int, t: int|
                bit(b.black_pieces, s) && #[trigger] legal_dest(b, s, t);
            assert(bit(a.black_pieces, s) && legal_dest(a, s, t));
        }
    }
}

impl ChessBoard {
    /// The pseudo-legal target set of the piece `pt` standing on `position`.
    #[verifier::rlimit(100)]
    #[verifier::spinoff_prover]
    fn pseudo_moves(&self, position: usize, pt: PieceType) -> (moves: u64)
        requires
            position < 64,
            pt == piece_at_spec(*self, position as int),
        ensures
            forall|t: int| #[trigger] bit(moves, t) <==> pseudo_dest(
                *self,
                pt,
                position as int,
                t,
            ),
    {
        let square = square_bit(position);
        let ghost p: int = position as int;
        match pt {
            PieceType::WhiteKing => {
                let r = crate::attacks::compute_king_attacks(square, self.white_pieces);
                proof {
                    assert forall|t: int| #[trigger] bit(r, t) <==> pseudo_dest(
                        *self,
                        pt,
                        p,
                        t,
                    ) by {
                        if bit(r, t) {
                            let s = choose|s: int| bit(square, s) && #[trigger] king_step(s, t);
                            assert(s == p);
                        }
                        if pseudo_dest(*self, pt, p, t) {
                            assert(bit(square, p) && king_step(p, t));
                        }
                    }
                }
                r
            },
            PieceType::BlackKing => {
                let r = crate::attacks::compute_king_attacks(square, self.black_pieces);
                proof {
                    assert forall|t: int| #[trigger] bit(r, t) <==> pseudo_dest(
                        *self,
                        pt,
                        p,
                        t,
                    ) by {
                        if bit(r, t) {
                            let s = choose|s: int| bit(square, s) && #[trigger] king_step(s, t);
                            assert(s == p);
                        }
                        if pseudo_dest(*self, pt, p, t) {
                            assert(bit(square, p) && king_step(p, t));
                        }
                    }
                }
                r
            },
            PieceType::WhiteKnight => {
                let r = crate::attacks::compute_knight_attacks(square, self.white_pieces);
                proof {
                    assert forall|t: int| #[trigger] bit(r, t) <==> pseudo_dest(
                        *self,
                        pt,
                        p,
                        t,
                    ) by {
                        if bit(r, t) {
                            let s = choose|s: int| bit(square, s) && #[trigger] knight_step(s, t);
                            assert(s == p);
                        }
                        if pseudo_dest(*self, pt, p, t) {
                            assert(bit(square, p) && knight_step(p, t));
                        }
                    }
                }
                r
            },
            PieceType::BlackKnight => {
                let r = crate::attacks::compute_knight_attacks(square, self.black_pieces);
                proof {
                    assert forall|t: int| #[trigger] bit(r, t) <==> pseudo_dest(
                        *self,
                        pt,
                        p,
                        t,
                    ) by {
                        if bit(r, t) {
                            let s = choose|s: int| bit(square, s) && #[trigger] knight_step(s, t);
                            assert(s == p);
                        }
                        if pseudo_dest(*self, pt, p, t) {
                            assert(bit(square, p) && knight_step(p, t));
                        }
                    }
                }
                r
            },
            PieceType::WhiteBishop => {
                crate::attacks::compute_bishop_attacks(square, self.all_pieces, self.black_pieces)
            },
            PieceType::BlackBishop => {
                crate::attacks::compute_bishop_attacks(square, self.all_pieces, self.white_pieces)
            },
            PieceType::WhiteRook => {
                crate::attacks::compute_rook_attacks(square, self.all_pieces, self.black_pieces)
            },
            PieceType::BlackRook => {
                crate::attacks::compute_rook_attacks(square, self.all_pieces, self.white_pieces)
            },
            PieceType::WhiteQueen => {
                crate::attacks::compute_rook_attacks(square, self.all_pieces, self.black_pieces)
                    | crate::attacks::compute_bishop_attacks(
                    square,
                    self.all_pieces,
                    self.black_pieces,
                )
            },
            PieceType::BlackQueen => {
                crate::attacks::compute_rook_attacks(square, self.all_pieces, self.white_pieces)
                    | crate::attacks::compute_bishop_attacks(
                    square,
                    self.all_pieces,
                    self.white_pieces,
                )
            },
            PieceType::WhitePawn => {
                let r = crate::attacks::compute_white_pawn_moves(
                    square,
                    self.all_pieces,
                    self.black_pieces | self.en_passant_square,
                );
                proof {
                    assert forall|t: int| #[trigger] bit(r, t) <==> pseudo_dest(
                        *self,
                        pt,
                        p,
                        t,
                    ) by {
                        if bit(r, t) {
                            let s = choose|s: int|
                                bit(square, s) && (#[trigger] white_pawn_push(
                                    s,
                                    t,
                                    self.all_pieces,
                                ) || (white_pawn_step(s, t) && bit(
                                    self.black_pieces | self.en_passant_square,
                                    t,
                                )));
                            assert(s == p);
                        }
                        if pseudo_dest(*self, pt, p, t) {
                            assert(bit(square, p) && (white_pawn_push(p, t, self.all_pieces) || (
                            white_pawn_step(p, t) && bit(
                                self.black_pieces | self.en_passant_square,
                                t,
                            ))));
                        }
                    }
                }
                r
            },
            PieceType::BlackPawn => {
                let r = crate::attacks::compute_black_pawn_moves(
                    square,
                    self.all_pieces,
                    self.white_pieces | self.en_passant_square,
                );
                proof {
                    assert forall|t: int| #[trigger] bit(r, t) <==> pseudo_dest(
                        *self,
                        pt,
                        p,
                        t,
                    ) by {
                        if bit(r, t) {
                            let s = choose|s: int|
                                bit(square, s) && (#[trigger] black_pawn_push(
                                    s,
                                    t,
                                    self.all_pieces,
                                ) || (black_pawn_step(s, t) && bit(
                                    self.white_pieces | self.en_passant_square,
                                    t,
                                )));
                            assert(bit(square, s));
                            assert(s == p);
                        }
                        if pseudo_dest(*self, pt, p, t) {
                            assert(bit(square, p) && (black_pawn_push(p, t, self.all_pieces) || (
                            black_pawn_step(p, t) && bit(
                                self.white_pieces | self.en_passant_square,
                                t,
                            ))));
                        }
                    }
                }
                r
            },
            PieceType::Empty => 0,
        }
    }

    /// Whether moving the non-king piece `pt` from `position` to `i` leaves
    /// the mover's king safe.
    fn nonking_safe(&self, pt: PieceType, position: usize, i: usize) -> (r: bool)
        requires
            position < 64,
            i < 64,
            pt == piece_at_spec(*self, position as int),
            pt != PieceType::Empty,
            !is_king_piece(pt),
            pseudo_dest(*self, pt, position as int, i as int),
        ensures
            r == nonking_dest_safe(*self, pt, position as int, i as int),
    {
        let square = square_bit(position);
        let ti = square_bit(i);
        let ghost p: int = position as int;
        let ghost ii: int = i as int;
        if pt.is_white() {
            let mut bp2 = self.black_pieces & !ti;
            if pt == PieceType::WhitePawn && ti == self.en_passant_square {
                proof {
                    assert(rank_of(ii) >= 1);
                    assert(ii - 8 == square_at(rank_of(ii) - 1, file_of(ii)));
                }
                bp2 = bp2 & !square_bit(i - 8);
            }
            let wp2 = (self.white_pieces & !square) | ti;
            proof {
                assert(bp2 == sim_black_after_white(*self, pt, ii));
                assert(wp2 == sim_move(self.white_pieces, p, ii));
            }
            let batt = self.compute_black_attacks(Some(bp2), Some(wp2));
            let chk = crate::bits::overlaps(self.boards.white_kings, batt);
            proof {
                let wk = self.boards.white_kings;
                if chk {
                    let t = choose|t: int| 0 <= t < 64 && bit(wk, t) && #[trigger] bit(batt, t);
                    assert(bit(wk, t) && black_attacks_sq(*self, bp2, wp2, t));
                }
                if white_checked(*self, bp2, wp2, wk) {
                    let t = choose|t: int|
                        bit(wk, t) && #[trigger] black_attacks_sq(*self, bp2, wp2, t);
                    assert(0 <= t < 64 && bit(wk, t) && bit(batt, t));
                }
                assert(chk == white_checked(*self, bp2, wp2, wk));
            }
            !chk
        } else {
            let mut wp2 = self.white_pieces & !ti;
            if pt == PieceType::BlackPawn && ti == self.en_passant_square {
                proof {
                    assert(rank_of(ii) <= 6);
                    assert(ii + 8 == square_at(rank_of(ii) + 1, file_of(ii)));
                }
                wp2 = wp2 & !square_bit(i + 8);
            }
            let bp2 = (self.black_pieces & !square) | ti;
            proof {
                assert(wp2 == sim_white_after_black(*self, pt, ii));
                assert(bp2 == sim_move(self.black_pieces, p, ii));
            }
            let watt = self.compute_white_attacks(Some(bp2), Some(wp2));
            let chk = crate::bits::overlaps(self.boards.black_kings, watt);
            proof {
                let bk = self.boards.black_kings;
                if chk {
                    let t = choose|t: int| 0 <= t < 64 && bit(bk, t) && #[trigger] bit(watt, t);
                    assert(bit(bk, t) && white_attacks_sq(*self, bp2, wp2, t));
                }
                if black_checked(*self, bp2, wp2, bk) {
                    let t = choose|t: int|
                        bit(bk, t) && #[trigger] white_attacks_sq(*self, bp2, wp2, t);
                    assert(0 <= t < 64 && bit(bk, t) && bit(watt, t));
                }
                assert(chk == black_checked(*self, bp2, wp2, bk));
            }
            !chk
        }
    }

    /// Whether moving the king `pt` from `position` to `i` lands it on a
    /// safe square.
    fn king_move_safe(&self, pt: PieceType, position: usize, i: usize) -> (r: bool)
        requires
            position < 64,
            i < 64,
            is_king_piece(pt),
        ensures
            r == king_dest_safe(*self, pt, position as int, i as int),
    {
        let square = square_bit(position);
        let ti = square_bit(i);
        let ghost p: int = position as int;
        let ghost ii: int = i as int;
        if pt == PieceType::WhiteKing {
            let bp2 = self.black_pieces & !ti;
            let wp2 = (self.white_pieces & !square) | ti;
            let batt = self.compute_black_attacks(Some(bp2), Some(wp2));
            let chk = crate::bits::overlaps(ti, batt);
            proof {
                if chk {
                    let t = choose|t: int| 0 <= t < 64 && bit(ti, t) && #[trigger] bit(batt, t);
                    assert(t == ii);
                    assert(bit(ti, ii) && black_attacks_sq(*self, bp2, wp2, ii));
                }
                if white_checked(*self, bp2, wp2, ti) {
                    let t = choose|t: int|
                        bit(ti, t) && #[trigger] black_attacks_sq(*self, bp2, wp2, t);
                    assert(t == ii);
                    assert(0 <= ii < 64 && bit(ti, ii) && bit(batt, ii));
                }
                assert(chk == white_checked(*self, bp2, wp2, ti));
            }
            !chk
        } else {
            let wp2 = self.white_pieces & !ti;
            let bp2 = (self.black_pieces & !square) | ti;
            let watt = self.compute_white_attacks(Some(bp2), Some(wp2));
            let chk = crate::bits::overlaps(ti, watt);
            proof {
                if chk {
                    let t = choose|t: int| 0 <= t < 64 && bit(ti, t) && #[trigger] bit(watt, t);
                    assert(t == ii);
                    assert(bit(ti, ii) && white_attacks_sq(*self, bp2, wp2, ii));
                }
                if black_checked(*self, bp2, wp2, ti) {
                    let t = choose|t: int|
                        bit(ti, t) && #[trigger] white_attacks_sq(*self, bp2, wp2, t);
                    assert(t == ii);
                    assert(0 <= ii < 64 && bit(ti, ii) && bit(watt, ii));
                }
                assert(chk == black_checked(*self, bp2, wp2, ti));
            }
            !chk
        }
    }

    /// Tests one castling leg: with White's occupancy after the king steps
    /// to `t`, whether `t` is attacked by Black.
    fn white_castle_square_attacked(&self, t: usize) -> (r: bool)
        requires
            t < 64,
        ensures
            r == white_checked(
                *self,
                self.black_pieces,
                sim_move(self.white_pieces, 4, t as int),
                square_bit_spec(t as int),
            ),
    {
        let ti = square_bit(t);
        let wp2 = (self.white_pieces & !square_bit(4)) | ti;
        let batt = self.compute_black_attacks(Some(self.black_pieces), Some(wp2));
        let chk = crate::bits::overlaps(ti, batt);
        proof {
            let ghost tt: int = t as int;
            if chk {
                let u = choose|u: int| 0 <= u < 64 && bit(ti, u) && #[trigger] bit(batt, u);
                assert(u == tt);
                assert(bit(ti, tt) && black_attacks_sq(*self, self.black_pieces, wp2, tt));
            }
            if white_checked(*self, self.black_pieces, wp2, ti) {
                let u = choose|u: int|
                    bit(ti, u) && #[trigger] black_attacks_sq(*self, self.black_pieces, wp2, u);
                assert(u == tt);
                assert(0 <= tt < 64 && bit(ti, tt) && bit(batt, tt));
            }
            assert(chk == white_checked(*self, self.black_pieces, wp2, ti));
        }
        chk
    }

    /// Tests one castling leg for Black.
    fn black_castle_square_attacked(&self, t: usize) -> (r: bool)
        requires
            t < 64,
        ensures
            r == black_checked(
                *self,
                sim_move(self.black_pieces, 60, t as int),
                self.white_pieces,
                square_bit_spec(t as int),
            ),
    {
        let ti = square_bit(t);
        let bp2 = (self.black_pieces & !square_bit(60)) | ti;
        let watt = self.compute_white_attacks(Some(bp2), Some(self.white_pieces));
        let chk = crate::bits::overlaps(ti, watt);
        proof {
            let ghost tt: int = t as int;
            if chk {
                let u = choose|u: int| 0 <= u < 64 && bit(ti, u) && #[trigger] bit(watt, u);
                assert(u == tt);
                assert(bit(ti, tt) && white_attacks_sq(*self, bp2, self.white_pieces, tt));
            }
            if black_checked(*self, bp2, self.white_pieces, ti) {
                let u = choose|u: int|
                    bit(ti, u) && #[trigger] white_attacks_sq(*self, bp2, self.white_pieces, u);
                assert(u == tt);
                assert(0 <= tt < 64 && bit(ti, tt) && bit(watt, tt));
            }
            assert(chk == black_checked(*self, bp2, self.white_pieces, ti));
        }
        chk
    }

    /// All four castling conditions for White kingside.
    fn can_castle_white_kingside(&self) -> (r: bool)
        ensures
            r == white_kingside_castle(*self, 4, 6),
    {
        self.castling_rights.white_king && !get_bit(self.all_pieces, 5) && !get_bit(
            self.all_pieces,
            6,
        ) && !self.white_in_check(None, None) && !self.white_castle_square_attacked(5)
            && !self.white_castle_square_attacked(6)
    }

    /// All four castling conditions for White queenside.
    fn can_castle_white_queenside(&self) -> (r: bool)
        ensures
            r == white_queenside_castle(*self, 4, 2),
    {
        self.castling_rights.white_queen && !get_bit(self.all_pieces, 3) && !get_bit(
            self.all_pieces,
            2,
        ) && !get_bit(self.all_pieces, 1) && !self.white_in_check(None, None)
            && !self.white_castle_square_attacked(3) && !self.white_castle_square_attacked(2)
    }

    /// All four castling conditions for Black kingside.
    fn can_castle_black_kingside(&self) -> (r: bool)
        ensures
            r == black_kingside_castle(*self, 60, 62),
    {
        self.castling_rights.black_king && !get_bit(self.all_pieces, 61) && !get_bit(
            self.all_pieces,
            62,
        ) && !self.black_in_check(None, None) && !self.black_castle_square_attacked(61)
            && !self.black_castle_square_attacked(62)
    }

    /// All four castling conditions for Black queenside.
    fn can_castle_black_queenside(&self) -> (r: bool)
        ensures
            r == black_queenside_castle(*self, 60, 58),
    {
        self.castling_rights.black_queen && !get_bit(self.all_pieces, 59) && !get_bit(
            self.all_pieces,
            58,
        ) && !get_bit(self.all_pieces, 57) && !self.black_in_check(None, None)
            && !self.black_castle_square_attacked(59) && !self.black_castle_square_attacked(58)
    }

    /// The set of squares the piece standing on `position` may legally move
    /// to (the empty set for an empty or out-of-range square).  Whose turn
    /// it is is not consulted.
    #[verifier::rlimit(100)]
    #[verifier::spinoff_prover]
    pub fn get_moves(&self, position: usize) -> (moves: u64)
        ensures
            forall|t: int| #[trigger] bit(moves, t) <==> legal_dest(*self, position as int, t),
    {
        if position > 63 {
            return 0;
        }
        let pt = self.piece_at(position);
        let ghost p: int = position as int;
        if pt == PieceType::Empty {
            return 0;
        }
        let pseudo = self.pseudo_moves(position, pt);
        let mut result: u64 = 0;
        if !pt.is_king() {
            let mut i: usize = 0;
            while i < 64
                invariant
                    i <= 64,
                    position < 64,
                    pt == piece_at_spec(*self, p),
                    pt != PieceType::Empty,
                    !is_king_piece(pt),
                    p == position as int,
                    forall|t: int| #[trigger] bit(pseudo, t) <==> pseudo_dest(*self, pt, p, t),
                    forall|t: int| #[trigger] bit(result, t) <==> (0 <= t < i && pseudo_dest(
                        *self,
                        pt,
                        p,
                        t,
                    ) && nonking_dest_safe(*self, pt, p, t)),
                decreases 64 - i,
            {
                if get_bit(pseudo, i) {
                    if self.nonking_safe(pt, position, i) {
                        result = crate::bits::set_bit(result, i);
                    }
                }
                i = i + 1;
            }
            result
        } else {
            let mut i: usize = 0;
            while i < 64
                invariant
                    i <= 64,
                    position < 64,
                    pt == piece_at_spec(*self, p),
                    is_king_piece(pt),
                    p == position as int,
                    forall|t: int| #[trigger] bit(pseudo, t) <==> pseudo_dest(*self, pt, p, t),
                    forall|t: int| #[trigger] bit(result, t) <==> (0 <= t < i && pseudo_dest(
                        *self,
                        pt,
                        p,
                        t,
                    ) && king_dest_safe(*self, pt, p, t)),
                decreases 64 - i,
            {
                if get_bit(pseudo, i) {
                    if self.king_move_safe(pt, position, i) {
                        result = crate::bits::set_bit(result, i);
                    }
                }
                i = i + 1;
            }
            if pt == PieceType::WhiteKing && position == 4 {
                if self.can_castle_white_kingside() {
                    result = crate::bits::set_bit(result, 6);
                }
                if self.can_castle_white_queenside() {
                    result = crate::bits::set_bit(result, 2);
                }
            }
            if pt == PieceType::BlackKing && position == 60 {
                if self.can_castle_black_kingside() {
                    result = crate::bits::set_bit(result, 62);
                }
                if self.can_castle_black_queenside() {
                    result = crate::bits::set_bit(result, 58);
                }
            }
            result
        }
    }

    /// Whether any white piece has a legal move.
    fn white_any_move(&self) -> (r: bool)
        ensures
            r == white_has_move(*self),
    {
        let mut i: usize = 0;
        while i < 64
            invariant
                i <= 64,
                forall|s: int, t: int|
                    0 <= s < i && bit(self.white_pieces, s) ==> !(#[trigger] legal_dest(
                        *self,
                        s,
                        t,
                    )),
            decreases 64 - i,
        {
            if get_bit(self.white_pieces, i) {
                let m = self.get_moves(i);
                if m != 0 {
                    proof {
                        if forall|t: int| 0 <= t < 64 ==> !(#[trigger] bit(m, t)) {
                            crate::bits::lemma_bits_all_zero(m);
                        }
                        let t = choose|t: int| 0 <= t < 64 && #[trigger] bit(m, t);
                        assert(bit(self.white_pieces, i as int) && legal_dest(*self, i as int, t));
                    }
                    return true;
                }
                proof {
                    assert forall|t: int| !(#[trigger] legal_dest(*self, i as int, t)) by {
                        if legal_dest(*self, i as int, t) {
                            assert(bit(m, t));
                        }
                    }
                }
            } else {
                proof {
                    assert forall|t: int| !(bit(self.white_pieces, i as int) && #[trigger] legal_dest(
                        *self,
                        i as int,
                        t,
                    )) by {}
                }
            }
            i = i + 1;
        }
        false
    }

    /// Whether any black piece has a legal move.
    fn black_any_move(&self) -> (r: bool)
        ensures
            r == black_has_move(*self),
    {
        let mut i: usize = 0;
        while i < 64
            invariant
                i <= 64,
                forall|s: int, t: int|
                    0 <= s < i && bit(self.black_pieces, s) ==> !(#[trigger] legal_dest(
                        *self,
                        s,
                        t,
                    )),
            decreases 64 - i,
        {
            if get_bit(self.black_pieces, i) {
                let m = self.get_moves(i);
                if m != 0 {
                    proof {
                        if forall|t: int| 0 <= t < 64 ==> !(#[trigger] bit(m, t)) {
                            crate::bits::lemma_bits_all_zero(m);
                        }
                        let t = choose|t: int| 0 <= t < 64 && #[trigger] bit(m, t);
                        assert(bit(self.black_pieces, i as int) && legal_dest(*self, i as int, t));
                    }
                    return true;
                }
                proof {
                    assert forall|t: int| !(#[trigger] legal_dest(*self, i as int, t)) by {
                        if legal_dest(*self, i as int, t) {
                            assert(bit(m, t));
                        }
                    }
                }
            } else {
                proof {
                    assert forall|t: int| !(bit(self.black_pieces, i as int) && #[trigger] legal_dest(
                        *self,
                        i as int,
                        t,
                    )) by {}
                }
            }
            i = i + 1;
        }
        false
    }

    /// Whether White is checkmated.
    pub fn white_in_checkmate(&self) -> (r: bool)
        ensures
            r == white_checkmated(*self),
    {
        if !self.white_in_check(None, None) {
            return false;
        }
        !self.white_any_move()
    }

    /// Whether Black is checkmated.
    pub fn black_in_checkmate(&self) -> (r: bool)
        ensures
            r == black_checkmated(*self),
    {
        if !self.black_in_check(None, None) {
            return false;
        }
        !self.black_any_move()
    }

    /// Whether White is stalemated.
    pub fn white_in_stalemate(&self) -> (r: bool)
        ensures
            r == white_stalemated(*self),
    {
        if !self.whites_turn {
            return false;
        }
        if self.white_in_check(None, None) {
            return false;
        }
        !self.white_any_move()
    }

    /// Whether Black is stalemated.
    pub fn black_in_stalemate(&self) -> (r: bool)
        ensures
            r == black_stalemated(*self),
    {
        if self.whites_turn {
            return false;
        }
        if self.black_in_check(None, None) {
            return false;
        }
        !self.black_any_move()
    }

    /// The legal destinations of the piece on `position`, as a list of
    /// square indices in increasing order.  The list is empty when the
    /// square is out of range or its piece does not belong to the side to
    /// move.
    pub fn get_moves_list(&self, position: usize) -> (moves: Vec<usize>)
        ensures
            position >= 64 ==> moves@.len() == 0,
            position < 64 && self.whites_turn != is_white_piece(
                piece_at_spec(*self, position as int),
            ) ==> moves@.len() == 0,
            position < 64 && self.whites_turn == is_white_piece(
                piece_at_spec(*self, position as int),
            ) ==> {
                &&& forall|k: int|
                    0 <= k < moves@.len() ==> legal_dest(*self, position as int, #[trigger] moves@[k] as int)
                &&& forall|k1: int, k2: int|
                    0 <= k1 < k2 < moves@.len() ==> #[trigger] moves@[k1] < #[trigger] moves@[k2]
                &&& forall|t: int|
                    #[trigger] legal_dest(*self, position as int, t) ==> exists|k: int|
                        0 <= k < moves@.len() && moves@[k] == t
            },
    {
        let mut moves: Vec<usize> = Vec::new();
        if position > 63 {
            return moves;
        }
        let piece_type = self.piece_at(position);
        if self.whites_turn != piece_type.is_white() {
            return moves;
        }
        let bb = self.get_moves(position);
        let mut i: usize = 0;
        while i < 64
            invariant
                i <= 64,
                position < 64,
                forall|t: int| #[trigger] bit(bb, t) <==> legal_dest(*self, position as int, t),
                forall|k: int|
                    0 <= k < moves@.len() ==> (legal_dest(
                        *self,
                        position as int,
                        #[trigger] moves@[k] as int,
                    ) && moves@[k] < i),
                forall|k1: int, k2: int|
                    0 <= k1 < k2 < moves@.len() ==> #[trigger] moves@[k1] < #[trigger] moves@[k2],
                forall|t: int|
                    0 <= t < i && #[trigger] legal_dest(*self, position as int, t) ==> exists|k: int|
                        0 <= k < moves@.len() && moves@[k] == t,
            decreases 64 - i,
        {
            if get_bit(bb, i) {
                let ghost old_moves = moves@;
                moves.push(i);
                proof {
                    assert forall|t: int|
                        0 <= t < i + 1 && #[trigger] legal_dest(*self, position as int, t)
                            implies exists|k: int| 0 <= k < moves@.len() && moves@[k] == t by {
                        if t < i {
                            let k = choose|k: int| 0 <= k < old_moves.len() && old_moves[k] == t;
                            assert(moves@[k] == t);
                        } else {
                            assert(moves@[moves@.len() - 1] == t);
                        }
                    }
                }
            }
            i = i + 1;
        }
        moves
    }

    /// The one-rank board set of rank `rk`.
    fn rank_mask(rk: usize) -> (m: u64)
        requires
            rk < 8,
        ensures
            forall|t: int| #[trigger] bit(m, t) <==> (0 <= t < 64 && rank_of(t) == rk),
    {
        let mut m: u64 = 0;
        let mut f: usize = 0;
        while f < 8
            invariant
                rk < 8,
                f <= 8,
                forall|t: int| #[trigger] bit(m, t) <==> (0 <= t < 64 && rank_of(t) == rk
                    && file_of(t) < f),
            decreases 8 - f,
        {
            let t = rk * 8 + f;
            proof {
                assert(t == square_at(rk as int, f as int));
            }
            m = crate::bits::set_bit(m, t);
            proof {
                assert forall|u: int| #[trigger] bit(m, u) <==> (0 <= u < 64 && rank_of(u)
                    == rk && file_of(u) < f + 1) by {
                    if 0 <= u < 64 && rank_of(u) == rk && file_of(u) < f + 1 {
                        assert(u == square_at(rank_of(u), file_of(u)));
                    }
                }
            }
            f = f + 1;
        }
        m
    }

    /// The number of legal moves for the side whose turn it is, counting
    /// each promotion move once per piece it can become.
    pub fn count_moves(&self) -> (count: usize)
        ensures
            count == move_count_below(*self, 64),
    {
        let own = if self.whites_turn {
            self.white_pieces
        } else {
            self.black_pieces
        };
        let mut count: usize = 0;
        let mut i: usize = 0;
        while i < 64
            invariant
                i <= 64,
                own == (if self.whites_turn {
                    self.white_pieces
                } else {
                    self.black_pieces
                }),
                count == move_count_below(*self, i as int),
                count <= 256 * i,
            decreases 64 - i,
        {
            if get_bit(own, i) {
                let moves = self.get_moves(i);
                let pa = self.piece_at(i);
                let base = crate::bits::bit_count(moves);
                proof {
                    lemma_dest_count_matches(moves, *self, i as int, 64);
                }
                let mut square_total: usize = base;
                if pa == PieceType::WhitePawn && i / 8 == 6 {
                    let mask = Self::rank_mask(7);
                    let promo = crate::bits::bit_count(moves & mask);
                    proof {
                        lemma_rank_count_matches(moves, mask, *self, i as int, 7, 64);
                    }
                    square_total = square_total + 3 * promo;
                }
                if pa == PieceType::BlackPawn && i / 8 == 1 {
                    let mask = Self::rank_mask(0);
                    let promo = crate::bits::bit_count(moves & mask);
                    proof {
                        lemma_rank_count_matches(moves, mask, *self, i as int, 0, 64);
                    }
                    square_total = square_total + 3 * promo;
                }
                proof {
                    assert(square_total == square_move_count(*self, i as int));
                }
                count = count + square_total;
            }
            i = i + 1;
        }
        count
    }
}

} // verus!
