//! The position aggregate: piece-type and game-result enums, the twelve
//! per-(colour, kind) occupancy boards, the derived occupancy boards, game
//! flags, and the snapshot history used for repetition detection.

use vstd::prelude::*;

use crate::bits::bit;
use crate::geometry::{file_of, rank_of, square_at};

verus! {

broadcast use crate::bits::group_bit_lemmas, crate::geometry::group_square_lemmas;

/// The kinds of piece a square can hold (or `Empty` for none).
#[derive(Debug, PartialEq, Eq, Structural, Copy, Clone)]
pub enum PieceType {
    WhitePawn,
    WhiteKnight,
    WhiteBishop,
    WhiteRook,
    WhiteQueen,
    WhiteKing,
    BlackPawn,
    BlackKnight,
    BlackBishop,
    BlackRook,
    BlackQueen,
    BlackKing,
    Empty,
}

/// The state of the game: ongoing, won by a side, or drawn.
#[derive(Debug, PartialEq, Eq, Structural, Copy, Clone)]
pub enum GameResult {
    Ongoing,
    White,
    Draw,
    Black,
}

/// `pt` is a white piece.
pub open spec fn is_white_piece(pt: PieceType) -> bool {
    ||| pt == PieceType::WhitePawn
    ||| pt == PieceType::WhiteKnight
    ||| pt == PieceType::WhiteBishop
    ||| pt == PieceType::WhiteRook
    ||| pt == PieceType::WhiteQueen
    ||| pt == PieceType::WhiteKing
}

/// `pt` is a black piece.
pub open spec fn is_black_piece(pt: PieceType) -> bool {
    ||| pt == PieceType::BlackPawn
    ||| pt == PieceType::BlackKnight
    ||| pt == PieceType::BlackBishop
    ||| pt == PieceType::BlackRook
    ||| pt == PieceType::BlackQueen
    ||| pt == PieceType::BlackKing
}

/// `pt` is a king of either colour.
pub open spec fn is_king_piece(pt: PieceType) -> bool {
    pt == PieceType::WhiteKing || pt == PieceType::BlackKing
}

/// `pt` is a pawn of either colour.
pub open spec fn is_pawn_piece(pt: PieceType) -> bool {
    pt == PieceType::WhitePawn || pt == PieceType::BlackPawn
}

impl PieceType {
    /// Whether the piece is white.
    pub fn is_white(&self) -> (r: bool)
        ensures
            r == is_white_piece(*self),
    {
        match self {
            PieceType::WhitePawn => true,
            PieceType::WhiteKnight => true,
            PieceType::WhiteBishop => true,
            PieceType::WhiteRook => true,
            PieceType::WhiteQueen => true,
            PieceType::WhiteKing => true,
            _ => false,
        }
    }

    /// Whether the piece is a king.
    pub fn is_king(&self) -> (r: bool)
        ensures
            r == is_king_piece(*self),
    {
        match self {
            PieceType::WhiteKing => true,
            PieceType::BlackKing => true,
            _ => false,
        }
    }

    /// Whether the piece is a pawn.
    pub fn is_pawn(&self) -> (r: bool)
        ensures
            r == is_pawn_piece(*self),
    {
        match self {
            PieceType::WhitePawn => true,
            PieceType::BlackPawn => true,
            _ => false,
        }
    }
}

/// The twelve per-(colour, kind) occupancy boards.
#[derive(Debug, PartialEq, Eq, Structural, Copy, Clone)]
pub struct PieceBoards {
    pub white_pawns: u64,
    pub white_knights: u64,
    pub white_bishops: u64,
    pub white_rooks: u64,
    pub white_queens: u64,
    pub white_kings: u64,
    pub black_pawns: u64,
    pub black_knights: u64,
    pub black_bishops: u64,
    pub black_rooks: u64,
    pub black_queens: u64,
    pub black_kings: u64,
}

/// The occupancy board of one piece kind (`Empty` has no board).
pub open spec fn board_of(b: PieceBoards, pt: PieceType) -> u64 {
    match pt {
        PieceType::WhitePawn => b.white_pawns,
        PieceType::WhiteKnight => b.white_knights,
        PieceType::WhiteBishop => b.white_bishops,
        PieceType::WhiteRook => b.white_rooks,
        PieceType::WhiteQueen => b.white_queens,
        PieceType::WhiteKing => b.white_kings,
        PieceType::BlackPawn => b.black_pawns,
        PieceType::BlackKnight => b.black_knights,
        PieceType::BlackBishop => b.black_bishops,
        PieceType::BlackRook => b.black_rooks,
        PieceType::BlackQueen => b.black_queens,
        PieceType::BlackKing => b.black_kings,
        PieceType::Empty => 0u64,
    }
}

/// The union of the six white boards.
pub open spec fn white_union(b: PieceBoards) -> u64 {
    b.white_pawns | b.white_knights | b.white_bishops | b.white_rooks | b.white_queens
        | b.white_kings
}

/// The union of the six black boards.
pub open spec fn black_union(b: PieceBoards) -> u64 {
    b.black_pawns | b.black_knights | b.black_bishops | b.black_rooks | b.black_queens
        | b.black_kings
}

/// No square is held by two different piece kinds.
pub open spec fn boards_disjoint(b: PieceBoards) -> bool {
    forall|p1: PieceType, p2: PieceType, i: int|
        #![trigger bit(board_of(b, p1), i), bit(board_of(b, p2), i)]
        p1 != p2 && bit(board_of(b, p1), i) ==> !bit(board_of(b, p2), i)
}

/// The four castling rights.  A right, once cleared, never returns.
#[derive(Debug, PartialEq, Eq, Structural, Copy, Clone)]
pub struct CastlingRights {
    /// White may still castle kingside.
    pub white_king: bool,
    /// White may still castle queenside.
    pub white_queen: bool,
    /// Black may still castle kingside.
    pub black_king: bool,
    /// Black may still castle queenside.
    pub black_queen: bool,
}

/// One stored position: the piece boards, whether an en passant capture was
/// available, and the castling rights.  Two positions repeat only when all
/// of these agree.
#[derive(Debug, PartialEq, Eq, Structural, Copy, Clone)]
pub struct Snapshot {
    pub boards: PieceBoards,
    pub en_passant_possible: bool,
    pub castle_white_king: bool,
    pub castle_white_queen: bool,
    pub castle_black_king: bool,
    pub castle_black_queen: bool,
}

/// The chess position and game state.  The derived boards and the square
/// array always agree with the twelve piece boards (see [`ChessBoard::wf`]).
#[derive(Debug, Clone)]
pub struct ChessBoard {
    /// The twelve per-(colour, kind) occupancy boards.
    pub boards: PieceBoards,
    /// Derived: all squares held by a white piece.
    pub white_pieces: u64,
    /// Derived: all squares held by a black piece.
    pub black_pieces: u64,
    /// Derived: all occupied squares.
    pub all_pieces: u64,
    /// Whose turn it is (true for White).
    pub whites_turn: bool,
    /// The state of the game; once terminal no further move is accepted.
    pub game_result: GameResult,
    /// Castling rights.
    pub castling_rights: CastlingRights,
    /// Half-moves since the last capture or pawn move (for the fifty-move
    /// rule).
    pub halfmove_clock: i32,
    /// The full-move number, incremented after Black's move.
    pub fullmove: i32,
    /// Whether the player whose turn it is stands in check.
    pub player_in_check: bool,
    /// Derived: the piece on each of the 64 squares.
    pub board: Vec<PieceType>,
    /// The en passant target as a one-square set, or 0 when none.
    pub en_passant_square: u64,
    /// Snapshots of every position reached, for repetition detection.
    pub positions: Vec<Snapshot>,
}

/// The piece on square `i`: the scan over the twelve boards that
/// [`ChessBoard::piece_at`] performs.
pub open spec fn piece_at_spec(c: ChessBoard, i: int) -> PieceType {
    if !bit(c.all_pieces, i) {
        PieceType::Empty
    } else if bit(c.boards.white_pawns, i) {
        PieceType::WhitePawn
    } else if bit(c.boards.black_pawns, i) {
        PieceType::BlackPawn
    } else if bit(c.boards.white_knights, i) {
        PieceType::WhiteKnight
    } else if bit(c.boards.black_knights, i) {
        PieceType::BlackKnight
    } else if bit(c.boards.white_bishops, i) {
        PieceType::WhiteBishop
    } else if bit(c.boards.black_bishops, i) {
        PieceType::BlackBishop
    } else if bit(c.boards.white_rooks, i) {
        PieceType::WhiteRook
    } else if bit(c.boards.black_rooks, i) {
        PieceType::BlackRook
    } else if bit(c.boards.white_queens, i) {
        PieceType::WhiteQueen
    } else if bit(c.boards.black_queens, i) {
        PieceType::BlackQueen
    } else if bit(c.boards.white_kings, i) {
        PieceType::WhiteKing
    } else if bit(c.boards.black_kings, i) {
        PieceType::BlackKing
    } else {
        PieceType::Empty
    }
}

impl ChessBoard {
    /// Well-formedness: the derived boards equal the unions of the piece
    /// boards, no square holds two pieces, the square array mirrors the
    /// boards, and the clocks are in range.
    pub open spec fn wf(self) -> bool {
        &&& boards_disjoint(self.boards)
        &&& self.white_pieces == white_union(self.boards)
        &&& self.black_pieces == black_union(self.boards)
        &&& self.all_pieces == self.white_pieces | self.black_pieces
        &&& self.board@.len() == 64
        &&& forall|i: int| 0 <= i < 64 ==> self.board@[i] == piece_at_spec(self, i)
        &&& self.halfmove_clock >= 0
        &&& self.fullmove >= 1
    }

    /// The piece standing on the given square, `Empty` when the square is
    /// empty or out of range.
    pub fn piece_at(&self, position: usize) -> (r: PieceType)
        ensures
            position < 64 ==> r == piece_at_spec(*self, position as int),
            position >= 64 ==> r == PieceType::Empty,
    {
        if position > 63 {
            return PieceType::Empty;
        }
        if !crate::bits::get_bit(self.all_pieces, position) {
            return PieceType::Empty;
        }
        if crate::bits::get_bit(self.boards.white_pawns, position) {
            return PieceType::WhitePawn;
        }
        if crate::bits::get_bit(self.boards.black_pawns, position) {
            return PieceType::BlackPawn;
        }
        if crate::bits::get_bit(self.boards.white_knights, position) {
            return PieceType::WhiteKnight;
        }
        if crate::bits::get_bit(self.boards.black_knights, position) {
            return PieceType::BlackKnight;
        }
        if crate::bits::get_bit(self.boards.white_bishops, position) {
            return PieceType::WhiteBishop;
        }
        if crate::bits::get_bit(self.boards.black_bishops, position) {
            return PieceType::BlackBishop;
        }
        if crate::bits::get_bit(self.boards.white_rooks, position) {
            return PieceType::WhiteRook;
        }
        if crate::bits::get_bit(self.boards.black_rooks, position) {
            return PieceType::BlackRook;
        }
        if crate::bits::get_bit(self.boards.white_queens, position) {
            return PieceType::WhiteQueen;
        }
        if crate::bits::get_bit(self.boards.black_queens, position) {
            return PieceType::BlackQueen;
        }
        if crate::bits::get_bit(self.boards.white_kings, position) {
            return PieceType::WhiteKing;
        }
        if crate::bits::get_bit(self.boards.black_kings, position) {
            return PieceType::BlackKing;
        }
        PieceType::Empty
    }
}



/// Two states with the same piece boards and occupancy hold the same piece
/// on every square.
pub proof fn lemma_piece_at_same(a: ChessBoard, b: ChessBoard, i: int)
    requires
        a.boards == b.boards,
        a.all_pieces == b.all_pieces,
    ensures
        piece_at_spec(a, i) == piece_at_spec(b, i),
{
}

/// The piece standing on square `i` in the standard starting array.
pub open spec fn starting_piece(i: int) -> PieceType {
    let r = rank_of(i);
    let f = file_of(i);
    if r == 1 {
        PieceType::WhitePawn
    } else if r == 6 {
        PieceType::BlackPawn
    } else if r == 0 {
        if f == 0 || f == 7 {
            PieceType::WhiteRook
        } else if f == 1 || f == 6 {
            PieceType::WhiteKnight
        } else if f == 2 || f == 5 {
            PieceType::WhiteBishop
        } else if f == 3 {
            PieceType::WhiteQueen
        } else {
            PieceType::WhiteKing
        }
    } else if r == 7 {
        if f == 0 || f == 7 {
            PieceType::BlackRook
        } else if f == 1 || f == 6 {
            PieceType::BlackKnight
        } else if f == 2 || f == 5 {
            PieceType::BlackBishop
        } else if f == 3 {
            PieceType::BlackQueen
        } else {
            PieceType::BlackKing
        }
    } else {
        PieceType::Empty
    }
}

impl ChessBoard {
    /// Rebuilds the per-square piece array from the piece boards.
    pub(crate) fn rebuild_board_vec(&mut self)
        ensures
            final(self).boards == old(self).boards,
            final(self).white_pieces == old(self).white_pieces,
            final(self).black_pieces == old(self).black_pieces,
            final(self).all_pieces == old(self).all_pieces,
            final(self).whites_turn == old(self).whites_turn,
            final(self).game_result == old(self).game_result,
            final(self).castling_rights == old(self).castling_rights,
            final(self).halfmove_clock == old(self).halfmove_clock,
            final(self).fullmove == old(self).fullmove,
            final(self).player_in_check == old(self).player_in_check,
            final(self).en_passant_square == old(self).en_passant_square,
            final(self).positions == old(self).positions,
            final(self).board@.len() == 64,
            forall|i: int| 0 <= i < 64 ==> final(self).board@[i] == piece_at_spec(*old(self), i),
    {
        self.board = Vec::new();
        let mut i: usize = 0;
        while i < 64
            invariant
                self.boards == old(self).boards,
                self.white_pieces == old(self).white_pieces,
                self.black_pieces == old(self).black_pieces,
                self.all_pieces == old(self).all_pieces,
                self.whites_turn == old(self).whites_turn,
                self.game_result == old(self).game_result,
                self.castling_rights == old(self).castling_rights,
                self.halfmove_clock == old(self).halfmove_clock,
                self.fullmove == old(self).fullmove,
                self.player_in_check == old(self).player_in_check,
                self.en_passant_square == old(self).en_passant_square,
                self.positions == old(self).positions,
                i <= 64,
                self.board@.len() == i,
                forall|j: int| 0 <= j < i ==> self.board@[j] == piece_at_spec(*old(self), j),
            decreases 64 - i,
        {
            let p = self.piece_at(i);
            self.board.push(p);
            i = i + 1;
        }
    }

    /// A fresh game: the standard starting array, White to move, all
    /// castling rights held, clocks reset, no history.
    #[verifier::rlimit(100)]
    pub fn new() -> (r: ChessBoard)
        ensures
            r.wf(),
            forall|i: int| 0 <= i < 64 ==> #[trigger] piece_at_spec(r, i) == starting_piece(i),
            r.whites_turn,
            r.game_result == GameResult::Ongoing,
            r.castling_rights == (CastlingRights {
                white_king: true,
                white_queen: true,
                black_king: true,
                black_queen: true,
            }),
            r.halfmove_clock == 0,
            r.fullmove == 1,
            !r.player_in_check,
            r.en_passant_square == 0,
            r.positions@.len() == 0,
    {
        let wp = Self::back_rank_mask(1);
        let wn = crate::bits::set_bit(crate::bits::set_bit(0, 1), 6);
        let wb = crate::bits::set_bit(crate::bits::set_bit(0, 2), 5);
        let wr = crate::bits::set_bit(crate::bits::set_bit(0, 0), 7);
        let wq = crate::bits::set_bit(0, 3);
        let wk = crate::bits::set_bit(0, 4);
        let bp = Self::back_rank_mask(6);
        let bn = crate::bits::set_bit(crate::bits::set_bit(0, 57), 62);
        let bb = crate::bits::set_bit(crate::bits::set_bit(0, 58), 61);
        let br = crate::bits::set_bit(crate::bits::set_bit(0, 56), 63);
        let bq = crate::bits::set_bit(0, 59);
        let bk = crate::bits::set_bit(0, 60);
        let boards = PieceBoards {
            white_pawns: wp,
            white_knights: wn,
            white_bishops: wb,
            white_rooks: wr,
            white_queens: wq,
            white_kings: wk,
            black_pawns: bp,
            black_knights: bn,
            black_bishops: bb,
            black_rooks: br,
            black_queens: bq,
            black_kings: bk,
        };
        let white = wp | wn | wb | wr | wq | wk;
        let black = bp | bn | bb | br | bq | bk;
        let mut r = ChessBoard {
            boards,
            white_pieces: white,
            black_pieces: black,
            all_pieces: white | black,
            whites_turn: true,
            game_result: GameResult::Ongoing,
            castling_rights: CastlingRights {
                white_king: true,
                white_queen: true,
                black_king: true,
                black_queen: true,
            },
            halfmove_clock: 0,
            fullmove: 1,
            player_in_check: false,
            board: Vec::new(),
            en_passant_square: 0,
            positions: Vec::new(),
        };
        proof {
            assert forall|p1: PieceType, p2: PieceType, i: int|
                p1 != p2 && #[trigger] bit(board_of(r.boards, p1), i) implies !(#[trigger] bit(
                board_of(r.boards, p2),
                i,
            )) by {
                if bit(board_of(r.boards, p1), i) && bit(board_of(r.boards, p2), i) {
                    assert(false);
                }
            }
            assert forall|i: int| 0 <= i < 64 implies #[trigger] piece_at_spec(r, i)
                == starting_piece(i) by {
                assert(i == square_at(rank_of(i), file_of(i)));
            }
        }
        let ghost pre = r;
        r.rebuild_board_vec();
        proof {
            assert forall|i: int| 0 <= i < 64 implies r.board@[i] == piece_at_spec(r, i) by {
                lemma_piece_at_same(pre, r, i);
            }
        }
        r
    }

    /// The one-rank board set of rank `rk`.
    fn back_rank_mask(rk: usize) -> (m: u64)
        requires
            rk < 8,
        ensures
            forall|t: int| #[trigger] bit(m, t) <==> (0 <= t < 64 && rank_of(t) == rk),
    {
        let mut m: u64 = 0;
        let mut f: usize = 0;
        while f < 8
            invariant
                rk < 8,
                f <= 8,
                forall|t: int| #[trigger] bit(m, t) <==> (0 <= t < 64 && rank_of(t) == rk
                    && file_of(t) < f),
            decreases 8 - f,
        {
            let t = rk * 8 + f;
            proof {
                assert(t == square_at(rk as int, f as int));
            }
            m = crate::bits::set_bit(m, t);
            proof {
                assert forall|u: int| #[trigger] bit(m, u) <==> (0 <= u < 64 && rank_of(u) == rk
                    && file_of(u) < f + 1) by {
                    if 0 <= u < 64 && rank_of(u) == rk && file_of(u) < f + 1 {
                        assert(u == square_at(rank_of(u), file_of(u)));
                    }
                }
            }
            f = f + 1;
        }
        m
    }

    /// Empties the board and resets every flag: no pieces, White to move,
    /// the game ongoing, all castling rights held, clocks reset, and the
    /// history forgotten.
    pub fn clear(&mut self)
        ensures
            final(self).wf(),
            final(self).boards == (PieceBoards {
                white_pawns: 0u64,
                white_knights: 0u64,
                white_bishops: 0u64,
                white_rooks: 0u64,
                white_queens: 0u64,
                white_kings: 0u64,
                black_pawns: 0u64,
                black_knights: 0u64,
                black_bishops: 0u64,
                black_rooks: 0u64,
                black_queens: 0u64,
                black_kings: 0u64,
            }),
            final(self).white_pieces == 0,
            final(self).black_pieces == 0,
            final(self).all_pieces == 0,
            final(self).whites_turn,
            final(self).game_result == GameResult::Ongoing,
            final(self).castling_rights == (CastlingRights {
                white_king: true,
                white_queen: true,
                black_king: true,
                black_queen: true,
            }),
            final(self).halfmove_clock == 0,
            final(self).fullmove == 1,
            !final(self).player_in_check,
            final(self).en_passant_square == 0,
            final(self).positions@.len() == 0,
    {
        self.boards = PieceBoards {
            white_pawns: 0,
            white_knights: 0,
            white_bishops: 0,
            white_rooks: 0,
            white_queens: 0,
            white_kings: 0,
            black_pawns: 0,
            black_knights: 0,
            black_bishops: 0,
            black_rooks: 0,
            black_queens: 0,
            black_kings: 0,
        };
        self.white_pieces = 0;
        self.black_pieces = 0;
        self.all_pieces = 0;
        self.whites_turn = true;
        self.game_result = GameResult::Ongoing;
        self.castling_rights = CastlingRights {
            white_king: true,
            white_queen: true,
            black_king: true,
            black_queen: true,
        };
        self.halfmove_clock = 0;
        self.fullmove = 1;
        self.player_in_check = false;
        self.en_passant_square = 0;
        self.positions = Vec::new();
        proof {
            assert forall|i: int| !(#[trigger] bit(white_union(self.boards), i)) by {}
            crate::bits::lemma_bits_all_zero(white_union(self.boards));
            assert forall|i: int| !(#[trigger] bit(black_union(self.boards), i)) by {}
            crate::bits::lemma_bits_all_zero(black_union(self.boards));
            assert forall|i: int| !(#[trigger] bit(self.white_pieces | self.black_pieces, i))
                by {}
            crate::bits::lemma_bits_all_zero(self.white_pieces | self.black_pieces);
            assert forall|p1: PieceType, p2: PieceType, i: int|
                p1 != p2 && #[trigger] bit(board_of(self.boards, p1), i) implies !(#[trigger] bit(
                board_of(self.boards, p2),
                i,
            )) by {}
        }
        let ghost pre = *self;
        self.rebuild_board_vec();
        proof {
            assert forall|i: int| 0 <= i < 64 implies self.board@[i] == piece_at_spec(
                *self,
                i,
            ) by {
                lemma_piece_at_same(pre, *self, i);
            }
        }
    }

    /// Ends the game at once: White resigns and Black wins.
    pub fn white_surrender(&mut self)
        ensures
            *final(self) == (ChessBoard { game_result: GameResult::Black, ..*old(self) }),
    {
        self.game_result = GameResult::Black;
    }

    /// Ends the game at once: Black resigns and White wins.
    pub fn black_surrender(&mut self)
        ensures
            *final(self) == (ChessBoard { game_result: GameResult::White, ..*old(self) }),
    {
        self.game_result = GameResult::White;
    }

    /// Ends the game at once as an agreed draw.
    pub fn mutual_draw(&mut self)
        ensures
            *final(self) == (ChessBoard { game_result: GameResult::Draw, ..*old(self) }),
    {
        self.game_result = GameResult::Draw;
    }
}

impl Default for ChessBoard {
    /// The empty board with every flag at its initial value.
    fn default() -> (r: ChessBoard)
        ensures
            r.wf(),
            r.all_pieces == 0,
            r.whites_turn,
            r.game_result == GameResult::Ongoing,
            r.halfmove_clock == 0,
            r.fullmove == 1,
            !r.player_in_check,
            r.en_passant_square == 0,
            r.positions@.len() == 0,
    {
        let mut r = ChessBoard {
            boards: PieceBoards {
                white_pawns: 0,
                white_knights: 0,
                white_bishops: 0,
                white_rooks: 0,
                white_queens: 0,
                white_kings: 0,
                black_pawns: 0,
                black_knights: 0,
                black_bishops: 0,
                black_rooks: 0,
                black_queens: 0,
                black_kings: 0,
            },
            white_pieces: 0,
            black_pieces: 0,
            all_pieces: 0,
            whites_turn: true,
            game_result: GameResult::Ongoing,
            castling_rights: CastlingRights {
                white_king: true,
                white_queen: true,
                black_king: true,
                black_queen: true,
            },
            halfmove_clock: 0,
            fullmove: 1,
            player_in_check: false,
            board: Vec::new(),
            en_passant_square: 0,
            positions: Vec::new(),
        };
        proof {
            assert forall|i: int| !(#[trigger] bit(white_union(r.boards), i)) by {}
            crate::bits::lemma_bits_all_zero(white_union(r.boards));
            assert forall|i: int| !(#[trigger] bit(black_union(r.boards), i)) by {}
            crate::bits::lemma_bits_all_zero(black_union(r.boards));
            assert forall|i: int| !(#[trigger] bit(r.white_pieces | r.black_pieces, i))
                by {}
            crate::bits::lemma_bits_all_zero(r.white_pieces | r.black_pieces);
            assert forall|p1: PieceType, p2: PieceType, i: int|
                p1 != p2 && #[trigger] bit(board_of(r.boards, p1), i) implies !(#[trigger] bit(
                board_of(r.boards, p2),
                i,
            )) by {}
        }
        let ghost pre = r;
        r.rebuild_board_vec();
        proof {
            assert forall|i: int| 0 <= i < 64 implies r.board@[i] == piece_at_spec(r, i) by {
                lemma_piece_at_same(pre, r, i);
            }
        }
        r
    }
}


/// An occupied square holds a piece: with the derived boards coherent, the
/// board scan cannot come back empty.
pub proof fn lemma_occupied_piece(c: ChessBoard, i: int)
    requires
        c.wf(),
        bit(c.all_pieces, i),
    ensures
        piece_at_spec(c, i) != PieceType::Empty,
{
    broadcast use crate::bits::group_bit_lemmas;

    assert(bit(white_union(c.boards), i) || bit(black_union(c.boards), i));
}


/// In a well-formed position the two colours never share a square, and the
/// combined occupancy is exactly their union.  Every mutating operation
/// keeps the position well formed, so this holds after any sequence of
/// legal moves.
pub proof fn lemma_colors_disjoint(c: ChessBoard)
    requires
        c.wf(),
    ensures
        c.white_pieces & c.black_pieces == 0,
        c.all_pieces == c.white_pieces | c.black_pieces,
{
    broadcast use crate::bits::group_bit_lemmas;

    assert forall|i: int| 0 <= i < 64 implies !(#[trigger] bit(
        c.white_pieces & c.black_pieces,
        i,
    )) by {
        if bit(c.white_pieces, i) && bit(c.black_pieces, i) {
                assert(bit(board_of(c.boards, PieceType::WhitePawn), i) == bit(c.boards.white_pawns, i));
                assert(bit(board_of(c.boards, PieceType::WhiteKnight), i) == bit(c.boards.white_knights, i));
                assert(bit(board_of(c.boards, PieceType::WhiteBishop), i) == bit(c.boards.white_bishops, i));
                assert(bit(board_of(c.boards, PieceType::WhiteRook), i) == bit(c.boards.white_rooks, i));
                assert(bit(board_of(c.boards, PieceType::WhiteQueen), i) == bit(c.boards.white_queens, i));
                assert(bit(board_of(c.boards, PieceType::WhiteKing), i) == bit(c.boards.white_kings, i));
                assert(bit(board_of(c.boards, PieceType::BlackPawn), i) == bit(c.boards.black_pawns, i));
                assert(bit(board_of(c.boards, PieceType::BlackKnight), i) == bit(c.boards.black_knights, i));
                assert(bit(board_of(c.boards, PieceType::BlackBishop), i) == bit(c.boards.black_bishops, i));
                assert(bit(board_of(c.boards, PieceType::BlackRook), i) == bit(c.boards.black_rooks, i));
                assert(bit(board_of(c.boards, PieceType::BlackQueen), i) == bit(c.boards.black_queens, i));
                assert(bit(board_of(c.boards, PieceType::BlackKing), i) == bit(c.boards.black_kings, i));
            assert(false);
        }
    }
    crate::bits::lemma_bits_all_zero(c.white_pieces & c.black_pieces);
}

} // verus!
