//! Loading a position from its textual description: six space-separated
//! fields (piece placement, side to move, castling rights, en passant
//! target, halfmove clock, fullmove number).  The placement and the fields
//! that matter are validated; a malformed description is rejected and the
//! position left untouched.

use vstd::prelude::*;

use crate::bits::bit;
use crate::board::{board_of, piece_at_spec, ChessBoard, PieceBoards, PieceType};
use crate::geometry::{file_of, rank_of, square_at};

verus! {

broadcast use crate::bits::group_bit_lemmas, crate::geometry::group_square_lemmas;

/// Why a position description was rejected.
#[derive(Debug, PartialEq, Eq, Structural, Copy, Clone)]
pub enum FenError {
    /// The placement field is not eight ranks of eight squares each.
    MalformedPlacement,
    /// The side-to-move field is neither `w` nor `b`.
    MalformedTurn,
    /// The castling field holds a character other than `K`, `Q`, `k`, `q`,
    /// `-`.
    MalformedCastling,
    /// The en passant field is neither `-` nor a valid square.
    MalformedEnPassant,
}

/// `s` split at every occurrence of `sep`; always at least one field.
pub open spec fn split_on(s: Seq<char>, sep: char) -> Seq<Seq<char>>
    decreases s.len(),
{
    if s.len() == 0 {
        seq![Seq::<char>::empty()]
    } else {
        let r = split_on(s.drop_last(), sep);
        if s.last() == sep {
            r.push(Seq::<char>::empty())
        } else {
            r.update(r.len() - 1, r.last().push(s.last()))
        }
    }
}

pub proof fn lemma_split_len(s: Seq<char>, sep: char)
    ensures
        split_on(s, sep).len() >= 1,
    decreases s.len(),
{
    if s.len() > 0 {
        lemma_split_len(s.drop_last(), sep);
    }
}

/// The piece letters of the placement field.
pub open spec fn is_piece_char(c: char) -> bool {
    ||| c == 'p'
    ||| c == 'n'
    ||| c == 'b'
    ||| c == 'r'
    ||| c == 'q'
    ||| c == 'k'
    ||| c == 'P'
    ||| c == 'N'
    ||| c == 'B'
    ||| c == 'R'
    ||| c == 'Q'
    ||| c == 'K'
}

/// The piece a placement letter stands for (lowercase black, uppercase
/// white).
pub open spec fn piece_of_char(c: char) -> PieceType {
    if c == 'p' {
        PieceType::BlackPawn
    } else if c == 'n' {
        PieceType::BlackKnight
    } else if c == 'b' {
        PieceType::BlackBishop
    } else if c == 'r' {
        PieceType::BlackRook
    } else if c == 'q' {
        PieceType::BlackQueen
    } else if c == 'k' {
        PieceType::BlackKing
    } else if c == 'P' {
        PieceType::WhitePawn
    } else if c == 'N' {
        PieceType::WhiteKnight
    } else if c == 'B' {
        PieceType::WhiteBishop
    } else if c == 'R' {
        PieceType::WhiteRook
    } else if c == 'Q' {
        PieceType::WhiteQueen
    } else {
        PieceType::WhiteKing
    }
}

/// A run of empty squares.
pub open spec fn empty_run(n: int) -> Seq<PieceType> {
    Seq::new(n as nat, |k: int| PieceType::Empty)
}

/// One placement rank expanded to its squares, file by file: a piece
/// letter is one square, a digit that many empty squares, anything else is
/// malformed.
pub open spec fn row_expand(row: Seq<char>) -> Option<Seq<PieceType>>
    decreases row.len(),
{
    if row.len() == 0 {
        Some(Seq::<PieceType>::empty())
    } else {
        match row_expand(row.drop_last()) {
            Option::None => None,
            Option::Some(r) => {
                let c = row.last();
                if is_piece_char(c) {
                    Some(r.push(piece_of_char(c)))
                } else if '1' <= c <= '8' {
                    Some(r + empty_run(c as int - '0' as int))
                } else {
                    None
                }
            },
        }
    }
}

/// One placement rank as exactly eight squares: a short rank leaves its
/// remaining squares empty, and a rank that runs over eight squares is
/// accepted only when the excess is empty squares.
pub open spec fn row_squares(row: Seq<char>) -> Option<Seq<PieceType>> {
    match row_expand(row) {
        Option::None => None,
        Option::Some(e) => {
            if e.len() <= 8 {
                Some(e + empty_run(8 - e.len()))
            } else if forall|k: int| 8 <= k < e.len() ==> #[trigger] e[k] == PieceType::Empty {
                Some(e.take(8))
            } else {
                None
            }
        },
    }
}

/// The placement field is well formed: eight `/`-separated ranks, each
/// yielding eight squares.
pub open spec fn placement_ok(field: Seq<char>) -> bool {
    let rows = split_on(field, '/');
    &&& rows.len() == 8
    &&& forall|y: int| 0 <= y < 8 ==> (#[trigger] row_squares(rows[y])) is Some
}

/// The piece the placement field puts on square `i` (the first rank given
/// is rank 8, the last rank 1).
pub open spec fn placement_piece(field: Seq<char>, i: int) -> PieceType {
    let rows = split_on(field, '/');
    row_squares(rows[7 - rank_of(i)])->0[file_of(i)]
}

/// Splits a character list at every separator.
fn split_chars(v: &Vec<char>, sep: char) -> (fields: Vec<Vec<char>>)
    ensures
        fields@.len() == split_on(v@, sep).len(),
        forall|k: int| 0 <= k < fields@.len() ==> #[trigger] fields@[k]@ == split_on(v@, sep)[k],
{
    let mut done: Vec<Vec<char>> = Vec::new();
    let mut cur: Vec<char> = Vec::new();
    let mut i: usize = 0;
    proof {
        assert(split_on(v@.take(0), sep) =~~= done@.map_values(|x: Vec<char>| x@).push(cur@));
    }
    while i < v.len()
        invariant
            i <= v@.len(),
            split_on(v@.take(i as int), sep) =~~= done@.map_values(|x: Vec<char>| x@).push(cur@),
        decreases v@.len() - i,
    {
        let c = v[i];
        proof {
            assert(v@.take(i + 1).drop_last() =~= v@.take(i as int));
            assert(v@.take(i + 1).last() == v@[i as int]);
        }
        if c == sep {
            done.push(cur);
            cur = Vec::new();
            proof {
                assert(split_on(v@.take(i + 1), sep) =~~= done@.map_values(
                    |x: Vec<char>| x@,
                ).push(cur@));
            }
        } else {
            cur.push(c);
            proof {
                lemma_split_len(v@.take(i as int), sep);
                assert(split_on(v@.take(i + 1), sep) =~~= done@.map_values(
                    |x: Vec<char>| x@,
                ).push(cur@));
            }
        }
        i = i + 1;
    }
    proof {
        assert(v@.take(v@.len() as int) =~= v@);
    }
    done.push(cur);
    let fields = done;
    proof {
        assert(fields@.map_values(|x: Vec<char>| x@) =~~= split_on(v@, sep));
        assert forall|k: int| 0 <= k < fields@.len() implies #[trigger] fields@[k]@ == split_on(
            v@,
            sep,
        )[k] by {
            assert(fields@.map_values(|x: Vec<char>| x@)[k] == fields@[k]@);
        }
    }
    fields
}

/// Expands one placement rank to its eight squares, or reports it
/// malformed.
fn parse_row(row: &Vec<char>) -> (r: Option<Vec<PieceType>>)
    ensures
        r is Some <==> row_squares(row@) is Some,
        r is Some ==> r->0@.len() == 8 && r->0@ == row_squares(row@)->0,
{
    let mut out: Vec<PieceType> = Vec::new();
    let mut j: usize = 0;
    proof {
        assert(row@.take(0) =~= Seq::<char>::empty());
    }
    while j < row.len()
        invariant
            j <= row@.len(),
            row_expand(row@.take(j as int)) is Some,
            out@ == row_expand(row@.take(j as int))->0,
        decreases row@.len() - j,
    {
        let c = row[j];
        proof {
            assert(row@.take(j + 1).drop_last() =~= row@.take(j as int));
            assert(row@.take(j + 1).last() == row@[j as int]);
        }
        if c == 'p' {
            out.push(PieceType::BlackPawn);
        } else if c == 'n' {
            out.push(PieceType::BlackKnight);
        } else if c == 'b' {
            out.push(PieceType::BlackBishop);
        } else if c == 'r' {
            out.push(PieceType::BlackRook);
        } else if c == 'q' {
            out.push(PieceType::BlackQueen);
        } else if c == 'k' {
            out.push(PieceType::BlackKing);
        } else if c == 'P' {
            out.push(PieceType::WhitePawn);
        } else if c == 'N' {
            out.push(PieceType::WhiteKnight);
        } else if c == 'B' {
            out.push(PieceType::WhiteBishop);
        } else if c == 'R' {
            out.push(PieceType::WhiteRook);
        } else if c == 'Q' {
            out.push(PieceType::WhiteQueen);
        } else if c == 'K' {
            out.push(PieceType::WhiteKing);
        } else if '1' <= c && c <= '8' {
            let n = (c as u32 - '0' as u32) as usize;
            let ghost base = out@;
            let mut k: usize = 0;
            while k < n
                invariant
                    k <= n,
                    out@ == base + empty_run(k as int),
                decreases n - k,
            {
                out.push(PieceType::Empty);
                proof {
                    assert(out@ =~= base + empty_run(k + 1));
                }
                k = k + 1;
            }
            proof {
                assert(out@ == row_expand(row@.take(j + 1))->0);
            }
        } else {
            proof {
                assert(row_expand(row@.take(j + 1)) is None);
                lemma_row_expand_none(row@, j + 1);
            }
            return None;
        }
        j = j + 1;
    }
    proof {
        assert(row@.take(row@.len() as int) =~= row@);
    }
    let ghost expanded = row_expand(row@)->0;
    if out.len() <= 8 {
        let ghost base = out@;
        let mut k: usize = 0;
        let pad = 8 - out.len();
        while k < pad
            invariant
                k <= pad,
                pad == 8 - base.len(),
                base.len() <= 8,
                row_expand(row@) is Some,
                base == row_expand(row@)->0,
                out@ == base + empty_run(k as int),
            decreases pad - k,
        {
            out.push(PieceType::Empty);
            proof {
                assert(out@ =~= base + empty_run(k + 1));
            }
            k = k + 1;
        }
        proof {
            assert(out@ =~= expanded + empty_run(8 - expanded.len()));
        }
        Some(out)
    } else {
        let mut k: usize = 8;
        while k < out.len()
            invariant
                8 <= k <= out@.len(),
                row_expand(row@) is Some,
                expanded == row_expand(row@)->0,
                expanded.len() > 8,
                out@ == expanded,
                forall|m: int| 8 <= m < k ==> #[trigger] expanded[m] == PieceType::Empty,
            decreases out@.len() - k,
        {
            let p = out[k];
            if !(p == PieceType::Empty) {
                proof {
                    assert(expanded[k as int] != PieceType::Empty);
                }
                return None;
            }
            k = k + 1;
        }
        out.truncate(8);
        proof {
            assert(out@ =~= expanded.take(8));
        }
        Some(out)
    }
}

/// A malformed prefix makes the whole rank malformed.
proof fn lemma_row_expand_none(row: Seq<char>, n: int)
    requires
        0 <= n <= row.len(),
        row_expand(row.take(n)) is None,
    ensures
        row_expand(row) is None,
    decreases row.len() - n,
{
    if n < row.len() {
        assert(row.take(n + 1).drop_last() =~= row.take(n));
        lemma_row_expand_none(row, n + 1);
    } else {
        assert(row.take(n) =~= row);
    }
}

/// The 64 squares described by a well-formed placement field, a1 first.
fn squares_from_placement(field: &Vec<char>) -> (r: Option<Vec<PieceType>>)
    ensures
        r is Some <==> placement_ok(field@),
        r is Some ==> r->0@.len() == 64 && forall|i: int|
            0 <= i < 64 ==> #[trigger] r->0@[i] == placement_piece(field@, i),
{
    let rows = split_chars(field, '/');
    if rows.len() != 8 {
        return None;
    }
    let mut squares: Vec<PieceType> = Vec::new();
    let mut k: usize = 0;
    while k < 8
        invariant
            k <= 8,
            rows@.len() == 8,
            forall|m: int| 0 <= m < rows@.len() ==> #[trigger] rows@[m]@ == split_on(
                field@,
                '/',
            )[m],
            squares@.len() == 8 * k,
            forall|y: int|
                0 <= y < k ==> (#[trigger] row_squares(split_on(field@, '/')[7 - y])) is Some,
            forall|i: int|
                0 <= i < 8 * k ==> #[trigger] squares@[i] == row_squares(
                    split_on(field@, '/')[7 - rank_of(i)],
                )->0[file_of(i)],
        decreases 8 - k,
    {
        let row = &rows[7 - k];
        let parsed = parse_row(row);
        match parsed {
            None => {
                return None;
            },
            Some(pieces) => {
                let mut x: usize = 0;
                while x < 8
                    invariant
                        x <= 8,
                        k < 8,
                        pieces@.len() == 8,
                        pieces@ == row_squares(split_on(field@, '/')[7 - k as int])->0,
                        row_squares(split_on(field@, '/')[7 - k as int]) is Some,
                        squares@.len() == 8 * k + x,
                        forall|i: int|
                            0 <= i < 8 * k + x ==> #[trigger] squares@[i] == row_squares(
                                split_on(field@, '/')[7 - rank_of(i)],
                            )->0[file_of(i)],
                    decreases 8 - x,
                {
                    squares.push(pieces[x]);
                    proof {
                        let i = 8 * (k as int) + x;
                        assert(i == square_at(k as int, x as int));
                        assert(rank_of(i) == k as int && file_of(i) == x as int);
                    }
                    x = x + 1;
                }
            },
        }
        k = k + 1;
    }
    proof {
        assert forall|y: int|
            0 <= y < 8 implies (#[trigger] row_squares(split_on(field@, '/')[y])) is Some by {
            assert(row_squares(split_on(field@, '/')[7 - (7 - y)]) is Some);
        }
    }
    Some(squares)
}

/// The piece boards holding exactly the given squares.
#[verifier::rlimit(100)]
#[verifier::spinoff_prover]
fn boards_from_squares(squares: &Vec<PieceType>) -> (b: PieceBoards)
    requires
        squares@.len() == 64,
    ensures
        forall|p: PieceType, i: int|
            #![trigger bit(board_of(b, p), i)]
            0 <= i < 64 ==> (bit(board_of(b, p), i) <==> (squares@[i] == p && p
                != PieceType::Empty)),
{
    let mut b = PieceBoards {
        white_pawns: 0,
        white_knights: 0,
        white_bishops: 0,
        white_rooks: 0,
        white_queens: 0,
        white_kings: 0,
        black_pawns: 0,
        black_knights: 0,
        black_bishops: 0,
        black_rooks: 0,
        black_queens: 0,
        black_kings: 0,
    };
    let mut i: usize = 0;
    while i < 64
        invariant
            i <= 64,
            squares@.len() == 64,
            forall|p: PieceType, j: int|
                #![trigger bit(board_of(b, p), j)]
                0 <= j < 64 ==> (bit(board_of(b, p), j) <==> (j < i && squares@[j] == p && p
                    != PieceType::Empty)),
        decreases 64 - i,
    {
        let ghost prev = b;
        match squares[i] {
            PieceType::WhitePawn => {
                b.white_pawns = crate::bits::set_bit(b.white_pawns, i);
                proof {
                    assert forall|p: PieceType, j: int| 0 <= j < 64 implies (#[trigger] bit(
                        board_of(b, p),
                        j,
                    ) <==> (j < i + 1 && squares@[j] == p && p != PieceType::Empty)) by {
                        assert(bit(board_of(prev, p), j) <==> (j < i && squares@[j] == p && p
                            != PieceType::Empty));
                    }
                }
            },
            PieceType::WhiteKnight => {
                b.white_knights = crate::bits::set_bit(b.white_knights, i);
                proof {
                    assert forall|p: PieceType, j: int| 0 <= j < 64 implies (#[trigger] bit(
                        board_of(b, p),
                        j,
                    ) <==> (j < i + 1 && squares@[j] == p && p != PieceType::Empty)) by {
                        assert(bit(board_of(prev, p), j) <==> (j < i && squares@[j] == p && p
                            != PieceType::Empty));
                    }
                }
            },
            PieceType::WhiteBishop => {
                b.white_bishops = crate::bits::set_bit(b.white_bishops, i);
                proof {
                    assert forall|p: PieceType, j: int| 0 <= j < 64 implies (#[trigger] bit(
                        board_of(b, p),
                        j,
                    ) <==> (j < i + 1 && squares@[j] == p && p != PieceType::Empty)) by {
                        assert(bit(board_of(prev, p), j) <==> (j < i && squares@[j] == p && p
                            != PieceType::Empty));
                    }
                }
            },
            PieceType::WhiteRook => {
                b.white_rooks = crate::bits::set_bit(b.white_rooks, i);
                proof {
                    assert forall|p: PieceType, j: int| 0 <= j < 64 implies (#[trigger] bit(
                        board_of(b, p),
                        j,
                    ) <==> (j < i + 1 && squares@[j] == p && p != PieceType::Empty)) by {
                        assert(bit(board_of(prev, p), j) <==> (j < i && squares@[j] == p && p
                            != PieceType::Empty));
                    }
                }
            },
            PieceType::WhiteQueen => {
                b.white_queens = crate::bits::set_bit(b.white_queens, i);
                proof {
                    assert forall|p: PieceType, j: int| 0 <= j < 64 implies (#[trigger] bit(
                        board_of(b, p),
                        j,
                    ) <==> (j < i + 1 && squares@[j] == p && p != PieceType::Empty)) by {
                        assert(bit(board_of(prev, p), j) <==> (j < i && squares@[j] == p && p
                            != PieceType::Empty));
                    }
                }
            },
            PieceType::WhiteKing => {
                b.white_kings = crate::bits::set_bit(b.white_kings, i);
                proof {
                    assert forall|p: PieceType, j: int| 0 <= j < 64 implies (#[trigger] bit(
                        board_of(b, p),
                        j,
                    ) <==> (j < i + 1 && squares@[j] == p && p != PieceType::Empty)) by {
                        assert(bit(board_of(prev, p), j) <==> (j < i && squares@[j] == p && p
                            != PieceType::Empty));
                    }
                }
            },
            PieceType::BlackPawn => {
                b.black_pawns = crate::bits::set_bit(b.black_pawns, i);
                proof {
                    assert forall|p: PieceType, j: int| 0 <= j < 64 implies (#[trigger] bit(
                        board_of(b, p),
                        j,
                    ) <==> (j < i + 1 && squares@[j] == p && p != PieceType::Empty)) by {
                        assert(bit(board_of(prev, p), j) <==> (j < i && squares@[j] == p && p
                            != PieceType::Empty));
                    }
                }
            },
            PieceType::BlackKnight => {
                b.black_knights = crate::bits::set_bit(b.black_knights, i);
                proof {
                    assert forall|p: PieceType, j: int| 0 <= j < 64 implies (#[trigger] bit(
                        board_of(b, p),
                        j,
                    ) <==> (j < i + 1 && squares@[j] == p && p != PieceType::Empty)) by {
                        assert(bit(board_of(prev, p), j) <==> (j < i && squares@[j] == p && p
                            != PieceType::Empty));
                    }
                }
            },
            PieceType::BlackBishop => {
                b.black_bishops = crate::bits::set_bit(b.black_bishops, i);
                proof {
                    assert forall|p: PieceType, j: int| 0 <= j < 64 implies (#[trigger] bit(
                        board_of(b, p),
                        j,
                    ) <==> (j < i + 1 && squares@[j] == p && p != PieceType::Empty)) by {
                        assert(bit(board_of(prev, p), j) <==> (j < i && squares@[j] == p && p
                            != PieceType::Empty));
                    }
                }
            },
            PieceType::BlackRook => {
                b.black_rooks = crate::bits::set_bit(b.black_rooks, i);
                proof {
                    assert forall|p: PieceType, j: int| 0 <= j < 64 implies (#[trigger] bit(
                        board_of(b, p),
                        j,
                    ) <==> (j < i + 1 && squares@[j] == p && p != PieceType::Empty)) by {
                        assert(bit(board_of(prev, p), j) <==> (j < i && squares@[j] == p && p
                            != PieceType::Empty));
                    }
                }
            },
            PieceType::BlackQueen => {
                b.black_queens = crate::bits::set_bit(b.black_queens, i);
                proof {
                    assert forall|p: PieceType, j: int| 0 <= j < 64 implies (#[trigger] bit(
                        board_of(b, p),
                        j,
                    ) <==> (j < i + 1 && squares@[j] == p && p != PieceType::Empty)) by {
                        assert(bit(board_of(prev, p), j) <==> (j < i && squares@[j] == p && p
                            != PieceType::Empty));
                    }
                }
            },
            PieceType::BlackKing => {
                b.black_kings = crate::bits::set_bit(b.black_kings, i);
                proof {
                    assert forall|p: PieceType, j: int| 0 <= j < 64 implies (#[trigger] bit(
                        board_of(b, p),
                        j,
                    ) <==> (j < i + 1 && squares@[j] == p && p != PieceType::Empty)) by {
                        assert(bit(board_of(prev, p), j) <==> (j < i && squares@[j] == p && p
                            != PieceType::Empty));
                    }
                }
            },
            PieceType::Empty => {
                proof {
                    assert forall|p: PieceType, j: int| 0 <= j < 64 implies (#[trigger] bit(
                        board_of(b, p),
                        j,
                    ) <==> (j < i + 1 && squares@[j] == p && p != PieceType::Empty)) by {
                        assert(bit(board_of(prev, p), j) <==> (j < i && squares@[j] == p && p
                            != PieceType::Empty));
                    }
                }
            },
        }
        i = i + 1;
    }
    b
}


/// The file index of a file letter, case-insensitive; -1 for any other
/// character.
pub open spec fn file_char_index(c: char) -> int {
    if c == 'a' || c == 'A' {
        0
    } else if c == 'b' || c == 'B' {
        1
    } else if c == 'c' || c == 'C' {
        2
    } else if c == 'd' || c == 'D' {
        3
    } else if c == 'e' || c == 'E' {
        4
    } else if c == 'f' || c == 'F' {
        5
    } else if c == 'g' || c == 'G' {
        6
    } else if c == 'h' || c == 'H' {
        7
    } else {
        -1
    }
}

/// The square a two-character notation names (file letter then rank
/// digit), or 64 for anything else.
pub open spec fn square_of_notation(s: Seq<char>) -> int {
    if s.len() == 2 && file_char_index(s[0]) >= 0 && '1' <= s[1] <= '8' {
        8 * (s[1] as int - '1' as int) + file_char_index(s[0])
    } else {
        64
    }
}

/// A decimal digit.
pub open spec fn is_digit(c: char) -> bool {
    '0' <= c <= '9'
}

/// Every character is a decimal digit.
pub open spec fn all_digits(s: Seq<char>) -> bool {
    forall|k: int| 0 <= k < s.len() ==> is_digit(#[trigger] s[k])
}

/// The value of a digit string.
pub open spec fn digits_val(s: Seq<char>) -> int
    decreases s.len(),
{
    if s.len() == 0 {
        0
    } else {
        10 * digits_val(s.drop_last()) + (s.last() as int - '0' as int)
    }
}

/// A clock field's value: one to nine decimal digits; anything else is a
/// parse failure.
pub open spec fn clock_of(s: Seq<char>) -> Option<int> {
    if 1 <= s.len() <= 9 && all_digits(s) {
        Some(digits_val(s))
    } else {
        None
    }
}

spec fn ten_pow(n: int) -> int
    decreases n,
{
    if n <= 0 {
        1
    } else {
        10 * ten_pow(n - 1)
    }
}

/// The characters of a string, in order.
fn chars_of(s: &str) -> (v: Vec<char>)
    ensures
        v@ == s@,
{
    let n = s.unicode_len();
    let mut v: Vec<char> = Vec::new();
    let mut i: usize = 0;
    while i < n
        invariant
            i <= n,
            n == s@.len(),
            v@ =~= s@.take(i as int),
        decreases n - i,
    {
        let c = s.get_char(i);
        v.push(c);
        proof {
            assert(v@ =~= s@.take(i + 1));
        }
        i = i + 1;
    }
    proof {
        assert(s@.take(n as int) =~= s@);
    }
    v
}

/// The square index named by a field, or 64.
fn square_of_field(v: &Vec<char>) -> (r: usize)
    ensures
        r == square_of_notation(v@),
{
    if v.len() != 2 {
        return 64;
    }
    let c0 = v[0];
    let c1 = v[1];
    let file: i32 = if c0 == 'a' || c0 == 'A' {
        0
    } else if c0 == 'b' || c0 == 'B' {
        1
    } else if c0 == 'c' || c0 == 'C' {
        2
    } else if c0 == 'd' || c0 == 'D' {
        3
    } else if c0 == 'e' || c0 == 'E' {
        4
    } else if c0 == 'f' || c0 == 'F' {
        5
    } else if c0 == 'g' || c0 == 'G' {
        6
    } else if c0 == 'h' || c0 == 'H' {
        7
    } else {
        -1
    };
    if file < 0 {
        return 64;
    }
    if !('1' <= c1 && c1 <= '8') {
        return 64;
    }
    let rank: u32 = c1 as u32 - '1' as u32;
    (8 * rank as usize) + (file as usize)
}

/// Parses a clock field: one to nine decimal digits.
fn parse_clock(v: &Vec<char>) -> (r: Option<i32>)
    ensures
        r is Some <==> clock_of(v@) is Some,
        r is Some ==> r->0 == clock_of(v@)->0 && r->0 >= 0,
{
    if v.len() < 1 || v.len() > 9 {
        return None;
    }
    proof {
        assert(ten_pow(0) == 1);
        assert(ten_pow(1) == 10);
        assert(ten_pow(2) == 100);
        assert(ten_pow(3) == 1000);
        assert(ten_pow(4) == 10000);
        assert(ten_pow(5) == 100000);
        assert(ten_pow(6) == 1000000);
        assert(ten_pow(7) == 10000000);
        assert(ten_pow(8) == 100000000);
        assert(ten_pow(9) == 1000000000);
    }
    let mut acc: i32 = 0;
    let mut j: usize = 0;
    while j < v.len()
        invariant
            j <= v@.len(),
            1 <= v@.len() <= 9,
            all_digits(v@.take(j as int)),
            acc == digits_val(v@.take(j as int)),
            0 <= acc,
            acc <= ten_pow(j as int) - 1,
            forall|n: int| 0 <= n <= 9 ==> #[trigger] ten_pow(n) <= 1000000000,
        decreases v@.len() - j,
    {
        let c = v[j];
        if !('0' <= c && c <= '9') {
            proof {
                assert(!is_digit(v@[j as int]));
            }
            return None;
        }
        let d: i32 = (c as u32 - '0' as u32) as i32;
        proof {
            assert(v@.take(j + 1).drop_last() =~= v@.take(j as int));
            assert(v@.take(j + 1).last() == v@[j as int]);
            assert(ten_pow(j + 1) == 10 * ten_pow(j as int));
        }
        acc = 10 * acc + d;
        j = j + 1;
    }
    proof {
        assert(v@.take(v@.len() as int) =~= v@);
    }
    Some(acc)
}

/// Converts two-character board notation (file letter a-h, case
/// insensitive, then rank digit 1-8) to a square index; 64 for anything
/// else.
pub fn string_to_square(s: String) -> (r: usize)
    ensures
        r == square_of_notation(s@),
{
    let v = chars_of(s.as_str());
    square_of_field(&v)
}


/// The side-to-move field is valid: missing, `w`, or `b`.
pub open spec fn turn_ok(fields: Seq<Seq<char>>) -> bool {
    ||| fields.len() < 2
    ||| fields[1] == seq!['w']
    ||| fields[1] == seq!['b']
}

/// The castling field is valid: missing, or made of `K`, `Q`, `k`, `q`,
/// `-` only.
pub open spec fn castling_ok(fields: Seq<Seq<char>>) -> bool {
    ||| fields.len() < 3
    ||| forall|k: int|
        0 <= k < fields[2].len() ==> {
            let c = #[trigger] fields[2][k];
            c == 'K' || c == 'Q' || c == 'k' || c == 'q' || c == '-'
        }
}

/// The en passant field is valid: missing, `-`, or a square.
pub open spec fn ep_ok(fields: Seq<Seq<char>>) -> bool {
    ||| fields.len() < 4
    ||| fields[3] == seq!['-']
    ||| square_of_notation(fields[3]) != 64
}

/// A castling right is granted only when its letter is present and its
/// king and rook still stand on their home squares.
pub open spec fn loaded_rights(fields: Seq<Seq<char>>) -> crate::board::CastlingRights {
    let pf = fields[0];
    crate::board::CastlingRights {
        white_king: fields.len() >= 3 && fields[2].contains('K') && placement_piece(pf, 4)
            == PieceType::WhiteKing && placement_piece(pf, 7) == PieceType::WhiteRook,
        white_queen: fields.len() >= 3 && fields[2].contains('Q') && placement_piece(pf, 4)
            == PieceType::WhiteKing && placement_piece(pf, 0) == PieceType::WhiteRook,
        black_king: fields.len() >= 3 && fields[2].contains('k') && placement_piece(pf, 60)
            == PieceType::BlackKing && placement_piece(pf, 63) == PieceType::BlackRook,
        black_queen: fields.len() >= 3 && fields[2].contains('q') && placement_piece(pf, 60)
            == PieceType::BlackKing && placement_piece(pf, 56) == PieceType::BlackRook,
    }
}

/// The loaded en passant target as a one-square set.
pub open spec fn loaded_ep(fields: Seq<Seq<char>>) -> u64 {
    if fields.len() >= 4 && square_of_notation(fields[3]) != 64 {
        crate::bits::square_bit_spec(square_of_notation(fields[3]))
    } else {
        0u64
    }
}

/// The loaded halfmove clock, 0 when missing or unparsable.
pub open spec fn loaded_halfmove(fields: Seq<Seq<char>>) -> int {
    if fields.len() >= 5 && clock_of(fields[4]) is Some {
        clock_of(fields[4])->0
    } else {
        0
    }
}

/// The loaded fullmove number, with 1 as its floor.
pub open spec fn loaded_fullmove(fields: Seq<Seq<char>>) -> int {
    if fields.len() >= 6 && clock_of(fields[5]) is Some && clock_of(fields[5])->0 >= 1 {
        clock_of(fields[5])->0
    } else {
        1
    }
}

/// Everything a successful load establishes, in terms of the description's
/// fields.
pub open spec fn loaded_state(c: ChessBoard, fields: Seq<Seq<char>>) -> bool {
    &&& forall|i: int| 0 <= i < 64 ==> #[trigger] piece_at_spec(c, i) == placement_piece(
        fields[0],
        i,
    )
    &&& c.whites_turn == !(fields.len() >= 2 && fields[1] == seq!['b'])
    &&& c.castling_rights == loaded_rights(fields)
    &&& c.en_passant_square == loaded_ep(fields)
    &&& c.halfmove_clock == loaded_halfmove(fields)
    &&& c.fullmove == loaded_fullmove(fields)
    &&& c.game_result == crate::play::game_result_eval(c, crate::board::GameResult::Ongoing)
    &&& c.player_in_check == (if c.whites_turn {
        crate::threat::white_checked(c, c.black_pieces, c.white_pieces, c.boards.white_kings)
    } else {
        crate::threat::black_checked(c, c.black_pieces, c.white_pieces, c.boards.black_kings)
    })
    &&& c.positions@ == seq![crate::play::snapshot_of(c, c.whites_turn)]
}

proof fn lemma_contains_step(s: Seq<char>, j: int, x: char)
    requires
        0 <= j < s.len(),
    ensures
        s.take(j + 1).contains(x) <==> (s.take(j).contains(x) || s[j] == x),
{
    if s.take(j + 1).contains(x) {
        let n = choose|n: int| 0 <= n < s.take(j + 1).len() && (#[trigger] s.take(j + 1)[n]) == x;
        if n < j {
            assert(s.take(j)[n] == x);
        }
    }
    if s.take(j).contains(x) {
        let n = choose|n: int| 0 <= n < s.take(j).len() && (#[trigger] s.take(j)[n]) == x;
        assert(s.take(j + 1)[n] == x);
    }
    if s[j] == x {
        assert(s.take(j + 1)[j] == x);
    }
}

impl ChessBoard {
    /// Loads a position description.  On any malformed field the position
    /// is left untouched and the first offending field is reported;
    /// otherwise the whole state is rebuilt from the description, terminal
    /// conditions are evaluated, and the position is recorded as the first
    /// history entry.
    #[verifier::rlimit(100)]
    #[verifier::spinoff_prover]
    #[verifier::loop_isolation(false)]
    pub fn load(&mut self, fen: String) -> (r: Result<(), FenError>)
        requires
            old(self).wf(),
        ensures
            final(self).wf(),
            ({
                let fields = split_on(fen@, ' ');
                &&& (r is Err ==> *final(self) == *old(self))
                &&& ((r == Err::<(), FenError>(FenError::MalformedPlacement)) <==> !placement_ok(
                    fields[0],
                ))
                &&& ((r == Err::<(), FenError>(FenError::MalformedTurn)) <==> (placement_ok(
                    fields[0],
                ) && !turn_ok(fields)))
                &&& ((r == Err::<(), FenError>(FenError::MalformedCastling)) <==> (placement_ok(
                    fields[0],
                ) && turn_ok(fields) && !castling_ok(fields)))
                &&& ((r == Err::<(), FenError>(FenError::MalformedEnPassant)) <==> (placement_ok(
                    fields[0],
                ) && turn_ok(fields) && castling_ok(fields) && !ep_ok(fields)))
                &&& (r is Ok <==> (placement_ok(fields[0]) && turn_ok(fields) && castling_ok(
                    fields,
                ) && ep_ok(fields)))
                &&& (r is Ok ==> loaded_state(*final(self), fields))
            }),
    {
        let chars = chars_of(fen.as_str());
        let fields = split_chars(&chars, ' ');
        proof {
            lemma_split_len(fen@, ' ');
        }
        let squares = match squares_from_placement(&fields[0]) {
            None => {
                return Err(FenError::MalformedPlacement);
            },
            Some(sq) => sq,
        };
        let mut whites_turn: bool = true;
        if fields.len() >= 2 {
            let f = &fields[1];
            if f.len() == 1 && f[0] == 'w' {
                proof {
                    assert(f@ =~= seq!['w']);
                }
            } else if f.len() == 1 && f[0] == 'b' {
                whites_turn = false;
                proof {
                    assert(f@ =~= seq!['b']);
                }
            } else {
                proof {
                    assert(f@ != seq!['w'] && f@ != seq!['b']) by {
                        if f@ == seq!['w'] {
                            assert(f@.len() == 1 && f@[0] == 'w');
                        }
                        if f@ == seq!['b'] {
                            assert(f@.len() == 1 && f@[0] == 'b');
                        }
                    }
                }
                return Err(FenError::MalformedTurn);
            }
        }
        let mut has_upper_k: bool = false;
        let mut has_upper_q: bool = false;
        let mut has_lower_k: bool = false;
        let mut has_lower_q: bool = false;
        if fields.len() >= 3 {
            let f = &fields[2];
            let mut j: usize = 0;
            while j < f.len()
                invariant
                    j <= f@.len(),
                    forall|k: int|
                        0 <= k < j ==> {
                            let c = #[trigger] f@[k];
                            c == 'K' || c == 'Q' || c == 'k' || c == 'q' || c == '-'
                        },
                    has_upper_k == f@.take(j as int).contains('K'),
                    has_upper_q == f@.take(j as int).contains('Q'),
                    has_lower_k == f@.take(j as int).contains('k'),
                    has_lower_q == f@.take(j as int).contains('q'),
                decreases f@.len() - j,
            {
                let c = f[j];
                proof {
                    lemma_contains_step(f@, j as int, 'K');
                    lemma_contains_step(f@, j as int, 'Q');
                    lemma_contains_step(f@, j as int, 'k');
                    lemma_contains_step(f@, j as int, 'q');
                }
                if c == 'K' {
                    has_upper_k = true;
                } else if c == 'Q' {
                    has_upper_q = true;
                } else if c == 'k' {
                    has_lower_k = true;
                } else if c == 'q' {
                    has_lower_q = true;
                } else if c == '-' {
                } else {
                    return Err(FenError::MalformedCastling);
                }
                j = j + 1;
            }
            proof {
                assert(f@.take(f@.len() as int) =~= f@);
            }
        }
        let mut ep: u64 = 0;
        if fields.len() >= 4 {
            let f = &fields[3];
            let sq = square_of_field(f);
            if sq != 64 {
                ep = crate::bits::square_bit(sq);
            } else if !(f.len() == 1 && f[0] == '-') {
                proof {
                    assert(f@ != seq!['-']) by {
                        if f@ == seq!['-'] {
                            assert(f@.len() == 1 && f@[0] == '-');
                        }
                    }
                }
                return Err(FenError::MalformedEnPassant);
            } else {
                proof {
                    assert(f@ =~= seq!['-']);
                }
            }
        }
        let mut halfmove: i32 = 0;
        if fields.len() >= 5 {
            match parse_clock(&fields[4]) {
                Some(v) => {
                    halfmove = v;
                },
                None => {},
            }
        }
        let mut fullmove: i32 = 1;
        if fields.len() >= 6 {
            match parse_clock(&fields[5]) {
                Some(v) => {
                    if v >= 1 {
                        fullmove = v;
                    }
                },
                None => {},
            }
        }
        // Every field is valid: rebuild the state.
        let boards = boards_from_squares(&squares);
        self.boards = boards;
        self.whites_turn = whites_turn;
        self.game_result = crate::board::GameResult::Ongoing;
        self.castling_rights = crate::board::CastlingRights {
            white_king: has_upper_k && squares[4] == PieceType::WhiteKing && squares[7]
                == PieceType::WhiteRook,
            white_queen: has_upper_q && squares[4] == PieceType::WhiteKing && squares[0]
                == PieceType::WhiteRook,
            black_king: has_lower_k && squares[60] == PieceType::BlackKing && squares[63]
                == PieceType::BlackRook,
            black_queen: has_lower_q && squares[60] == PieceType::BlackKing && squares[56]
                == PieceType::BlackRook,
        };
        self.halfmove_clock = halfmove;
        self.fullmove = fullmove;
        self.player_in_check = false;
        self.en_passant_square = ep;
        self.positions = Vec::new();
        proof {
            assert forall|p1: PieceType, p2: PieceType, i: int|
                p1 != p2 && #[trigger] bit(board_of(self.boards, p1), i) implies !(#[trigger] bit(
                board_of(self.boards, p2),
                i,
            )) by {}
            assert forall|i: int| 0 <= i < 64 implies #[trigger] piece_at_spec(
                ChessBoard {
                    white_pieces: crate::board::white_union(self.boards),
                    black_pieces: crate::board::black_union(self.boards),
                    all_pieces: crate::board::white_union(self.boards) | crate::board::black_union(
                        self.boards,
                    ),
                    ..*self
                },
                i,
            ) == squares@[i] by {
                assert(bit(board_of(self.boards, PieceType::WhitePawn), i) <==> squares@[i]
                    == PieceType::WhitePawn);
                assert(bit(board_of(self.boards, PieceType::WhiteKnight), i) <==> squares@[i]
                    == PieceType::WhiteKnight);
                assert(bit(board_of(self.boards, PieceType::WhiteBishop), i) <==> squares@[i]
                    == PieceType::WhiteBishop);
                assert(bit(board_of(self.boards, PieceType::WhiteRook), i) <==> squares@[i]
                    == PieceType::WhiteRook);
                assert(bit(board_of(self.boards, PieceType::WhiteQueen), i) <==> squares@[i]
                    == PieceType::WhiteQueen);
                assert(bit(board_of(self.boards, PieceType::WhiteKing), i) <==> squares@[i]
                    == PieceType::WhiteKing);
                assert(bit(board_of(self.boards, PieceType::BlackPawn), i) <==> squares@[i]
                    == PieceType::BlackPawn);
                assert(bit(board_of(self.boards, PieceType::BlackKnight), i) <==> squares@[i]
                    == PieceType::BlackKnight);
                assert(bit(board_of(self.boards, PieceType::BlackBishop), i) <==> squares@[i]
                    == PieceType::BlackBishop);
                assert(bit(board_of(self.boards, PieceType::BlackRook), i) <==> squares@[i]
                    == PieceType::BlackRook);
                assert(bit(board_of(self.boards, PieceType::BlackQueen), i) <==> squares@[i]
                    == PieceType::BlackQueen);
                assert(bit(board_of(self.boards, PieceType::BlackKing), i) <==> squares@[i]
                    == PieceType::BlackKing);
            }
        }
        let ghost committed = *self;
        self.update_board();
        let ghost after_ub = *self;
        self.store_position(whites_turn);
        let ghost after_sp = *self;
        let in_check: bool = if self.whites_turn {
            self.white_in_check(None, None)
        } else {
            self.black_in_check(None, None)
        };
        self.player_in_check = in_check;
        proof {
            let post = *self;
            crate::play::lemma_snapshot_frame(after_ub, post, whites_turn);
            crate::moves::lemma_legality_frame(after_ub, post);
            crate::moves::lemma_legality_frame(after_sp, post);
            assert forall|i: int| 0 <= i < 64 implies post.board@[i] == piece_at_spec(
                post,
                i,
            ) by {
                crate::board::lemma_piece_at_same(after_ub, post, i);
            }
            assert forall|i: int| 0 <= i < 64 implies #[trigger] piece_at_spec(post, i)
                == placement_piece(split_on(fen@, ' ')[0], i) by {
                crate::board::lemma_piece_at_same(
                    ChessBoard {
                        white_pieces: crate::board::white_union(committed.boards),
                        black_pieces: crate::board::black_union(committed.boards),
                        all_pieces: crate::board::white_union(committed.boards)
                            | crate::board::black_union(committed.boards),
                        ..committed
                    },
                    post,
                    i,
                );
            }
        }
        Ok(())
    }

    /// Puts the game back to the standard starting position, with the
    /// start recorded as the first history entry.
    pub fn reset(&mut self)
        ensures
            final(self).wf(),
            forall|i: int| 0 <= i < 64 ==> #[trigger] piece_at_spec(*final(self), i)
                == crate::board::starting_piece(i),
            final(self).whites_turn,
            final(self).game_result == crate::board::GameResult::Ongoing,
            final(self).castling_rights == (crate::board::CastlingRights {
                white_king: true,
                white_queen: true,
                black_king: true,
                black_queen: true,
            }),
            final(self).halfmove_clock == 0,
            final(self).fullmove == 1,
            !final(self).player_in_check,
            final(self).en_passant_square == 0,
            final(self).positions@ =~= seq![
                crate::play::snapshot_of(*final(self), true),
            ],
    {
        let fresh = ChessBoard::new();
        *self = fresh;
        let ghost before = *self;
        self.store_position(true);
        proof {
            crate::play::lemma_snapshot_frame(before, *self, true);
            assert forall|i: int| 0 <= i < 64 implies #[trigger] piece_at_spec(*self, i)
                == crate::board::starting_piece(i) by {
                crate::board::lemma_piece_at_same(before, *self, i);
            }
            assert forall|i: int| 0 <= i < 64 implies self.board@[i] == piece_at_spec(
                *self,
                i,
            ) by {
                crate::board::lemma_piece_at_same(before, *self, i);
            }
        }
    }
}

} // verus!
