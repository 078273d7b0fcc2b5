//! Attack generation: for each piece kind, the set of squares it attacks or
//! can move to, as a pure function of the occupancy bitboards.  Contracts are
//! stated square-by-square over the step predicates below, so that callers
//! can reason about single moves without bit-level arguments.

use vstd::prelude::*;

use crate::bits::{bit, bit_scan, get_bit, is_square_bit, set_bit, square_index};
use crate::geometry::{file_of, on_board, rank_of, square_at};

verus! {

broadcast use crate::bits::group_bit_lemmas, crate::geometry::group_square_lemmas;

/// A king standing on `s` reaches `t`: the squares differ and are at most one
/// rank and one file apart.
pub open spec fn king_step(s: int, t: int) -> bool {
    &&& 0 <= s < 64
    &&& 0 <= t < 64
    &&& s != t
    &&& -1 <= rank_of(t) - rank_of(s) <= 1
    &&& -1 <= file_of(t) - file_of(s) <= 1
}

/// A knight standing on `s` reaches `t`: two ranks and one file apart, or
/// one rank and two files apart.
pub open spec fn knight_step(s: int, t: int) -> bool {
    &&& 0 <= s < 64
    &&& 0 <= t < 64
    &&& {
        let dr = rank_of(t) - rank_of(s);
        let df = file_of(t) - file_of(s);
        ||| ((dr == 2 || dr == -2) && (df == 1 || df == -1))
        ||| ((dr == 1 || dr == -1) && (df == 2 || df == -2))
    }
}

/// A white pawn standing on `s` attacks `t`: one rank up, one file aside.
pub open spec fn white_pawn_step(s: int, t: int) -> bool {
    &&& 0 <= s < 64
    &&& 0 <= t < 64
    &&& rank_of(t) == rank_of(s) + 1
    &&& (file_of(t) == file_of(s) + 1 || file_of(t) == file_of(s) - 1)
}

/// A black pawn standing on `s` attacks `t`: one rank down, one file aside.
pub open spec fn black_pawn_step(s: int, t: int) -> bool {
    &&& 0 <= s < 64
    &&& 0 <= t < 64
    &&& rank_of(t) == rank_of(s) - 1
    &&& (file_of(t) == file_of(s) + 1 || file_of(t) == file_of(s) - 1)
}

/// A white pawn standing on `s` can push to `t` given the occupancy `all`:
/// one step straight up onto an empty square, or two steps from its home
/// rank across two empty squares.
pub open spec fn white_pawn_push(s: int, t: int, all: u64) -> bool {
    &&& 0 <= s < 64
    &&& 0 <= t < 64
    &&& file_of(t) == file_of(s)
    &&& !bit(all, t)
    &&& {
        ||| rank_of(t) == rank_of(s) + 1
        ||| (rank_of(s) == 1 && rank_of(t) == 3 && !bit(all, s + 8))
    }
}

/// A black pawn standing on `s` can push to `t` given the occupancy `all`.
pub open spec fn black_pawn_push(s: int, t: int, all: u64) -> bool {
    &&& 0 <= s < 64
    &&& 0 <= t < 64
    &&& file_of(t) == file_of(s)
    &&& !bit(all, t)
    &&& {
        ||| rank_of(t) == rank_of(s) - 1
        ||| (rank_of(s) == 6 && rank_of(t) == 4 && !bit(all, s - 8))
    }
}

/// The king-step target squares of square `s`.
fn king_targets_from(s: usize) -> (m: u64)
    requires
        s < 64,
    ensures
        forall|t: int| #[trigger] bit(m, t) <==> king_step(s as int, t),
{
    let r = s / 8;
    let f = s % 8;
    let mut m: u64 = 0;
    if r < 7 {
        m = set_bit(m, s + 8);
        proof {
            assert(s + 8 == square_at(r as int + 1, f as int));
        }
    }
    if r > 0 {
        m = set_bit(m, s - 8);
        proof {
            assert(s - 8 == square_at(r as int - 1, f as int));
        }
    }
    if f < 7 {
        m = set_bit(m, s + 1);
        proof {
            assert(s + 1 == square_at(r as int, f as int + 1));
        }
    }
    if f > 0 {
        m = set_bit(m, s - 1);
        proof {
            assert(s - 1 == square_at(r as int, f as int - 1));
        }
    }
    if r < 7 && f < 7 {
        m = set_bit(m, s + 9);
        proof {
            assert(s + 9 == square_at(r as int + 1, f as int + 1));
        }
    }
    if r < 7 && f > 0 {
        m = set_bit(m, s + 7);
        proof {
            assert(s + 7 == square_at(r as int + 1, f as int - 1));
        }
    }
    if r > 0 && f < 7 {
        m = set_bit(m, s - 7);
        proof {
            assert(s - 7 == square_at(r as int - 1, f as int + 1));
        }
    }
    if r > 0 && f > 0 {
        m = set_bit(m, s - 9);
        proof {
            assert(s - 9 == square_at(r as int - 1, f as int - 1));
        }
    }
    proof {
        assert forall|t: int| #[trigger] bit(m, t) <==> king_step(s as int, t) by {
            if king_step(s as int, t) {
                assert(t == square_at(rank_of(t), file_of(t)));
            }
        }
    }
    m
}

/// All squares a king of the given side attacks: every square one king step
/// away from a king of the set, not occupied by an own piece.
#[verifier::rlimit(100)]
#[verifier::spinoff_prover]
pub fn compute_king_attacks(king: u64, own_pieces: u64) -> (r: u64)
    ensures
        forall|t: int| #[trigger] bit(r, t) <==> (!bit(own_pieces, t) && exists|s: int|
            bit(king, s) && #[trigger] king_step(s, t)),
{
    let mut acc: u64 = 0;
    let mut s: usize = 0;
    while s < 64
        invariant
            s <= 64,
            forall|t: int| #[trigger] bit(acc, t) <==> exists|s0: int|
                0 <= s0 < s && bit(king, s0) && #[trigger] king_step(s0, t),
        decreases 64 - s,
    {
        if get_bit(king, s) {
            let targets = king_targets_from(s);
            let next = acc | targets;
            proof {
                assert forall|t: int| #[trigger] bit(next, t) <==> exists|s0: int|
                    0 <= s0 < s + 1 && bit(king, s0) && #[trigger] king_step(s0, t) by {
                    if bit(next, t) {
                        if bit(acc, t) {
                            let s0 = choose|s0: int|
                                0 <= s0 < s && bit(king, s0) && #[trigger] king_step(s0, t);
                            assert(0 <= s0 < s + 1 && bit(king, s0) && king_step(s0, t));
                        } else {
                            assert(bit(targets, t));
                            assert(king_step(s as int, t));
                        }
                    }
                }
            }
            acc = next;
        }
        s = s + 1;
    }
    acc & !own_pieces
}

/// The knight-step target squares of square `s`.
fn knight_targets_from(s: usize) -> (m: u64)
    requires
        s < 64,
    ensures
        forall|t: int| #[trigger] bit(m, t) <==> knight_step(s as int, t),
{
    let r = s / 8;
    let f = s % 8;
    let mut m: u64 = 0;
    if r < 6 && f < 7 {
        m = set_bit(m, s + 17);
        proof {
            assert(s + 17 == square_at(r as int + 2, f as int + 1));
        }
    }
    if r < 6 && f > 0 {
        m = set_bit(m, s + 15);
        proof {
            assert(s + 15 == square_at(r as int + 2, f as int - 1));
        }
    }
    if r > 1 && f < 7 {
        m = set_bit(m, s - 15);
        proof {
            assert(s - 15 == square_at(r as int - 2, f as int + 1));
        }
    }
    if r > 1 && f > 0 {
        m = set_bit(m, s - 17);
        proof {
            assert(s - 17 == square_at(r as int - 2, f as int - 1));
        }
    }
    if r < 7 && f < 6 {
        m = set_bit(m, s + 10);
        proof {
            assert(s + 10 == square_at(r as int + 1, f as int + 2));
        }
    }
    if r < 7 && f > 1 {
        m = set_bit(m, s + 6);
        proof {
            assert(s + 6 == square_at(r as int + 1, f as int - 2));
        }
    }
    if r > 0 && f < 6 {
        m = set_bit(m, s - 6);
        proof {
            assert(s - 6 == square_at(r as int - 1, f as int + 2));
        }
    }
    if r > 0 && f > 1 {
        m = set_bit(m, s - 10);
        proof {
            assert(s - 10 == square_at(r as int - 1, f as int - 2));
        }
    }
    proof {
        assert forall|t: int| #[trigger] bit(m, t) <==> knight_step(s as int, t) by {
            if knight_step(s as int, t) {
                assert(t == square_at(rank_of(t), file_of(t)));
            }
        }
    }
    m
}

/// All squares a knight of the given side attacks: every square one knight
/// step away from a knight of the set, not occupied by an own piece.
#[verifier::rlimit(100)]
#[verifier::spinoff_prover]
pub fn compute_knight_attacks(knight: u64, own_pieces: u64) -> (r: u64)
    ensures
        forall|t: int| #[trigger] bit(r, t) <==> (!bit(own_pieces, t) && exists|s: int|
            bit(knight, s) && #[trigger] knight_step(s, t)),
{
    let mut acc: u64 = 0;
    let mut s: usize = 0;
    while s < 64
        invariant
            s <= 64,
            forall|t: int| #[trigger] bit(acc, t) <==> exists|s0: int|
                0 <= s0 < s && bit(knight, s0) && #[trigger] knight_step(s0, t),
        decreases 64 - s,
    {
        if get_bit(knight, s) {
            let targets = knight_targets_from(s);
            let next = acc | targets;
            proof {
                assert forall|t: int| #[trigger] bit(next, t) <==> exists|s0: int|
                    0 <= s0 < s + 1 && bit(knight, s0) && #[trigger] knight_step(s0, t) by {
                    if bit(next, t) {
                        if bit(acc, t) {
                            let s0 = choose|s0: int|
                                0 <= s0 < s && bit(knight, s0) && #[trigger] knight_step(s0, t);
                            assert(0 <= s0 < s + 1 && bit(knight, s0) && knight_step(s0, t));
                        } else {
                            assert(bit(targets, t));
                            assert(knight_step(s as int, t));
                        }
                    }
                }
            }
            acc = next;
        }
        s = s + 1;
    }
    acc & !own_pieces
}

/// The white-pawn capture squares of square `s`.
fn white_pawn_targets_from(s: usize) -> (m: u64)
    requires
        s < 64,
    ensures
        forall|t: int| #[trigger] bit(m, t) <==> white_pawn_step(s as int, t),
{
    let r = s / 8;
    let f = s % 8;
    let mut m: u64 = 0;
    if r < 7 && f < 7 {
        m = set_bit(m, s + 9);
        proof {
            assert(s + 9 == square_at(r as int + 1, f as int + 1));
        }
    }
    if r < 7 && f > 0 {
        m = set_bit(m, s + 7);
        proof {
            assert(s + 7 == square_at(r as int + 1, f as int - 1));
        }
    }
    proof {
        assert forall|t: int| #[trigger] bit(m, t) <==> white_pawn_step(s as int, t) by {
            if white_pawn_step(s as int, t) {
                assert(t == square_at(rank_of(t), file_of(t)));
            }
        }
    }
    m
}

/// The black-pawn capture squares of square `s`.
fn black_pawn_targets_from(s: usize) -> (m: u64)
    requires
        s < 64,
    ensures
        forall|t: int| #[trigger] bit(m, t) <==> black_pawn_step(s as int, t),
{
    let r = s / 8;
    let f = s % 8;
    let mut m: u64 = 0;
    if r > 0 && f < 7 {
        m = set_bit(m, s - 7);
        proof {
            assert(s - 7 == square_at(r as int - 1, f as int + 1));
        }
    }
    if r > 0 && f > 0 {
        m = set_bit(m, s - 9);
        proof {
            assert(s - 9 == square_at(r as int - 1, f as int - 1));
        }
    }
    proof {
        assert forall|t: int| #[trigger] bit(m, t) <==> black_pawn_step(s as int, t) by {
            if black_pawn_step(s as int, t) {
                assert(t == square_at(rank_of(t), file_of(t)));
            }
        }
    }
    m
}

/// All squares attacked by white pawns of the set: one step up and aside,
/// and only squares held by the enemy (an attack needs a piece to take).
#[verifier::rlimit(100)]
#[verifier::spinoff_prover]
pub fn compute_white_pawn_attacks(white_pawn: u64, black_pieces: u64) -> (r: u64)
    ensures
        forall|t: int| #[trigger] bit(r, t) <==> (bit(black_pieces, t) && exists|s: int|
            bit(white_pawn, s) && #[trigger] white_pawn_step(s, t)),
{
    let mut acc: u64 = 0;
    let mut s: usize = 0;
    while s < 64
        invariant
            s <= 64,
            forall|t: int| #[trigger] bit(acc, t) <==> exists|s0: int|
                0 <= s0 < s && bit(white_pawn, s0) && #[trigger] white_pawn_step(s0, t),
        decreases 64 - s,
    {
        if get_bit(white_pawn, s) {
            let targets = white_pawn_targets_from(s);
            let next = acc | targets;
            proof {
                assert forall|t: int| #[trigger] bit(next, t) <==> exists|s0: int|
                    0 <= s0 < s + 1 && bit(white_pawn, s0) && #[trigger] white_pawn_step(s0, t) by {
                    if bit(next, t) {
                        if bit(acc, t) {
                            let s0 = choose|s0: int|
                                0 <= s0 < s && bit(white_pawn, s0) && #[trigger] white_pawn_step(
                                    s0,
                                    t,
                                );
                            assert(0 <= s0 < s + 1 && bit(white_pawn, s0) && white_pawn_step(
                                s0,
                                t,
                            ));
                        } else {
                            assert(bit(targets, t));
                            assert(white_pawn_step(s as int, t));
                        }
                    }
                }
            }
            acc = next;
        }
        s = s + 1;
    }
    acc & black_pieces
}

/// All squares attacked by black pawns of the set: one step down and aside,
/// and only squares held by the enemy.
#[verifier::rlimit(100)]
#[verifier::spinoff_prover]
pub fn compute_black_pawn_attacks(black_pawn: u64, white_pieces: u64) -> (r: u64)
    ensures
        forall|t: int| #[trigger] bit(r, t) <==> (bit(white_pieces, t) && exists|s: int|
            bit(black_pawn, s) && #[trigger] black_pawn_step(s, t)),
{
    let mut acc: u64 = 0;
    let mut s: usize = 0;
    while s < 64
        invariant
            s <= 64,
            forall|t: int| #[trigger] bit(acc, t) <==> exists|s0: int|
                0 <= s0 < s && bit(black_pawn, s0) && #[trigger] black_pawn_step(s0, t),
        decreases 64 - s,
    {
        if get_bit(black_pawn, s) {
            let targets = black_pawn_targets_from(s);
            let next = acc | targets;
            proof {
                assert forall|t: int| #[trigger] bit(next, t) <==> exists|s0: int|
                    0 <= s0 < s + 1 && bit(black_pawn, s0) && #[trigger] black_pawn_step(s0, t) by {
                    if bit(next, t) {
                        if bit(acc, t) {
                            let s0 = choose|s0: int|
                                0 <= s0 < s && bit(black_pawn, s0) && #[trigger] black_pawn_step(
                                    s0,
                                    t,
                                );
                            assert(0 <= s0 < s + 1 && bit(black_pawn, s0) && black_pawn_step(
                                s0,
                                t,
                            ));
                        } else {
                            assert(bit(targets, t));
                            assert(black_pawn_step(s as int, t));
                        }
                    }
                }
            }
            acc = next;
        }
        s = s + 1;
    }
    acc & white_pieces
}

/// The squares a single white pawn on `s` can move to: pushes onto empty
/// squares, and captures onto enemy-held squares.
fn white_pawn_dests_from(s: usize, all_pieces: u64, enemy: u64) -> (m: u64)
    requires
        s < 64,
    ensures
        forall|t: int| #[trigger] bit(m, t) <==> (white_pawn_push(s as int, t, all_pieces) || (
        white_pawn_step(s as int, t) && bit(enemy, t))),
{
    let r = s / 8;
    let f = s % 8;
    let mut m: u64 = 0;
    if r < 7 && !get_bit(all_pieces, s + 8) {
        m = set_bit(m, s + 8);
        if r == 1 && !get_bit(all_pieces, s + 16) {
            m = set_bit(m, s + 16);
            proof {
                assert(s + 16 == square_at(r as int + 2, f as int));
            }
        }
        proof {
            assert(s + 8 == square_at(r as int + 1, f as int));
        }
    }
    if r < 7 && f < 7 && get_bit(enemy, s + 9) {
        m = set_bit(m, s + 9);
        proof {
            assert(s + 9 == square_at(r as int + 1, f as int + 1));
        }
    }
    if r < 7 && f > 0 && get_bit(enemy, s + 7) {
        m = set_bit(m, s + 7);
        proof {
            assert(s + 7 == square_at(r as int + 1, f as int - 1));
        }
    }
    proof {
        assert forall|t: int|
            #[trigger] bit(m, t) <==> (white_pawn_push(s as int, t, all_pieces) || (white_pawn_step(
                s as int,
                t,
            ) && bit(enemy, t))) by {
            if white_pawn_push(s as int, t, all_pieces) || (white_pawn_step(s as int, t) && bit(
                enemy,
                t,
            )) {
                assert(t == square_at(rank_of(t), file_of(t)));
            }
        }
    }
    m
}

/// The squares a single black pawn on `s` can move to.
fn black_pawn_dests_from(s: usize, all_pieces: u64, enemy: u64) -> (m: u64)
    requires
        s < 64,
    ensures
        forall|t: int| #[trigger] bit(m, t) <==> (black_pawn_push(s as int, t, all_pieces) || (
        black_pawn_step(s as int, t) && bit(enemy, t))),
{
    let r = s / 8;
    let f = s % 8;
    let mut m: u64 = 0;
    if r > 0 && !get_bit(all_pieces, s - 8) {
        m = set_bit(m, s - 8);
        if r == 6 && !get_bit(all_pieces, s - 16) {
            m = set_bit(m, s - 16);
            proof {
                assert(s - 16 == square_at(r as int - 2, f as int));
            }
        }
        proof {
            assert(s - 8 == square_at(r as int - 1, f as int));
        }
    }
    if r > 0 && f < 7 && get_bit(enemy, s - 7) {
        m = set_bit(m, s - 7);
        proof {
            assert(s - 7 == square_at(r as int - 1, f as int + 1));
        }
    }
    if r > 0 && f > 0 && get_bit(enemy, s - 9) {
        m = set_bit(m, s - 9);
        proof {
            assert(s - 9 == square_at(r as int - 1, f as int - 1));
        }
    }
    proof {
        assert forall|t: int|
            #[trigger] bit(m, t) <==> (black_pawn_push(s as int, t, all_pieces) || (black_pawn_step(
                s as int,
                t,
            ) && bit(enemy, t))) by {
            if black_pawn_push(s as int, t, all_pieces) || (black_pawn_step(s as int, t) && bit(
                enemy,
                t,
            )) {
                assert(t == square_at(rank_of(t), file_of(t)));
            }
        }
    }
    m
}

/// The move squares of every white pawn in the set: single and double pushes
/// onto empty squares, plus captures onto squares of `black_pieces` (the
/// caller widens that set with the en passant target when one exists).
#[verifier::rlimit(100)]
#[verifier::spinoff_prover]
pub fn compute_white_pawn_moves(white_pawn: u64, all_pieces: u64, black_pieces: u64) -> (r: u64)
    ensures
        forall|t: int| #[trigger] bit(r, t) <==> exists|s: int|
            bit(white_pawn, s) && (#[trigger] white_pawn_push(s, t, all_pieces) || (white_pawn_step(
                s,
                t,
            ) && bit(black_pieces, t))),
{
    let mut acc: u64 = 0;
    let mut s: usize = 0;
    while s < 64
        invariant
            s <= 64,
            forall|t: int| #[trigger] bit(acc, t) <==> exists|s0: int|
                0 <= s0 < s && bit(white_pawn, s0) && (#[trigger] white_pawn_push(
                    s0,
                    t,
                    all_pieces,
                ) || (white_pawn_step(s0, t) && bit(black_pieces, t))),
        decreases 64 - s,
    {
        if get_bit(white_pawn, s) {
            let targets = white_pawn_dests_from(s, all_pieces, black_pieces);
            let next = acc | targets;
            proof {
                assert forall|t: int| #[trigger] bit(next, t) <==> exists|s0: int|
                    0 <= s0 < s + 1 && bit(white_pawn, s0) && (#[trigger] white_pawn_push(
                        s0,
                        t,
                        all_pieces,
                    ) || (white_pawn_step(s0, t) && bit(black_pieces, t))) by {
                    if bit(next, t) {
                        if bit(acc, t) {
                            let s0 = choose|s0: int|
                                0 <= s0 < s && bit(white_pawn, s0) && (#[trigger] white_pawn_push(
                                    s0,
                                    t,
                                    all_pieces,
                                ) || (white_pawn_step(s0, t) && bit(black_pieces, t)));
                            assert(0 <= s0 < s + 1 && bit(white_pawn, s0) && (white_pawn_push(
                                s0,
                                t,
                                all_pieces,
                            ) || (white_pawn_step(s0, t) && bit(black_pieces, t))));
                        } else {
                            assert(bit(targets, t));
                            assert(white_pawn_push(s as int, t, all_pieces) || (white_pawn_step(
                                s as int,
                                t,
                            ) && bit(black_pieces, t)));
                        }
                    }
                }
            }
            acc = next;
        }
        s = s + 1;
    }
    acc
}

/// The move squares of every black pawn in the set.
#[verifier::rlimit(100)]
#[verifier::spinoff_prover]
pub fn compute_black_pawn_moves(black_pawn: u64, all_pieces: u64, white_pieces: u64) -> (r: u64)
    ensures
        forall|t: int| #[trigger] bit(r, t) <==> exists|s: int|
            bit(black_pawn, s) && (#[trigger] black_pawn_push(s, t, all_pieces) || (black_pawn_step(
                s,
                t,
            ) && bit(white_pieces, t))),
{
    let mut acc: u64 = 0;
    let mut s: usize = 0;
    while s < 64
        invariant
            s <= 64,
            forall|t: int| #[trigger] bit(acc, t) <==> exists|s0: int|
                0 <= s0 < s && bit(black_pawn, s0) && (#[trigger] black_pawn_push(
                    s0,
                    t,
                    all_pieces,
                ) || (black_pawn_step(s0, t) && bit(white_pieces, t))),
        decreases 64 - s,
    {
        if get_bit(black_pawn, s) {
            let targets = black_pawn_dests_from(s, all_pieces, white_pieces);
            let next = acc | targets;
            proof {
                assert forall|t: int| #[trigger] bit(next, t) <==> exists|s0: int|
                    0 <= s0 < s + 1 && bit(black_pawn, s0) && (#[trigger] black_pawn_push(
                        s0,
                        t,
                        all_pieces,
                    ) || (black_pawn_step(s0, t) && bit(white_pieces, t))) by {
                    if bit(next, t) {
                        if bit(acc, t) {
                            let s0 = choose|s0: int|
                                0 <= s0 < s && bit(black_pawn, s0) && (#[trigger] black_pawn_push(
                                    s0,
                                    t,
                                    all_pieces,
                                ) || (black_pawn_step(s0, t) && bit(white_pieces, t)));
                            assert(0 <= s0 < s + 1 && bit(black_pawn, s0) && (black_pawn_push(
                                s0,
                                t,
                                all_pieces,
                            ) || (black_pawn_step(s0, t) && bit(white_pieces, t))));
                        } else {
                            assert(bit(targets, t));
                            assert(black_pawn_push(s as int, t, all_pieces) || (black_pawn_step(
                                s as int,
                                t,
                            ) && bit(white_pieces, t)));
                        }
                    }
                }
            }
            acc = next;
        }
        s = s + 1;
    }
    acc
}

/// The square `k` steps from `s` along direction `(dr, df)` (a rank delta
/// and a file delta per step).
pub open spec fn ray_square(s: int, dr: int, df: int, k: int) -> int {
    square_at(rank_of(s) + k * dr, file_of(s) + k * df)
}

/// That square lies on the board.
pub open spec fn ray_on_board(s: int, dr: int, df: int, k: int) -> bool {
    on_board(rank_of(s) + k * dr, file_of(s) + k * df)
}

/// No piece of `all` stands strictly between `s` and the square `k` steps out.
pub open spec fn ray_free(s: int, dr: int, df: int, k: int, all: u64) -> bool {
    forall|m: int| 1 <= m < k ==> !bit(all, #[trigger] ray_square(s, dr, df, m))
}

/// A slider on `s` attacks `t` along direction `(dr, df)`: `t` lies some
/// steps out on the board, every square between is empty, and `t` itself is
/// empty or holds an enemy piece (a capture); a square held by an own piece
/// ends the ray without being attacked.
pub open spec fn ray_target(s: int, dr: int, df: int, t: int, all: u64, enemy: u64) -> bool {
    exists|k: int|
        1 <= k < 8 && #[trigger] ray_on_board(s, dr, df, k) && t == ray_square(s, dr, df, k)
            && ray_free(s, dr, df, k, all) && (!bit(all, t) || bit(enemy, t))
}

/// A bishop on `s` attacks `t`: a ray target along one of the four diagonals.
pub open spec fn bishop_target(s: int, t: int, all: u64, enemy: u64) -> bool {
    ||| ray_target(s, 1, 1, t, all, enemy)
    ||| ray_target(s, 1, -1, t, all, enemy)
    ||| ray_target(s, -1, 1, t, all, enemy)
    ||| ray_target(s, -1, -1, t, all, enemy)
}

/// A rook on `s` attacks `t`: a ray target along one of the four lines.
pub open spec fn rook_target(s: int, t: int, all: u64, enemy: u64) -> bool {
    ||| ray_target(s, 1, 0, t, all, enemy)
    ||| ray_target(s, -1, 0, t, all, enemy)
    ||| ray_target(s, 0, 1, t, all, enemy)
    ||| ray_target(s, 0, -1, t, all, enemy)
}

/// A queen on `s` attacks `t`: as a bishop or as a rook.
pub open spec fn queen_target(s: int, t: int, all: u64, enemy: u64) -> bool {
    bishop_target(s, t, all, enemy) || rook_target(s, t, all, enemy)
}

/// A product of a step count with a unit direction stays within the count.
proof fn lemma_unit_mul(k: int, d: int)
    requires
        0 <= k,
        -1 <= d <= 1,
    ensures
        -k <= k * d <= k,
        d == 1 ==> k * d == k,
        d == 0 ==> k * d == 0,
        d == -1 ==> k * d == -k,
{
    assert(-k <= k * d <= k && (d == 1 ==> k * d == k) && (d == 0 ==> k * d == 0) && (d == -1
        ==> k * d == -k)) by (nonlinear_arith)
        requires
            0 <= k,
            -1 <= d <= 1,
    ;
}

/// Once a ray has left the board it does not return.
proof fn lemma_ray_stays_off(s: int, dr: int, df: int, k: int, j: int)
    requires
        0 <= s < 64,
        -1 <= dr <= 1,
        -1 <= df <= 1,
        1 <= k <= j,
        !ray_on_board(s, dr, df, k),
    ensures
        !ray_on_board(s, dr, df, j),
{
    lemma_unit_mul(k, dr);
    lemma_unit_mul(k, df);
    lemma_unit_mul(j, dr);
    lemma_unit_mul(j, df);
}


/// Every square of a ray before one that is on the board is itself on the
/// board.
pub proof fn lemma_ray_prefix_on_board(s: int, dr: int, df: int, k: int, m: int)
    requires
        0 <= s < 64,
        -1 <= dr <= 1,
        -1 <= df <= 1,
        1 <= m <= k,
        ray_on_board(s, dr, df, k),
    ensures
        ray_on_board(s, dr, df, m),
{
    lemma_unit_mul(k, dr);
    lemma_unit_mul(k, df);
    lemma_unit_mul(m, dr);
    lemma_unit_mul(m, df);
}

/// Walks one ray from `s` and collects the attacked squares.
#[verifier::loop_isolation(false)]
#[verifier::rlimit(60)]
fn ray_attacks_from(s: usize, dr: i32, df: i32, all_pieces: u64, enemy_pieces: u64) -> (m: u64)
    requires
        s < 64,
        -1 <= dr <= 1,
        -1 <= df <= 1,
        !(dr == 0 && df == 0),
    ensures
        forall|t: int| #[trigger] bit(m, t) <==> ray_target(
            s as int,
            dr as int,
            df as int,
            t,
            all_pieces,
            enemy_pieces,
        ),
{
    let ghost si: int = s as int;
    let ghost dri: int = dr as int;
    let ghost dfi: int = df as int;
    let r0: i32 = (s / 8) as i32;
    let f0: i32 = (s % 8) as i32;
    let mut m: u64 = 0;
    let mut k: i32 = 1;
    let mut rr: i32 = r0 + dr;
    let mut ff: i32 = f0 + df;
    proof {
        lemma_unit_mul(1, dri);
        lemma_unit_mul(1, dfi);
    }
    while k < 8
        invariant
            1 <= k <= 8,
            r0 == rank_of(si),
            f0 == file_of(si),
            rr == r0 + k * dr,
            ff == f0 + k * df,
            -8 <= rr <= 15,
            -8 <= ff <= 15,
            forall|j: int|
                #![trigger ray_square(si, dri, dfi, j)]
                1 <= j < k ==> ray_on_board(si, dri, dfi, j) && !bit(
                    all_pieces,
                    ray_square(si, dri, dfi, j),
                ),
            forall|t: int| #[trigger] bit(m, t) <==> exists|j: int|
                1 <= j < k && #[trigger] ray_on_board(si, dri, dfi, j) && t == ray_square(
                    si,
                    dri,
                    dfi,
                    j,
                ),
        decreases 8 - k,
    {
        if !(0 <= rr && rr < 8 && 0 <= ff && ff < 8) {
            proof {
                assert(!ray_on_board(si, dri, dfi, k as int));
                assert forall|t: int| #[trigger] bit(m, t) <==> ray_target(
                    si,
                    dri,
                    dfi,
                    t,
                    all_pieces,
                    enemy_pieces,
                ) by {
                    if bit(m, t) {
                        let j = choose|j: int|
                            1 <= j < k && #[trigger] ray_on_board(si, dri, dfi, j) && t
                                == ray_square(si, dri, dfi, j);
                        assert(ray_free(si, dri, dfi, j, all_pieces));
                        assert(!bit(all_pieces, ray_square(si, dri, dfi, j)));
                        assert(ray_target(si, dri, dfi, t, all_pieces, enemy_pieces));
                    }
                    if ray_target(si, dri, dfi, t, all_pieces, enemy_pieces) {
                        let j = choose|j: int|
                            1 <= j < 8 && #[trigger] ray_on_board(si, dri, dfi, j) && t
                                == ray_square(si, dri, dfi, j) && ray_free(si, dri, dfi, j,
                            all_pieces) && (!bit(all_pieces, t) || bit(enemy_pieces, t));
                        if j >= k {
                            lemma_ray_stays_off(si, dri, dfi, k as int, j);
                            assert(false);
                        }
                        assert(bit(m, t));
                    }
                }
            }
            return m;
        }
        let t: usize = (rr * 8 + ff) as usize;
        proof {
            assert(t == square_at(rr as int, ff as int));
            assert(ray_on_board(si, dri, dfi, k as int));
            assert(t == ray_square(si, dri, dfi, k as int));
            assert(ray_free(si, dri, dfi, k as int, all_pieces));
        }
        if get_bit(all_pieces, t) {
            if get_bit(enemy_pieces, t) {
                m = set_bit(m, t);
            }
            proof {
                assert forall|u: int| #[trigger] bit(m, u) <==> ray_target(
                    si,
                    dri,
                    dfi,
                    u,
                    all_pieces,
                    enemy_pieces,
                ) by {
                    if bit(m, u) {
                        if u == t as int {
                            assert(bit(enemy_pieces, u));
                            assert(ray_target(si, dri, dfi, u, all_pieces, enemy_pieces));
                        } else {
                            let j = choose|j: int|
                                1 <= j < k && #[trigger] ray_on_board(si, dri, dfi, j) && u
                                    == ray_square(si, dri, dfi, j);
                            assert(ray_free(si, dri, dfi, j, all_pieces));
                            assert(!bit(all_pieces, ray_square(si, dri, dfi, j)));
                            assert(ray_target(si, dri, dfi, u, all_pieces, enemy_pieces));
                        }
                    }
                    if ray_target(si, dri, dfi, u, all_pieces, enemy_pieces) {
                        let j = choose|j: int|
                            1 <= j < 8 && #[trigger] ray_on_board(si, dri, dfi, j) && u
                                == ray_square(si, dri, dfi, j) && ray_free(si, dri, dfi, j,
                            all_pieces) && (!bit(all_pieces, u) || bit(enemy_pieces, u));
                        if j > k {
                            assert(bit(all_pieces, ray_square(si, dri, dfi, k as int)));
                            assert(!ray_free(si, dri, dfi, j, all_pieces));
                            assert(false);
                        } else if j == k {
                            assert(u == t as int);
                            assert(bit(all_pieces, u));
                            assert(bit(enemy_pieces, u));
                            assert(bit(m, u));
                        } else {
                            assert(bit(m, u));
                        }
                    }
                }
            }
            return m;
        }
        m = set_bit(m, t);
        proof {
            assert forall|u: int| #[trigger] bit(m, u) <==> exists|j: int|
                1 <= j < k + 1 && #[trigger] ray_on_board(si, dri, dfi, j) && u == ray_square(
                    si,
                    dri,
                    dfi,
                    j,
                ) by {
                if bit(m, u) {
                    if u != t as int {
                        let j = choose|j: int|
                            1 <= j < k && #[trigger] ray_on_board(si, dri, dfi, j) && u
                                == ray_square(si, dri, dfi, j);
                        assert(1 <= j < k + 1 && ray_on_board(si, dri, dfi, j) && u == ray_square(
                            si,
                            dri,
                            dfi,
                            j,
                        ));
                    } else {
                        assert(1 <= k < k + 1 && ray_on_board(si, dri, dfi, k as int) && u
                            == ray_square(si, dri, dfi, k as int));
                    }
                }
            }
            lemma_unit_mul(k + 1, dri);
            lemma_unit_mul(k + 1, dfi);
            assert((k + 1) * dri == k * dri + dri && (k + 1) * dfi == k * dfi + dfi)
                by (nonlinear_arith);
        }
        k = k + 1;
        rr = rr + dr;
        ff = ff + df;
    }
    proof {
        assert forall|t: int| #[trigger] bit(m, t) <==> ray_target(
            si,
            dri,
            dfi,
            t,
            all_pieces,
            enemy_pieces,
        ) by {
            if bit(m, t) {
                let j = choose|j: int|
                    1 <= j < k && #[trigger] ray_on_board(si, dri, dfi, j) && t == ray_square(
                        si,
                        dri,
                        dfi,
                        j,
                    );
                assert(ray_free(si, dri, dfi, j, all_pieces));
                assert(!bit(all_pieces, ray_square(si, dri, dfi, j)));
                assert(ray_target(si, dri, dfi, t, all_pieces, enemy_pieces));
            }
        }
    }
    m
}

/// All squares a bishop of the one-square set `bishop` could take or move
/// to, walking the four diagonals until blocked (a square held by an own
/// piece blocks without being attacked; one held by the enemy is attacked
/// and blocks).
pub fn compute_bishop_attacks(bishop: u64, all_pieces: u64, enemy_pieces: u64) -> (r: u64)
    requires
        is_square_bit(bishop),
    ensures
        forall|t: int| #[trigger] bit(r, t) <==> bishop_target(
            square_index(bishop),
            t,
            all_pieces,
            enemy_pieces,
        ),
{
    let square = bit_scan(bishop);
    proof {
        assert(bit(bishop, square_index(bishop)));
    }
    let a = ray_attacks_from(square, 1, 1, all_pieces, enemy_pieces);
    let b = ray_attacks_from(square, 1, -1, all_pieces, enemy_pieces);
    let c = ray_attacks_from(square, -1, 1, all_pieces, enemy_pieces);
    let d = ray_attacks_from(square, -1, -1, all_pieces, enemy_pieces);
    a | b | c | d
}

/// All squares a rook of the one-square set `rook` could take or move to,
/// walking the four lines until blocked.
pub fn compute_rook_attacks(rook: u64, all_pieces: u64, enemy_pieces: u64) -> (r: u64)
    requires
        is_square_bit(rook),
    ensures
        forall|t: int| #[trigger] bit(r, t) <==> rook_target(
            square_index(rook),
            t,
            all_pieces,
            enemy_pieces,
        ),
{
    let square = bit_scan(rook);
    proof {
        assert(bit(rook, square_index(rook)));
    }
    let a = ray_attacks_from(square, 1, 0, all_pieces, enemy_pieces);
    let b = ray_attacks_from(square, -1, 0, all_pieces, enemy_pieces);
    let c = ray_attacks_from(square, 0, 1, all_pieces, enemy_pieces);
    let d = ray_attacks_from(square, 0, -1, all_pieces, enemy_pieces);
    a | b | c | d
}

} // verus!
