//! Colour symmetry of attack generation: computed from the position with
//! colours and ranks flipped, the attacked squares are exactly the mirror
//! image of the original's, as long as no en passant target is set.

use vstd::prelude::*;

use crate::attacks::{
    bishop_target, black_pawn_step, king_step, knight_step, queen_target, ray_free, ray_on_board,
    ray_square, ray_target, rook_target, white_pawn_step,
};
use crate::bits::bit;
use crate::board::ChessBoard;
use crate::geometry::{file_of, rank_of, square_at};
use crate::threat::{black_attack_from, black_attacks_sq, white_attack_from, white_attacks_sq};

verus! {

broadcast use crate::bits::group_bit_lemmas, crate::geometry::group_square_lemmas;

/// The square with the same file on the rank seen from the other side.
pub open spec fn mirror_sq(i: int) -> int {
    square_at(7 - rank_of(i), file_of(i))
}

/// `d` is `c` with colours and ranks flipped: every board of one colour in
/// `d` holds exactly the mirrored squares of the other colour's board in
/// `c`, and neither position has an en passant target.
pub open spec fn mirrored_positions(c: ChessBoard, d: ChessBoard) -> bool {
    &&& c.en_passant_square == 0
    &&& d.en_passant_square == 0
    &&& forall|i: int|
        0 <= i < 64 ==> {
            &&& (bit(d.boards.black_pawns, #[trigger] mirror_sq(i)) <==> bit(
                c.boards.white_pawns,
                i,
            ))
            &&& (bit(d.boards.black_knights, mirror_sq(i)) <==> bit(c.boards.white_knights, i))
            &&& (bit(d.boards.black_bishops, mirror_sq(i)) <==> bit(c.boards.white_bishops, i))
            &&& (bit(d.boards.black_rooks, mirror_sq(i)) <==> bit(c.boards.white_rooks, i))
            &&& (bit(d.boards.black_queens, mirror_sq(i)) <==> bit(c.boards.white_queens, i))
            &&& (bit(d.boards.black_kings, mirror_sq(i)) <==> bit(c.boards.white_kings, i))
            &&& (bit(d.boards.white_pawns, mirror_sq(i)) <==> bit(c.boards.black_pawns, i))
            &&& (bit(d.boards.white_knights, mirror_sq(i)) <==> bit(c.boards.black_knights, i))
            &&& (bit(d.boards.white_bishops, mirror_sq(i)) <==> bit(c.boards.black_bishops, i))
            &&& (bit(d.boards.white_rooks, mirror_sq(i)) <==> bit(c.boards.black_rooks, i))
            &&& (bit(d.boards.white_queens, mirror_sq(i)) <==> bit(c.boards.black_queens, i))
            &&& (bit(d.boards.white_kings, mirror_sq(i)) <==> bit(c.boards.black_kings, i))
            &&& (bit(d.black_pieces, mirror_sq(i)) <==> bit(c.white_pieces, i))
            &&& (bit(d.white_pieces, mirror_sq(i)) <==> bit(c.black_pieces, i))
        }
}

/// Mirroring stays on the board, flips the rank, keeps the file, and is
/// its own inverse.
pub proof fn lemma_mirror_sq(i: int)
    requires
        0 <= i < 64,
    ensures
        0 <= mirror_sq(i) < 64,
        rank_of(mirror_sq(i)) == 7 - rank_of(i),
        file_of(mirror_sq(i)) == file_of(i),
        mirror_sq(mirror_sq(i)) == i,
{
    assert(i == square_at(rank_of(i), file_of(i)));
}

/// A king step mirrors to a king step.
proof fn lemma_king_step_mirror(s: int, t: int)
    requires
        0 <= s < 64,
        0 <= t < 64,
    ensures
        king_step(s, t) <==> king_step(mirror_sq(s), mirror_sq(t)),
{
    lemma_mirror_sq(s);
    lemma_mirror_sq(t);
}

/// A knight step mirrors to a knight step.
proof fn lemma_knight_step_mirror(s: int, t: int)
    requires
        0 <= s < 64,
        0 <= t < 64,
    ensures
        knight_step(s, t) <==> knight_step(mirror_sq(s), mirror_sq(t)),
{
    lemma_mirror_sq(s);
    lemma_mirror_sq(t);
}

/// A white pawn attack mirrors to a black pawn attack.
proof fn lemma_pawn_step_mirror(s: int, t: int)
    requires
        0 <= s < 64,
        0 <= t < 64,
    ensures
        white_pawn_step(s, t) <==> black_pawn_step(mirror_sq(s), mirror_sq(t)),
{
    lemma_mirror_sq(s);
    lemma_mirror_sq(t);
}

/// One ray step in the mirrored position: the rank delta flips, the
/// squares along the ray mirror.
proof fn lemma_ray_sq_mirror(s: int, dr: int, df: int, k: int)
    requires
        0 <= s < 64,
        -1 <= dr <= 1,
        -1 <= df <= 1,
        1 <= k < 8,
    ensures
        ray_on_board(s, dr, df, k) <==> ray_on_board(mirror_sq(s), -dr, df, k),
        ray_on_board(s, dr, df, k) ==> ray_square(mirror_sq(s), -dr, df, k) == mirror_sq(
            ray_square(s, dr, df, k),
        ),
{
    lemma_mirror_sq(s);
    assert(k * (-dr) == -(k * dr)) by (nonlinear_arith);
    if ray_on_board(s, dr, df, k) {
        let r = rank_of(s) + k * dr;
        let f = file_of(s) + k * df;
        assert(ray_square(s, dr, df, k) == square_at(r, f));
        lemma_mirror_sq(square_at(r, f));
        assert(mirror_sq(square_at(r, f)) == square_at(7 - r, f));
    }
}

/// A ray target in the original is a ray target along the rank-flipped
/// direction from the mirrored square, against the mirrored occupancies.
proof fn lemma_ray_mirror_one(
    s: int,
    dr: int,
    df: int,
    t: int,
    all_c: u64,
    enemy_c: u64,
    all_d: u64,
    enemy_d: u64,
)
    requires
        0 <= s < 64,
        0 <= t < 64,
        -1 <= dr <= 1,
        -1 <= df <= 1,
        forall|i: int| 0 <= i < 64 ==> (bit(all_d, #[trigger] mirror_sq(i)) <==> bit(all_c, i)),
        forall|i: int| 0 <= i < 64 ==> (bit(enemy_d, #[trigger] mirror_sq(i)) <==> bit(
            enemy_c,
            i,
        )),
        ray_target(s, dr, df, t, all_c, enemy_c),
    ensures
        ray_target(mirror_sq(s), -dr, df, mirror_sq(t), all_d, enemy_d),
{
    lemma_mirror_sq(s);
    lemma_mirror_sq(t);
    let k = choose|k: int|
        1 <= k < 8 && #[trigger] ray_on_board(s, dr, df, k) && t == ray_square(s, dr, df, k)
            && ray_free(s, dr, df, k, all_c) && (!bit(all_c, t) || bit(enemy_c, t));
    lemma_ray_sq_mirror(s, dr, df, k);
    assert(ray_on_board(mirror_sq(s), -dr, df, k));
    assert(mirror_sq(t) == ray_square(mirror_sq(s), -dr, df, k));
    assert forall|m: int| 1 <= m < k implies !bit(
        all_d,
        #[trigger] ray_square(mirror_sq(s), -dr, df, m),
    ) by {
        assert(ray_on_board(s, dr, df, m)) by {
            crate::attacks::lemma_ray_prefix_on_board(s, dr, df, k, m);
        }
        lemma_ray_sq_mirror(s, dr, df, m);
        assert(!bit(all_c, ray_square(s, dr, df, m)));
        assert(0 <= ray_square(s, dr, df, m) < 64);
    }
    assert(ray_free(mirror_sq(s), -dr, df, k, all_d));
    assert(!bit(all_d, mirror_sq(t)) || bit(enemy_d, mirror_sq(t)));
}

/// A bishop target mirrors to a bishop target.
proof fn lemma_bishop_mirror_one(t: int, s: int, all_c: u64, enemy_c: u64, all_d: u64, enemy_d: u64)
    requires
        0 <= s < 64,
        0 <= t < 64,
        forall|i: int| 0 <= i < 64 ==> (bit(all_d, #[trigger] mirror_sq(i)) <==> bit(all_c, i)),
        forall|i: int| 0 <= i < 64 ==> (bit(enemy_d, #[trigger] mirror_sq(i)) <==> bit(
            enemy_c,
            i,
        )),
        bishop_target(s, t, all_c, enemy_c),
    ensures
        bishop_target(mirror_sq(s), mirror_sq(t), all_d, enemy_d),
{
    if ray_target(s, 1, 1, t, all_c, enemy_c) {
        lemma_ray_mirror_one(s, 1, 1, t, all_c, enemy_c, all_d, enemy_d);
    } else if ray_target(s, 1, -1, t, all_c, enemy_c) {
        lemma_ray_mirror_one(s, 1, -1, t, all_c, enemy_c, all_d, enemy_d);
    } else if ray_target(s, -1, 1, t, all_c, enemy_c) {
        lemma_ray_mirror_one(s, -1, 1, t, all_c, enemy_c, all_d, enemy_d);
    } else {
        lemma_ray_mirror_one(s, -1, -1, t, all_c, enemy_c, all_d, enemy_d);
    }
}

/// A rook target mirrors to a rook target.
proof fn lemma_rook_mirror_one(t: int, s: int, all_c: u64, enemy_c: u64, all_d: u64, enemy_d: u64)
    requires
        0 <= s < 64,
        0 <= t < 64,
        forall|i: int| 0 <= i < 64 ==> (bit(all_d, #[trigger] mirror_sq(i)) <==> bit(all_c, i)),
        forall|i: int| 0 <= i < 64 ==> (bit(enemy_d, #[trigger] mirror_sq(i)) <==> bit(
            enemy_c,
            i,
        )),
        rook_target(s, t, all_c, enemy_c),
    ensures
        rook_target(mirror_sq(s), mirror_sq(t), all_d, enemy_d),
{
    if ray_target(s, 1, 0, t, all_c, enemy_c) {
        lemma_ray_mirror_one(s, 1, 0, t, all_c, enemy_c, all_d, enemy_d);
    } else if ray_target(s, -1, 0, t, all_c, enemy_c) {
        lemma_ray_mirror_one(s, -1, 0, t, all_c, enemy_c, all_d, enemy_d);
    } else if ray_target(s, 0, 1, t, all_c, enemy_c) {
        lemma_ray_mirror_one(s, 0, 1, t, all_c, enemy_c, all_d, enemy_d);
    } else {
        lemma_ray_mirror_one(s, 0, -1, t, all_c, enemy_c, all_d, enemy_d);
    }
}

/// A white attack from `s` mirrors to a black attack from the mirrored
/// square.
proof fn lemma_attack_from_mirror(c: ChessBoard, d: ChessBoard, s: int, t: int)
    requires
        mirrored_positions(c, d),
        0 <= s < 64,
        0 <= t < 64,
        white_attack_from(c, c.black_pieces, c.white_pieces, s, t),
    ensures
        black_attack_from(d, d.black_pieces, d.white_pieces, mirror_sq(s), mirror_sq(t)),
{
    lemma_mirror_sq(s);
    lemma_mirror_sq(t);
    let all_c = c.black_pieces | c.white_pieces;
    let all_d = d.black_pieces | d.white_pieces;
    assert forall|i: int| 0 <= i < 64 implies (bit(all_d, #[trigger] mirror_sq(i)) <==> bit(
        all_c,
        i,
    )) by {
        lemma_mirror_sq(i);
    }
    if bit(c.white_pieces & c.boards.white_pawns, s) && white_pawn_step(s, t) && bit(
        c.black_pieces | c.en_passant_square,
        t,
    ) {
        lemma_pawn_step_mirror(s, t);
        assert(bit(d.black_pieces & d.boards.black_pawns, mirror_sq(s)));
        assert(bit(d.white_pieces | d.en_passant_square, mirror_sq(t)));
    } else if bit(c.white_pieces & c.boards.white_knights, s) && knight_step(s, t) && !bit(
        c.white_pieces,
        t,
    ) {
        lemma_knight_step_mirror(s, t);
        assert(bit(d.black_pieces & d.boards.black_knights, mirror_sq(s)));
        assert(!bit(d.black_pieces, mirror_sq(t)));
    } else if bit(c.white_pieces & c.boards.white_kings, s) && king_step(s, t) && !bit(
        c.white_pieces,
        t,
    ) {
        lemma_king_step_mirror(s, t);
        assert(bit(d.black_pieces & d.boards.black_kings, mirror_sq(s)));
        assert(!bit(d.black_pieces, mirror_sq(t)));
    } else if bit(c.white_pieces & c.boards.white_bishops, s) && bishop_target(
        s,
        t,
        all_c,
        c.black_pieces,
    ) {
        lemma_bishop_mirror_one(t, s, all_c, c.black_pieces, all_d, d.white_pieces);
        assert(bit(d.black_pieces & d.boards.black_bishops, mirror_sq(s)));
    } else if bit(c.white_pieces & c.boards.white_rooks, s) && rook_target(
        s,
        t,
        all_c,
        c.black_pieces,
    ) {
        lemma_rook_mirror_one(t, s, all_c, c.black_pieces, all_d, d.white_pieces);
        assert(bit(d.black_pieces & d.boards.black_rooks, mirror_sq(s)));
    } else {
        assert(bit(c.white_pieces & c.boards.white_queens, s) && queen_target(
            s,
            t,
            all_c,
            c.black_pieces,
        ));
        if bishop_target(s, t, all_c, c.black_pieces) {
            lemma_bishop_mirror_one(t, s, all_c, c.black_pieces, all_d, d.white_pieces);
        } else {
            lemma_rook_mirror_one(t, s, all_c, c.black_pieces, all_d, d.white_pieces);
        }
        assert(bit(d.black_pieces & d.boards.black_queens, mirror_sq(s)));
    }
}

/// A black attack from `s` in the mirrored position mirrors back to a
/// white attack in the original.
proof fn lemma_attack_from_mirror_back(c: ChessBoard, d: ChessBoard, s: int, t: int)
    requires
        mirrored_positions(c, d),
        0 <= s < 64,
        0 <= t < 64,
        black_attack_from(d, d.black_pieces, d.white_pieces, s, t),
    ensures
        white_attack_from(c, c.black_pieces, c.white_pieces, mirror_sq(s), mirror_sq(t)),
{
    lemma_mirror_sq(s);
    lemma_mirror_sq(t);
    let all_c = c.black_pieces | c.white_pieces;
    let all_d = d.black_pieces | d.white_pieces;
    assert forall|i: int| 0 <= i < 64 implies (bit(all_c, #[trigger] mirror_sq(i)) <==> bit(
        all_d,
        i,
    )) by {
        lemma_mirror_sq(i);
        assert(bit(all_d, mirror_sq(mirror_sq(i))) <==> bit(all_c, mirror_sq(i)));
    }
    assert forall|i: int| 0 <= i < 64 implies {
        &&& (bit(c.boards.white_pawns, #[trigger] mirror_sq(i)) <==> bit(d.boards.black_pawns, i))
        &&& (bit(c.boards.white_knights, mirror_sq(i)) <==> bit(d.boards.black_knights, i))
        &&& (bit(c.boards.white_bishops, mirror_sq(i)) <==> bit(d.boards.black_bishops, i))
        &&& (bit(c.boards.white_rooks, mirror_sq(i)) <==> bit(d.boards.black_rooks, i))
        &&& (bit(c.boards.white_queens, mirror_sq(i)) <==> bit(d.boards.black_queens, i))
        &&& (bit(c.boards.white_kings, mirror_sq(i)) <==> bit(d.boards.black_kings, i))
        &&& (bit(c.white_pieces, mirror_sq(i)) <==> bit(d.black_pieces, i))
        &&& (bit(c.black_pieces, mirror_sq(i)) <==> bit(d.white_pieces, i))
    } by {
        lemma_mirror_sq(i);
        assert(bit(d.boards.black_pawns, mirror_sq(mirror_sq(i))) <==> bit(
            c.boards.white_pawns,
            mirror_sq(i),
        ));
    }
    if bit(d.black_pieces & d.boards.black_pawns, s) && black_pawn_step(s, t) && bit(
        d.white_pieces | d.en_passant_square,
        t,
    ) {
        lemma_pawn_step_mirror(mirror_sq(s), mirror_sq(t));
        assert(bit(c.white_pieces & c.boards.white_pawns, mirror_sq(s)));
        assert(bit(c.black_pieces | c.en_passant_square, mirror_sq(t)));
    } else if bit(d.black_pieces & d.boards.black_knights, s) && knight_step(s, t) && !bit(
        d.black_pieces,
        t,
    ) {
        lemma_knight_step_mirror(mirror_sq(s), mirror_sq(t));
        assert(bit(c.white_pieces & c.boards.white_knights, mirror_sq(s)));
        assert(!bit(c.white_pieces, mirror_sq(t)));
    } else if bit(d.black_pieces & d.boards.black_kings, s) && king_step(s, t) && !bit(
        d.black_pieces,
        t,
    ) {
        lemma_king_step_mirror(mirror_sq(s), mirror_sq(t));
        assert(bit(c.white_pieces & c.boards.white_kings, mirror_sq(s)));
        assert(!bit(c.white_pieces, mirror_sq(t)));
    } else if bit(d.black_pieces & d.boards.black_bishops, s) && bishop_target(
        s,
        t,
        all_d,
        d.white_pieces,
    ) {
        lemma_bishop_mirror_one(t, s, all_d, d.white_pieces, all_c, c.black_pieces);
        assert(bit(c.white_pieces & c.boards.white_bishops, mirror_sq(s)));
    } else if bit(d.black_pieces & d.boards.black_rooks, s) && rook_target(
        s,
        t,
        all_d,
        d.white_pieces,
    ) {
        lemma_rook_mirror_one(t, s, all_d, d.white_pieces, all_c, c.black_pieces);
        assert(bit(c.white_pieces & c.boards.white_rooks, mirror_sq(s)));
    } else {
        assert(bit(d.black_pieces & d.boards.black_queens, s) && queen_target(
            s,
            t,
            all_d,
            d.white_pieces,
        ));
        if bishop_target(s, t, all_d, d.white_pieces) {
            lemma_bishop_mirror_one(t, s, all_d, d.white_pieces, all_c, c.black_pieces);
        } else {
            lemma_rook_mirror_one(t, s, all_d, d.white_pieces, all_c, c.black_pieces);
        }
        assert(bit(c.white_pieces & c.boards.white_queens, mirror_sq(s)));
    }
}

/// In the position with colours and ranks flipped, Black attacks exactly
/// the mirror images of the squares White attacks in the original (and so
/// the side attack boards are mirror images of each other), whenever no en
/// passant target is set.
pub proof fn lemma_side_attacks_mirror(c: ChessBoard, d: ChessBoard, t: int)
    requires
        mirrored_positions(c, d),
        0 <= t < 64,
    ensures
        white_attacks_sq(c, c.black_pieces, c.white_pieces, t) <==> black_attacks_sq(
            d,
            d.black_pieces,
            d.white_pieces,
            mirror_sq(t),
        ),
{
    lemma_mirror_sq(t);
    if white_attacks_sq(c, c.black_pieces, c.white_pieces, t) {
        let s = choose|s: int| #[trigger] white_attack_from(c, c.black_pieces, c.white_pieces, s, t);
        assert(0 <= s < 64) by {
            crate::threat::lemma_attack_from_in_range(c, c.black_pieces, c.white_pieces, s, t);
        }
        lemma_attack_from_mirror(c, d, s, t);
    }
    if black_attacks_sq(d, d.black_pieces, d.white_pieces, mirror_sq(t)) {
        let s = choose|s: int|
            #[trigger] black_attack_from(d, d.black_pieces, d.white_pieces, s, mirror_sq(t));
        assert(0 <= s < 64) by {
            crate::threat::lemma_attack_from_in_range_black(
                d,
                d.black_pieces,
                d.white_pieces,
                s,
                mirror_sq(t),
            );
        }
        lemma_attack_from_mirror_back(c, d, s, mirror_sq(t));
        lemma_mirror_sq(s);
        assert(white_attack_from(c, c.black_pieces, c.white_pieces, mirror_sq(s), t));
    }
}

} // verus!
