//! Side attacks and check detection.  Both accept replacement occupancy
//! boards so that move legality can be probed against hypothetical
//! positions without mutating the real one.

use vstd::prelude::*;

use crate::attacks::{
    bishop_target, compute_black_pawn_attacks, compute_king_attacks, compute_knight_attacks,
    compute_white_pawn_attacks, king_step, knight_step, queen_target, rook_target,
    black_pawn_step, white_pawn_step,
};
use crate::bits::{bit, get_bit, overlaps, square_bit};
use crate::board::ChessBoard;

verus! {

broadcast use crate::bits::group_bit_lemmas, crate::geometry::group_square_lemmas;

/// The value of an optional replacement board, or the default.
pub open spec fn or_default(o: Option<u64>, d: u64) -> u64 {
    match o {
        Option::Some(v) => v,
        Option::None => d,
    }
}

/// A white piece of `c` standing on `s` attacks `t`, with white occupancy
/// replaced by `wp` and black occupancy by `bp`.  Pawns attack only squares
/// the enemy holds (the en passant target counting as held); knights and
/// kings do not attack squares their own side holds; sliders walk rays of
/// the combined occupancy.
pub open spec fn white_attack_from(c: ChessBoard, bp: u64, wp: u64, s: int, t: int) -> bool {
    let all = bp | wp;
    ||| (bit(wp & c.boards.white_pawns, s) && white_pawn_step(s, t) && bit(
        bp | c.en_passant_square,
        t,
    ))
    ||| (bit(wp & c.boards.white_knights, s) && knight_step(s, t) && !bit(wp, t))
    ||| (bit(wp & c.boards.white_kings, s) && king_step(s, t) && !bit(wp, t))
    ||| (bit(wp & c.boards.white_bishops, s) && bishop_target(s, t, all, bp))
    ||| (bit(wp & c.boards.white_rooks, s) && rook_target(s, t, all, bp))
    ||| (bit(wp & c.boards.white_queens, s) && queen_target(s, t, all, bp))
}

/// Some white piece attacks `t` under the given occupancies.
pub open spec fn white_attacks_sq(c: ChessBoard, bp: u64, wp: u64, t: int) -> bool {
    exists|s: int| #[trigger] white_attack_from(c, bp, wp, s, t)
}

/// A black piece of `c` standing on `s` attacks `t` under the given
/// occupancies.
pub open spec fn black_attack_from(c: ChessBoard, bp: u64, wp: u64, s: int, t: int) -> bool {
    let all = bp | wp;
    ||| (bit(bp & c.boards.black_pawns, s) && black_pawn_step(s, t) && bit(
        wp | c.en_passant_square,
        t,
    ))
    ||| (bit(bp & c.boards.black_knights, s) && knight_step(s, t) && !bit(bp, t))
    ||| (bit(bp & c.boards.black_kings, s) && king_step(s, t) && !bit(bp, t))
    ||| (bit(bp & c.boards.black_bishops, s) && bishop_target(s, t, all, wp))
    ||| (bit(bp & c.boards.black_rooks, s) && rook_target(s, t, all, wp))
    ||| (bit(bp & c.boards.black_queens, s) && queen_target(s, t, all, wp))
}

/// Some black piece attacks `t` under the given occupancies.
pub open spec fn black_attacks_sq(c: ChessBoard, bp: u64, wp: u64, t: int) -> bool {
    exists|s: int| #[trigger] black_attack_from(c, bp, wp, s, t)
}

/// A white king of the set `wk` stands on a square black attacks.
pub open spec fn white_checked(c: ChessBoard, bp: u64, wp: u64, wk: u64) -> bool {
    exists|t: int| bit(wk, t) && #[trigger] black_attacks_sq(c, bp, wp, t)
}

/// A black king of the set `bk` stands on a square white attacks.
pub open spec fn black_checked(c: ChessBoard, bp: u64, wp: u64, bk: u64) -> bool {
    exists|t: int| bit(bk, t) && #[trigger] white_attacks_sq(c, bp, wp, t)
}

impl ChessBoard {

    /// The attack squares of the white sliders standing on `i`.
    fn white_sliders_at(&self, i: usize, bp: u64, wp: u64) -> (add: u64)
        requires
            i < 64,
            bit(wp, i as int),
        ensures
            forall|t: int| #[trigger] bit(add, t) <==> white_slider_from(
                *self,
                bp,
                wp,
                i as int,
                t,
            ),
    {
        let all = bp | wp;
        let sq = square_bit(i);
        let mut add: u64 = 0;
        if get_bit(self.boards.white_bishops, i) {
            add = add | crate::attacks::compute_bishop_attacks(sq, all, bp);
        }
        if get_bit(self.boards.white_rooks, i) {
            add = add | crate::attacks::compute_rook_attacks(sq, all, bp);
        }
        if get_bit(self.boards.white_queens, i) {
            add = add | crate::attacks::compute_bishop_attacks(sq, all, bp);
            add = add | crate::attacks::compute_rook_attacks(sq, all, bp);
        }
        add
    }

    /// The attack squares of the black sliders standing on `i`.
    fn black_sliders_at(&self, i: usize, bp: u64, wp: u64) -> (add: u64)
        requires
            i < 64,
            bit(bp, i as int),
        ensures
            forall|t: int| #[trigger] bit(add, t) <==> black_slider_from(
                *self,
                bp,
                wp,
                i as int,
                t,
            ),
    {
        let all = bp | wp;
        let sq = square_bit(i);
        let mut add: u64 = 0;
        if get_bit(self.boards.black_bishops, i) {
            add = add | crate::attacks::compute_bishop_attacks(sq, all, wp);
        }
        if get_bit(self.boards.black_rooks, i) {
            add = add | crate::attacks::compute_rook_attacks(sq, all, wp);
        }
        if get_bit(self.boards.black_queens, i) {
            add = add | crate::attacks::compute_bishop_attacks(sq, all, wp);
            add = add | crate::attacks::compute_rook_attacks(sq, all, wp);
        }
        add
    }

    /// Every square attacked by White, computed from the replacement
    /// occupancies when given, else from the real ones.
    #[verifier::rlimit(100)]
    #[verifier::spinoff_prover]
    pub fn compute_white_attacks(
        &self,
        black_pieces_option: Option<u64>,
        white_pieces_option: Option<u64>,
    ) -> (r: u64)
        ensures
            forall|t: int| #[trigger] bit(r, t) <==> white_attacks_sq(
                *self,
                or_default(black_pieces_option, self.black_pieces),
                or_default(white_pieces_option, self.white_pieces),
                t,
            ),
    {
        let bp = match black_pieces_option {
            Some(v) => v,
            None => self.black_pieces,
        };
        let wp = match white_pieces_option {
            Some(v) => v,
            None => self.white_pieces,
        };
        let all = bp | wp;
        let pawn_att = compute_white_pawn_attacks(
            wp & self.boards.white_pawns,
            bp | self.en_passant_square,
        );
        let knight_att = compute_knight_attacks(wp & self.boards.white_knights, wp);
        let king_att = compute_king_attacks(wp & self.boards.white_kings, wp);
        let mut acc: u64 = pawn_att | knight_att | king_att;
        let mut i: usize = 0;
        while i < 64
            invariant
                i <= 64,
                forall|t: int| #[trigger] bit(acc, t) <==> (bit(pawn_att, t) || bit(knight_att, t)
                    || bit(king_att, t) || exists|s: int|
                    0 <= s < i && #[trigger] white_slider_from(*self, bp, wp, s, t)),
            decreases 64 - i,
        {
            if get_bit(wp, i) {
                let add = self.white_sliders_at(i, bp, wp);
                let next = acc | add;
                proof {
                    assert forall|t: int| #[trigger] bit(next, t) <==> (bit(pawn_att, t) || bit(
                        knight_att,
                        t,
                    ) || bit(king_att, t) || exists|s: int|
                        0 <= s < i + 1 && #[trigger] white_slider_from(*self, bp, wp, s, t)) by {
                        if bit(next, t) {
                            if bit(add, t) {
                                assert(white_slider_from(*self, bp, wp, i as int, t));
                            } else if !(bit(pawn_att, t) || bit(knight_att, t) || bit(
                                king_att,
                                t,
                            )) {
                                let s0 = choose|s0: int|
                                    0 <= s0 < i && #[trigger] white_slider_from(
                                        *self,
                                        bp,
                                        wp,
                                        s0,
                                        t,
                                    );
                                assert(0 <= s0 < i + 1 && white_slider_from(*self, bp, wp, s0, t));
                            }
                        } else {
                            if exists|s0: int|
                                0 <= s0 < i + 1 && #[trigger] white_slider_from(
                                    *self,
                                    bp,
                                    wp,
                                    s0,
                                    t,
                                ) {
                                let s0 = choose|s0: int|
                                    0 <= s0 < i + 1 && #[trigger] white_slider_from(
                                        *self,
                                        bp,
                                        wp,
                                        s0,
                                        t,
                                    );
                                if s0 == i {
                                    assert(bit(add, t));
                                }
                            }
                        }
                    }
                }
                acc = next;
            } else {
                proof {
                    assert forall|t: int| !(#[trigger] white_slider_from(
                        *self,
                        bp,
                        wp,
                        i as int,
                        t,
                    )) by {}
                }
            }
            i = i + 1;
        }
        proof {
            assert forall|t: int| #[trigger] bit(acc, t) <==> white_attacks_sq(*self, bp, wp, t) by {
                if bit(acc, t) {
                    if bit(pawn_att, t) {
                        let s = choose|s: int|
                            bit(wp & self.boards.white_pawns, s) && #[trigger] white_pawn_step(
                                s,
                                t,
                            );
                        assert(white_attack_from(*self, bp, wp, s, t));
                    } else if bit(knight_att, t) {
                        let s = choose|s: int|
                            bit(wp & self.boards.white_knights, s) && #[trigger] knight_step(s, t);
                        assert(white_attack_from(*self, bp, wp, s, t));
                    } else if bit(king_att, t) {
                        let s = choose|s: int|
                            bit(wp & self.boards.white_kings, s) && #[trigger] king_step(s, t);
                        assert(white_attack_from(*self, bp, wp, s, t));
                    } else {
                        let s = choose|s: int|
                            0 <= s < 64 && #[trigger] white_slider_from(*self, bp, wp, s, t);
                        assert(white_attack_from(*self, bp, wp, s, t));
                    }
                }
                if white_attacks_sq(*self, bp, wp, t) {
                    let s = choose|s: int| #[trigger] white_attack_from(*self, bp, wp, s, t);
                    if bit(wp & self.boards.white_pawns, s) && white_pawn_step(s, t) && bit(
                        bp | self.en_passant_square,
                        t,
                    ) {
                        assert(bit(pawn_att, t));
                    } else if bit(wp & self.boards.white_knights, s) && knight_step(s, t) && !bit(
                        wp,
                        t,
                    ) {
                        assert(bit(knight_att, t));
                    } else if bit(wp & self.boards.white_kings, s) && king_step(s, t) && !bit(
                        wp,
                        t,
                    ) {
                        assert(bit(king_att, t));
                    } else {
                        assert(0 <= s < 64 && white_slider_from(*self, bp, wp, s, t));
                    }
                }
            }
        }
        acc
    }

    /// Every square attacked by Black, computed from the replacement
    /// occupancies when given, else from the real ones.
    #[verifier::rlimit(100)]
    #[verifier::spinoff_prover]
    pub fn compute_black_attacks(
        &self,
        black_pieces_option: Option<u64>,
        white_pieces_option: Option<u64>,
    ) -> (r: u64)
        ensures
            forall|t: int| #[trigger] bit(r, t) <==> black_attacks_sq(
                *self,
                or_default(black_pieces_option, self.black_pieces),
                or_default(white_pieces_option, self.white_pieces),
                t,
            ),
    {
        let bp = match black_pieces_option {
            Some(v) => v,
            None => self.black_pieces,
        };
        let wp = match white_pieces_option {
            Some(v) => v,
            None => self.white_pieces,
        };
        let all = bp | wp;
        let pawn_att = compute_black_pawn_attacks(
            bp & self.boards.black_pawns,
            wp | self.en_passant_square,
        );
        let knight_att = compute_knight_attacks(bp & self.boards.black_knights, bp);
        let king_att = compute_king_attacks(bp & self.boards.black_kings, bp);
        let mut acc: u64 = pawn_att | knight_att | king_att;
        let mut i: usize = 0;
        while i < 64
            invariant
                i <= 64,
                forall|t: int| #[trigger] bit(acc, t) <==> (bit(pawn_att, t) || bit(knight_att, t)
                    || bit(king_att, t) || exists|s: int|
                    0 <= s < i && #[trigger] black_slider_from(*self, bp, wp, s, t)),
            decreases 64 - i,
        {
            if get_bit(bp, i) {
                let add = self.black_sliders_at(i, bp, wp);
                let next = acc | add;
                proof {
                    assert forall|t: int| #[trigger] bit(next, t) <==> (bit(pawn_att, t) || bit(
                        knight_att,
                        t,
                    ) || bit(king_att, t) || exists|s: int|
                        0 <= s < i + 1 && #[trigger] black_slider_from(*self, bp, wp, s, t)) by {
                        if bit(next, t) {
                            if bit(add, t) {
                                assert(black_slider_from(*self, bp, wp, i as int, t));
                            } else if !(bit(pawn_att, t) || bit(knight_att, t) || bit(
                                king_att,
                                t,
                            )) {
                                let s0 = choose|s0: int|
                                    0 <= s0 < i && #[trigger] black_slider_from(
                                        *self,
                                        bp,
                                        wp,
                                        s0,
                                        t,
                                    );
                                assert(0 <= s0 < i + 1 && black_slider_from(*self, bp, wp, s0, t));
                            }
                        } else {
                            if exists|s0: int|
                                0 <= s0 < i + 1 && #[trigger] black_slider_from(
                                    *self,
                                    bp,
                                    wp,
                                    s0,
                                    t,
                                ) {
                                let s0 = choose|s0: int|
                                    0 <= s0 < i + 1 && #[trigger] black_slider_from(
                                        *self,
                                        bp,
                                        wp,
                                        s0,
                                        t,
                                    );
                                if s0 == i {
                                    assert(bit(add, t));
                                }
                            }
                        }
                    }
                }
                acc = next;
            } else {
                proof {
                    assert forall|t: int| !(#[trigger] black_slider_from(
                        *self,
                        bp,
                        wp,
                        i as int,
                        t,
                    )) by {}
                }
            }
            i = i + 1;
        }
        proof {
            assert forall|t: int| #[trigger] bit(acc, t) <==> black_attacks_sq(*self, bp, wp, t) by {
                if bit(acc, t) {
                    if bit(pawn_att, t) {
                        let s = choose|s: int|
                            bit(bp & self.boards.black_pawns, s) && #[trigger] black_pawn_step(
                                s,
                                t,
                            );
                        assert(black_attack_from(*self, bp, wp, s, t));
                    } else if bit(knight_att, t) {
                        let s = choose|s: int|
                            bit(bp & self.boards.black_knights, s) && #[trigger] knight_step(s, t);
                        assert(black_attack_from(*self, bp, wp, s, t));
                    } else if bit(king_att, t) {
                        let s = choose|s: int|
                            bit(bp & self.boards.black_kings, s) && #[trigger] king_step(s, t);
                        assert(black_attack_from(*self, bp, wp, s, t));
                    } else {
                        let s = choose|s: int|
                            0 <= s < 64 && #[trigger] black_slider_from(*self, bp, wp, s, t);
                        assert(black_attack_from(*self, bp, wp, s, t));
                    }
                }
                if black_attacks_sq(*self, bp, wp, t) {
                    let s = choose|s: int| #[trigger] black_attack_from(*self, bp, wp, s, t);
                    if bit(bp & self.boards.black_pawns, s) && black_pawn_step(s, t) && bit(
                        wp | self.en_passant_square,
                        t,
                    ) {
                        assert(bit(pawn_att, t));
                    } else if bit(bp & self.boards.black_knights, s) && knight_step(s, t) && !bit(
                        bp,
                        t,
                    ) {
                        assert(bit(knight_att, t));
                    } else if bit(bp & self.boards.black_kings, s) && king_step(s, t) && !bit(
                        bp,
                        t,
                    ) {
                        assert(bit(king_att, t));
                    } else {
                        assert(0 <= s < 64 && black_slider_from(*self, bp, wp, s, t));
                    }
                }
            }
        }
        acc
    }
    /// Whether White stands in check: a white king square is attacked by
    /// Black.  `black_attacks_option` supplies a precomputed black attack
    /// board, `white_kings_option` a replacement white king set.
    pub fn white_in_check(
        &self,
        black_attacks_option: Option<u64>,
        white_kings_option: Option<u64>,
    ) -> (r: bool)
        ensures
            black_attacks_option is Some ==> r == crate::bits::overlap(
                or_default(white_kings_option, self.boards.white_kings),
                black_attacks_option->0,
            ),
            black_attacks_option is None ==> r == white_checked(
                *self,
                self.black_pieces,
                self.white_pieces,
                or_default(white_kings_option, self.boards.white_kings),
            ),
    {
        let wk = match white_kings_option {
            Some(v) => v,
            None => self.boards.white_kings,
        };
        match black_attacks_option {
            Some(batt) => overlaps(wk, batt),
            None => {
                let batt = self.compute_black_attacks(None, None);
                let r = overlaps(wk, batt);
                proof {
                    if r {
                        let t = choose|t: int|
                            0 <= t < 64 && bit(wk, t) && #[trigger] bit(batt, t);
                        assert(bit(wk, t) && black_attacks_sq(
                            *self,
                            self.black_pieces,
                            self.white_pieces,
                            t,
                        ));
                    }
                    if white_checked(*self, self.black_pieces, self.white_pieces, wk) {
                        let t = choose|t: int|
                            bit(wk, t) && #[trigger] black_attacks_sq(
                                *self,
                                self.black_pieces,
                                self.white_pieces,
                                t,
                            );
                        assert(bit(batt, t));
                    }
                }
                r
            },
        }
    }

    /// Whether Black stands in check: a black king square is attacked by
    /// White.
    pub fn black_in_check(
        &self,
        white_attacks_option: Option<u64>,
        black_kings_option: Option<u64>,
    ) -> (r: bool)
        ensures
            white_attacks_option is Some ==> r == crate::bits::overlap(
                or_default(black_kings_option, self.boards.black_kings),
                white_attacks_option->0,
            ),
            white_attacks_option is None ==> r == black_checked(
                *self,
                self.black_pieces,
                self.white_pieces,
                or_default(black_kings_option, self.boards.black_kings),
            ),
    {
        let bk = match black_kings_option {
            Some(v) => v,
            None => self.boards.black_kings,
        };
        match white_attacks_option {
            Some(watt) => overlaps(bk, watt),
            None => {
                let watt = self.compute_white_attacks(None, None);
                let r = overlaps(bk, watt);
                proof {
                    if r {
                        let t = choose|t: int|
                            0 <= t < 64 && bit(bk, t) && #[trigger] bit(watt, t);
                        assert(bit(bk, t) && white_attacks_sq(
                            *self,
                            self.black_pieces,
                            self.white_pieces,
                            t,
                        ));
                    }
                    if black_checked(*self, self.black_pieces, self.white_pieces, bk) {
                        let t = choose|t: int|
                            bit(bk, t) && #[trigger] white_attacks_sq(
                                *self,
                                self.black_pieces,
                                self.white_pieces,
                                t,
                            );
                        assert(bit(watt, t));
                    }
                }
                r
            },
        }
    }

}


/// An attacking piece stands on the board.
pub proof fn lemma_attack_from_in_range(c: ChessBoard, bp: u64, wp: u64, s: int, t: int)
    requires
        white_attack_from(c, bp, wp, s, t),
    ensures
        0 <= s < 64,
{
}

/// An attacking piece stands on the board.
pub proof fn lemma_attack_from_in_range_black(c: ChessBoard, bp: u64, wp: u64, s: int, t: int)
    requires
        black_attack_from(c, bp, wp, s, t),
    ensures
        0 <= s < 64,
{
}

/// A white slider of `c` standing on `s` attacks `t` under the given
/// occupancies.
pub open spec fn white_slider_from(c: ChessBoard, bp: u64, wp: u64, s: int, t: int) -> bool {
    let all = bp | wp;
    ||| (bit(wp & c.boards.white_bishops, s) && bishop_target(s, t, all, bp))
    ||| (bit(wp & c.boards.white_rooks, s) && rook_target(s, t, all, bp))
    ||| (bit(wp & c.boards.white_queens, s) && queen_target(s, t, all, bp))
}

/// A black slider of `c` standing on `s` attacks `t` under the given
/// occupancies.
pub open spec fn black_slider_from(c: ChessBoard, bp: u64, wp: u64, s: int, t: int) -> bool {
    let all = bp | wp;
    ||| (bit(bp & c.boards.black_bishops, s) && bishop_target(s, t, all, wp))
    ||| (bit(bp & c.boards.black_rooks, s) && rook_target(s, t, all, wp))
    ||| (bit(bp & c.boards.black_queens, s) && queen_target(s, t, all, wp))
}

} // verus!
