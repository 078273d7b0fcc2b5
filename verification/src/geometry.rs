//! Square geometry: squares are numbered 0..64, row-major from a1, so a
//! square's rank is `i / 8` and its file is `i % 8`.

use vstd::prelude::*;

verus! {

/// The rank (row, 0-based from White's side) of square `i`.
pub open spec fn rank_of(i: int) -> int {
    i / 8
}

/// The file (column, 0-based from the a-file) of square `i`.
pub open spec fn file_of(i: int) -> int {
    i % 8
}

/// The pair (rank, file) lies on the board.
pub open spec fn on_board(r: int, f: int) -> bool {
    0 <= r < 8 && 0 <= f < 8
}

/// The square at rank `r`, file `f`.
pub open spec fn square_at(r: int, f: int) -> int {
    8 * r + f
}

pub broadcast proof fn lemma_square_decomp(i: int)
    requires
        0 <= i < 64,
    ensures
        #![trigger rank_of(i)]
        #![trigger file_of(i)]
        8 * rank_of(i) + file_of(i) == i,
        0 <= rank_of(i) < 8,
        0 <= file_of(i) < 8,
{
    assert(8 * (i / 8) + i % 8 == i && 0 <= i % 8 < 8 && 0 <= i / 8 < 8) by (nonlinear_arith)
        requires
            0 <= i < 64,
    ;
}

pub broadcast proof fn lemma_square_compose(r: int, f: int)
    requires
        on_board(r, f),
    ensures
        #![trigger square_at(r, f)]
        0 <= square_at(r, f) < 64,
        rank_of(square_at(r, f)) == r,
        file_of(square_at(r, f)) == f,
{
    assert(0 <= 8 * r + f < 64 && (8 * r + f) / 8 == r && (8 * r + f) % 8 == f)
        by (nonlinear_arith)
        requires
            0 <= r < 8 && 0 <= f < 8,
    ;
}

pub broadcast group group_square_lemmas {
    lemma_square_decomp,
    lemma_square_compose,
}

/// Named indices for every board square.
pub struct SQUARE();

impl SQUARE {
    pub const A1: usize = 0;

    pub const B1: usize = 1;

    pub const C1: usize = 2;

    pub const D1: usize = 3;

    pub const E1: usize = 4;

    pub const F1: usize = 5;

    pub const G1: usize = 6;

    pub const H1: usize = 7;

    pub const A2: usize = 8;

    pub const B2: usize = 9;

    pub const C2: usize = 10;

    pub const D2: usize = 11;

    pub const E2: usize = 12;

    pub const F2: usize = 13;

    pub const G2: usize = 14;

    pub const H2: usize = 15;

    pub const A3: usize = 16;

    pub const B3: usize = 17;

    pub const C3: usize = 18;

    pub const D3: usize = 19;

    pub const E3: usize = 20;

    pub const F3: usize = 21;

    pub const G3: usize = 22;

    pub const H3: usize = 23;

    pub const A4: usize = 24;

    pub const B4: usize = 25;

    pub const C4: usize = 26;

    pub const D4: usize = 27;

    pub const E4: usize = 28;

    pub const F4: usize = 29;

    pub const G4: usize = 30;

    pub const H4: usize = 31;

    pub const A5: usize = 32;

    pub const B5: usize = 33;

    pub const C5: usize = 34;

    pub const D5: usize = 35;

    pub const E5: usize = 36;

    pub const F5: usize = 37;

    pub const G5: usize = 38;

    pub const H5: usize = 39;

    pub const A6: usize = 40;

    pub const B6: usize = 41;

    pub const C6: usize = 42;

    pub const D6: usize = 43;

    pub const E6: usize = 44;

    pub const F6: usize = 45;

    pub const G6: usize = 46;

    pub const H6: usize = 47;

    pub const A7: usize = 48;

    pub const B7: usize = 49;

    pub const C7: usize = 50;

    pub const D7: usize = 51;

    pub const E7: usize = 52;

    pub const F7: usize = 53;

    pub const G7: usize = 54;

    pub const H7: usize = 55;

    pub const A8: usize = 56;

    pub const B8: usize = 57;

    pub const C8: usize = 58;

    pub const D8: usize = 59;

    pub const E8: usize = 60;

    pub const F8: usize = 61;

    pub const G8: usize = 62;

    pub const H8: usize = 63;
}

} // verus!
