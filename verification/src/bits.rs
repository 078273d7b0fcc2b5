//! Bitboard primitives: a `u64` is a set of board squares, bit `i` standing
//! for square `i` (a1 = 0, b1 = 1, ..., h8 = 63).

use vstd::prelude::*;

verus! {

/// Square `i` is a member of the board set `b`.
pub open spec fn bit(b: u64, i: int) -> bool {
    0 <= i < 64 && (b >> (i as u64)) & 1u64 == 1u64
}

/// The one-square board set `{ i }`.
pub open spec fn square_bit_spec(i: int) -> u64 {
    1u64 << (i as u64)
}

pub broadcast proof fn lemma_bit_or(a: u64, b: u64, i: int)
    ensures
        #[trigger] bit(a | b, i) <==> bit(a, i) || bit(b, i),
{
    if 0 <= i < 64 {
        let j = i as u64;
        assert((((a | b) >> j) & 1u64 == 1u64) <==> (((a >> j) & 1u64 == 1u64) || ((b >> j)
            & 1u64 == 1u64))) by (bit_vector);
    }
}

pub broadcast proof fn lemma_bit_and(a: u64, b: u64, i: int)
    ensures
        #[trigger] bit(a & b, i) <==> bit(a, i) && bit(b, i),
{
    if 0 <= i < 64 {
        let j = i as u64;
        assert((((a & b) >> j) & 1u64 == 1u64) <==> (((a >> j) & 1u64 == 1u64) && ((b >> j)
            & 1u64 == 1u64))) by (bit_vector);
    }
}

pub broadcast proof fn lemma_bit_not(a: u64, i: int)
    ensures
        #[trigger] bit(!a, i) <==> (0 <= i < 64 && !bit(a, i)),
{
    if 0 <= i < 64 {
        let j = i as u64;
        assert((((!a) >> j) & 1u64 == 1u64) <==> !((a >> j) & 1u64 == 1u64)) by (bit_vector)
            requires
                j < 64,
        ;
    }
}

pub broadcast proof fn lemma_bit_zero(i: int)
    ensures
        !(#[trigger] bit(0u64, i)),
{
    if 0 <= i < 64 {
        let j = i as u64;
        assert((0u64 >> j) & 1u64 != 1u64) by (bit_vector);
    }
}

pub broadcast proof fn lemma_bit_square(k: int, i: int)
    requires
        0 <= k < 64,
    ensures
        #[trigger] bit(square_bit_spec(k), i) <==> i == k,
{
    let kk = k as u64;
    if 0 <= i < 64 {
        let j = i as u64;
        assert(kk < 64 && j < 64 ==> ((((1u64 << kk) >> j) & 1u64 == 1u64) <==> j == kk))
            by (bit_vector);
    }
}

/// `b` is a one-square board set.
pub open spec fn is_square_bit(b: u64) -> bool {
    exists|i: int| 0 <= i < 64 && b == square_bit_spec(i)
}

/// The square of a one-square board set.
pub open spec fn square_index(b: u64) -> int {
    choose|i: int| 0 <= i < 64 && b == square_bit_spec(i)
}

pub broadcast proof fn lemma_square_index(i: int)
    requires
        0 <= i < 64,
    ensures
        is_square_bit(#[trigger] square_bit_spec(i)),
        square_index(square_bit_spec(i)) == i,
{
    assert(is_square_bit(square_bit_spec(i)));
    let j = square_index(square_bit_spec(i));
    lemma_bit_square(i, i);
    lemma_bit_square(j, i);
}

pub broadcast group group_bit_lemmas {
    lemma_bit_or,
    lemma_bit_and,
    lemma_bit_not,
    lemma_bit_zero,
    lemma_bit_square,
    lemma_square_index,
}

proof fn lemma_low_bits_zero(b: u64, n: u64)
    requires
        n < 64,
        forall|i: int| 0 <= i <= n ==> !bit(b, i),
    ensures
        b & (u64::MAX >> ((63u64 - n) as u64)) == 0,
    decreases n,
{
    assert(!bit(b, n as int));
    assert((b >> n) & 1u64 != 1u64);
    if n == 0 {
        assert((b >> 0u64) & 1u64 != 1u64 ==> b & (u64::MAX >> 63u64) == 0) by (bit_vector);
        assert(b & (u64::MAX >> ((63u64 - n) as u64)) == 0);
    } else {
        let m = (n - 1) as u64;
        lemma_low_bits_zero(b, m);
        assert(b & (u64::MAX >> ((63u64 - n) as u64)) == 0) by (bit_vector)
            requires
                0 < n < 64,
                n == m + 1,
                b & (u64::MAX >> ((63u64 - m) as u64)) == 0,
                (b >> n) & 1u64 != 1u64,
        ;
    }
}

/// A board set with no member square is the zero word.
pub proof fn lemma_bits_all_zero(b: u64)
    requires
        forall|i: int| 0 <= i < 64 ==> !bit(b, i),
    ensures
        b == 0,
{
    lemma_low_bits_zero(b, 63);
    assert(b & (u64::MAX >> 0u64) == 0 ==> b == 0) by (bit_vector);
}

/// Membership test.
pub fn get_bit(b: u64, i: usize) -> (r: bool)
    requires
        i < 64,
    ensures
        r == bit(b, i as int),
{
    (b >> (i as u64)) & 1u64 == 1u64
}

/// The one-square board set `{ i }`.
pub fn square_bit(i: usize) -> (r: u64)
    requires
        i < 64,
    ensures
        r == square_bit_spec(i as int),
        forall|j: int| #[trigger] bit(r, j) <==> j == i,
{
    broadcast use lemma_bit_square;

    1u64 << (i as u64)
}

/// Adds square `i` to the set.
pub fn set_bit(b: u64, i: usize) -> (r: u64)
    requires
        i < 64,
    ensures
        forall|j: int| #[trigger] bit(r, j) <==> bit(b, j) || j == i,
{
    broadcast use group_bit_lemmas;

    b | square_bit(i)
}

/// Removes square `i` from the set.
pub fn clear_bit(b: u64, i: usize) -> (r: u64)
    requires
        i < 64,
    ensures
        forall|j: int| #[trigger] bit(r, j) <==> bit(b, j) && j != i,
{
    broadcast use group_bit_lemmas;

    b & !square_bit(i)
}

/// How many of the squares below `n` are members of `b`.
pub open spec fn count_bits_below(b: u64, n: int) -> nat
    decreases n,
{
    if n <= 0 {
        0
    } else {
        count_bits_below(b, n - 1) + (if bit(b, n - 1) {
            1nat
        } else {
            0nat
        })
    }
}

/// How many squares the set `b` holds.
pub open spec fn popcount(b: u64) -> nat {
    count_bits_below(b, 64)
}

/// The number of set bits, that is of squares in the set.
pub fn bit_count(bit_board: u64) -> (r: usize)
    ensures
        r == popcount(bit_board),
        r <= 64,
{
    let mut count: usize = 0;
    let mut i: usize = 0;
    while i < 64
        invariant
            i <= 64,
            count == count_bits_below(bit_board, i as int),
            count <= i,
        decreases 64 - i,
    {
        if get_bit(bit_board, i) {
            count = count + 1;
        }
        i = i + 1;
    }
    count
}

/// The index of the lowest set bit, or 64 when the set is empty.  On a
/// one-bit board this is the index of that square.
pub fn bit_scan(bit_board: u64) -> (r: usize)
    ensures
        bit_board == 0 ==> r == 64,
        bit_board != 0 ==> r < 64 && bit(bit_board, r as int) && forall|j: int|
            0 <= j < r ==> !bit(bit_board, j),
{
    let mut i: usize = 0;
    while i < 64
        invariant
            i <= 64,
            forall|j: int| 0 <= j < i ==> !bit(bit_board, j),
        decreases 64 - i,
    {
        if get_bit(bit_board, i) {
            proof {
                lemma_bit_zero(i as int);
            }
            return i;
        }
        i = i + 1;
    }
    proof {
        lemma_bits_all_zero(bit_board);
    }
    64
}

/// The two sets share a square.
pub open spec fn overlap(a: u64, b: u64) -> bool {
    exists|i: int| 0 <= i < 64 && bit(a, i) && #[trigger] bit(b, i)
}

/// Whether the two sets share a square.
pub fn overlaps(a: u64, b: u64) -> (r: bool)
    ensures
        r == overlap(a, b),
{
    broadcast use group_bit_lemmas;

    let c = a & b;
    if c == 0 {
        proof {
            assert forall|i: int| 0 <= i < 64 && bit(a, i) implies !(#[trigger] bit(b, i)) by {
                assert(!bit(a & b, i));
            }
        }
        false
    } else {
        proof {
            if !(exists|i: int| 0 <= i < 64 && bit(a, i) && #[trigger] bit(b, i)) {
                assert forall|i: int| 0 <= i < 64 implies !(#[trigger] bit(a & b, i)) by {
                    if bit(a & b, i) {
                        assert(bit(a, i) && bit(b, i));
                    }
                }
                lemma_bits_all_zero(a & b);
            }
        }
        true
    }
}

} // verus!
