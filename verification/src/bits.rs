//! Bit-level view of a 64-bit board: which bit positions are set, and how
//! the bitwise operators act on single positions.
use vstd::prelude::*;

verus! {

/// Bit `i` of `x` is set (positions outside `0..64` are never set).
pub open spec fn bit(x: u64, i: int) -> bool {
    0 <= i < 64 && (x >> (i as u64)) & 1 == 1
}

/// Bit `i` is the only bit set in `x`.
pub open spec fn only_bit(x: u64, i: int) -> bool {
    0 <= i < 64 && forall|t: int| #[trigger] bit(x, t) == (t == i)
}

/// `x` moved by `s` positions towards bit 0 (`s > 0`) or towards bit 63 (`s < 0`);
/// bits pushed past either end are lost.
pub open spec fn shifted(x: u64, s: int) -> u64 {
    if s >= 0 {
        x >> (s as u64)
    } else {
        x << ((-s) as u64)
    }
}

proof fn lemma_and_u64(a: u64, b: u64, i: u64)
    by (bit_vector)
    requires
        i < 64,
    ensures
        (((a & b) >> i) & 1 == 1) == (((a >> i) & 1 == 1) && ((b >> i) & 1 == 1)),
{
}

proof fn lemma_or_u64(a: u64, b: u64, i: u64)
    by (bit_vector)
    requires
        i < 64,
    ensures
        (((a | b) >> i) & 1 == 1) == (((a >> i) & 1 == 1) || ((b >> i) & 1 == 1)),
{
}

proof fn lemma_not_u64(a: u64, i: u64)
    by (bit_vector)
    requires
        i < 64,
    ensures
        (((!a) >> i) & 1 == 1) == !((a >> i) & 1 == 1),
{
}

proof fn lemma_shr_u64(a: u64, s: u64, i: u64)
    by (bit_vector)
    requires
        i < 64,
        s < 64,
    ensures
        (((a >> s) >> i) & 1 == 1) == (i + s < 64 && ((a >> (i + s)) & 1 == 1)),
{
}

proof fn lemma_shl_u64(a: u64, s: u64, i: u64)
    by (bit_vector)
    requires
        i < 64,
        s < 64,
    ensures
        (((a << s) >> i) & 1 == 1) == (i >= s && ((a >> ((i - s) as u64)) & 1 == 1)),
{
}

pub proof fn lemma_bit_and(a: u64, b: u64)
    ensures
        forall|i: int| #[trigger] bit(a & b, i) == (bit(a, i) && bit(b, i)),
{
    assert forall|i: int| #[trigger] bit(a & b, i) == (bit(a, i) && bit(b, i)) by {
        if 0 <= i < 64 {
            lemma_and_u64(a, b, i as u64);
        }
    }
}

pub proof fn lemma_bit_or(a: u64, b: u64)
    ensures
        forall|i: int| #[trigger] bit(a | b, i) == (bit(a, i) || bit(b, i)),
{
    assert forall|i: int| #[trigger] bit(a | b, i) == (bit(a, i) || bit(b, i)) by {
        if 0 <= i < 64 {
            lemma_or_u64(a, b, i as u64);
        }
    }
}

pub proof fn lemma_bit_not(a: u64)
    ensures
        forall|i: int| 0 <= i < 64 ==> #[trigger] bit(!a, i) == !bit(a, i),
{
    assert forall|i: int| 0 <= i < 64 implies #[trigger] bit(!a, i) == !bit(a, i) by {
        lemma_not_u64(a, i as u64);
    }
}

/// Bit `i` of `x` moved by `s` is the bit `i + s` of `x`.
pub proof fn lemma_bit_shifted(x: u64, s: int)
    requires
        -64 < s < 64,
    ensures
        forall|i: int| #[trigger] bit(shifted(x, s), i) == (0 <= i < 64 && bit(x, i + s)),
{
    assert forall|i: int| #[trigger] bit(shifted(x, s), i) == (0 <= i < 64 && bit(x, i + s)) by {
        if 0 <= i < 64 {
            if s >= 0 {
                lemma_shr_u64(x, s as u64, i as u64);
            } else {
                lemma_shl_u64(x, (-s) as u64, i as u64);
            }
        }
    }
}

proof fn lemma_shr_step(x: u64, n: u64)
    by (bit_vector)
    requires
        n < 64,
    ensures
        x >> n == ((x >> (n + 1)) << 1u64) | ((x >> n) & 1),
{
}

proof fn lemma_shr_all(x: u64)
    by (bit_vector)
    ensures
        x >> 64u64 == 0u64,
{
}

proof fn lemma_bits_determine_from(x: u64, y: u64, n: u64)
    requires
        n <= 64,
        forall|i: int| n <= i < 64 ==> bit(x, i) == bit(y, i),
    ensures
        x >> n == y >> n,
    decreases 64 - n,
{
    if n == 64 {
        lemma_shr_all(x);
        lemma_shr_all(y);
    } else {
        lemma_bits_determine_from(x, y, (n + 1) as u64);
        assert(bit(x, n as int) == bit(y, n as int));
        lemma_shr_step(x, n);
        lemma_shr_step(y, n);
        assert((x >> n) & 1 == 1 || (x >> n) & 1 == 0) by (bit_vector);
        assert((y >> n) & 1 == 1 || (y >> n) & 1 == 0) by (bit_vector);
    }
}

/// Two boards with the same bits are the same board.
pub proof fn lemma_bits_determine(x: u64, y: u64)
    requires
        forall|i: int| 0 <= i < 64 ==> #[trigger] bit(x, i) == bit(y, i),
    ensures
        x == y,
{
    lemma_bits_determine_from(x, y, 0);
    assert(x >> 0u64 == x) by (bit_vector);
    assert(y >> 0u64 == y) by (bit_vector);
}

/// A board is empty exactly when none of its bits is set.
pub proof fn lemma_zero_iff_no_bit(x: u64)
    ensures
        x == 0 <==> forall|i: int| 0 <= i < 64 ==> !#[trigger] bit(x, i),
{
    if forall|i: int| 0 <= i < 64 ==> !#[trigger] bit(x, i) {
        assert forall|i: int| 0 <= i < 64 implies #[trigger] bit(x, i) == bit(0u64, i) by {
            let ii = i as u64;
            assert(((0u64 >> ii) & 1) == 0) by (bit_vector);
        }
        lemma_bits_determine(x, 0);
    }
    if x == 0 {
        assert forall|i: int| 0 <= i < 64 implies !#[trigger] bit(x, i) by {
            let ii = i as u64;
            assert(((0u64 >> ii) & 1) == 0) by (bit_vector);
        }
    }
}

/// The board whose only stone is at bit `i`.
pub proof fn lemma_single_bit(i: u64)
    requires
        i < 64,
    ensures
        forall|j: int| #[trigger] bit(1u64 << i, j) == (j == i),
{
    assert forall|j: int| #[trigger] bit(1u64 << i, j) == (j == i) by {
        if 0 <= j < 64 {
            let jj = j as u64;
            assert((((1u64 << i) >> jj) & 1 == 1) == (jj == i)) by (bit_vector)
                requires
                    i < 64,
                    jj < 64,
            ;
        }
    }
}

/// A board with a single stone meets `x` exactly when `x` has that stone.
pub proof fn lemma_and_only_bit(x: u64, m: u64, i: int)
    requires
        only_bit(m, i),
    ensures
        ((x & m) != 0) == bit(x, i),
{
    lemma_bit_and(x, m);
    lemma_zero_iff_no_bit(x & m);
    if bit(x, i) {
        assert(bit(x & m, i));
    }
}

/// Nothing meets the empty board, and moving the empty board leaves it empty.
pub proof fn lemma_empty_board(x: u64, s: int)
    requires
        -64 < s < 64,
    ensures
        x & 0 == 0,
        (x & 0) | 0 == 0,
        shifted(0, s) == 0,
{
    lemma_bit_and(x, 0);
    lemma_bit_or(x & 0, 0);
    lemma_bit_shifted(0, s);
    lemma_zero_iff_no_bit(0);
    lemma_zero_iff_no_bit(x & 0);
    lemma_zero_iff_no_bit((x & 0) | 0);
    lemma_zero_iff_no_bit(shifted(0, s));
}

} // verus!
