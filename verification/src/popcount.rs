//! Counting the stones of a board.
use vstd::prelude::*;
use crate::bits::{bit, only_bit, lemma_bit_and, lemma_bit_not};

verus! {

/// Number of set bits among the positions `0..n` of `x`.
pub open spec fn bits_below(x: u64, n: nat) -> nat
    decreases n,
{
    if n == 0 {
        0
    } else {
        bits_below(x, (n - 1) as nat) + if bit(x, n - 1) {
            1nat
        } else {
            0nat
        }
    }
}

/// Number of stones on board `x`.
pub open spec fn stone_count(x: u64) -> nat {
    bits_below(x, 64)
}

/// The sixty-four bits of `v`, added up one by one.
pub open spec fn bit_sum(v: u64) -> int {
        ((v >> 0u64) & 1) + ((v >> 1u64) & 1) + ((v >> 2u64) & 1) + ((v >> 3u64) & 1) +
        ((v >> 4u64) & 1) + ((v >> 5u64) & 1) + ((v >> 6u64) & 1) + ((v >> 7u64) & 1) +
        ((v >> 8u64) & 1) + ((v >> 9u64) & 1) + ((v >> 10u64) & 1) + ((v >> 11u64) & 1) +
        ((v >> 12u64) & 1) + ((v >> 13u64) & 1) + ((v >> 14u64) & 1) + ((v >> 15u64) & 1) +
        ((v >> 16u64) & 1) + ((v >> 17u64) & 1) + ((v >> 18u64) & 1) + ((v >> 19u64) & 1) +
        ((v >> 20u64) & 1) + ((v >> 21u64) & 1) + ((v >> 22u64) & 1) + ((v >> 23u64) & 1) +
        ((v >> 24u64) & 1) + ((v >> 25u64) & 1) + ((v >> 26u64) & 1) + ((v >> 27u64) & 1) +
        ((v >> 28u64) & 1) + ((v >> 29u64) & 1) + ((v >> 30u64) & 1) + ((v >> 31u64) & 1) +
        ((v >> 32u64) & 1) + ((v >> 33u64) & 1) + ((v >> 34u64) & 1) + ((v >> 35u64) & 1) +
        ((v >> 36u64) & 1) + ((v >> 37u64) & 1) + ((v >> 38u64) & 1) + ((v >> 39u64) & 1) +
        ((v >> 40u64) & 1) + ((v >> 41u64) & 1) + ((v >> 42u64) & 1) + ((v >> 43u64) & 1) +
        ((v >> 44u64) & 1) + ((v >> 45u64) & 1) + ((v >> 46u64) & 1) + ((v >> 47u64) & 1) +
        ((v >> 48u64) & 1) + ((v >> 49u64) & 1) + ((v >> 50u64) & 1) + ((v >> 51u64) & 1) +
        ((v >> 52u64) & 1) + ((v >> 53u64) & 1) + ((v >> 54u64) & 1) + ((v >> 55u64) & 1) +
        ((v >> 56u64) & 1) + ((v >> 57u64) & 1) + ((v >> 58u64) & 1) + ((v >> 59u64) & 1) +
        ((v >> 60u64) & 1) + ((v >> 61u64) & 1) + ((v >> 62u64) & 1) + ((v >> 63u64) & 1)
}

/// The pairwise, nibble, byte, ... sums of the bit-parallel count.
pub open spec fn pairs(v: u64) -> u64 {
    ((v & 0x5555555555555555u64) + ((v >> 1u64) & 0x5555555555555555u64)) as u64
}

pub open spec fn nibbles(v: u64) -> u64 {
    ((pairs(v) & 0x3333333333333333u64) + ((pairs(v) >> 2u64) & 0x3333333333333333u64)) as u64
}

pub open spec fn bytes(v: u64) -> u64 {
    ((nibbles(v) & 0x0f0f0f0f0f0f0f0fu64) + ((nibbles(v) >> 4u64) & 0x0f0f0f0f0f0f0f0fu64)) as u64
}

pub open spec fn halfwords(v: u64) -> u64 {
    ((bytes(v) & 0x00ff00ff00ff00ffu64) + ((bytes(v) >> 8u64) & 0x00ff00ff00ff00ffu64)) as u64
}

pub open spec fn words(v: u64) -> u64 {
    ((halfwords(v) & 0x0000ffff0000ffffu64) + ((halfwords(v) >> 16u64) & 0x0000ffff0000ffffu64)) as u64
}

pub open spec fn total(v: u64) -> u64 {
    ((words(v) & 0x00000000ffffffffu64) + ((words(v) >> 32u64) & 0x00000000ffffffffu64)) as u64
}

pub proof fn lemma_parallel_count(v: u64)
    by (bit_vector)
    ensures
        total(v) == bit_sum(v),
{
}

proof fn lemma_bit_value(v: u64, i: u64)
    by (bit_vector)
    requires
        i < 64,
    ensures
        (v >> i) & 1 == 0 || (v >> i) & 1 == 1,
{
}

/// The bits of `v` below position `n`, added up.
spec fn prefix_sum(v: u64, n: nat) -> int
    decreases n,
{
    if n == 0 {
        0
    } else {
        prefix_sum(v, (n - 1) as nat) + ((v >> ((n - 1) as u64)) & 1)
    }
}

proof fn lemma_bits_below_prefix(v: u64, n: nat)
    requires
        n <= 64,
    ensures
        bits_below(v, n) == prefix_sum(v, n),
    decreases n,
{
    if n > 0 {
        lemma_bits_below_prefix(v, (n - 1) as nat);
        lemma_bit_value(v, (n - 1) as u64);
    }
}

proof fn lemma_prefix_is_sum(v: u64)
    ensures
        prefix_sum(v, 64) == bit_sum(v),
{
    reveal_with_fuel(prefix_sum, 65);
}

pub proof fn lemma_bits_below_is_sum(v: u64)
    ensures
        stone_count(v) == bit_sum(v),
{
    lemma_bits_below_prefix(v, 64);
    lemma_prefix_is_sum(v);
}

/// Adding the two halves of each field never overflows while the mask leaves the
/// top bit clear.
pub proof fn lemma_fold_fits(x: u64, m: u64, k: u64)
    by (bit_vector)
    requires
        m <= 0x7fff_ffff_ffff_ffffu64,
        k < 64,
    ensures
        (x & m) + ((x >> k) & m) <= 0xffff_ffff_ffff_ffffu64,
{
}

/// Bits below `n`: none when the count is zero, exactly one when it is one.
proof fn lemma_bits_below_small(x: u64, n: nat)
    requires
        n <= 64,
    ensures
        (bits_below(x, n) == 0) == (forall|t: int| 0 <= t < n ==> !#[trigger] bit(x, t)),
        (bits_below(x, n) == 1) == (exists|i: int|
            0 <= i < n && #[trigger] bit(x, i) && forall|t: int|
                0 <= t < n && t != i ==> !#[trigger] bit(x, t)),
    decreases n,
{
    if n > 0 {
        let k = (n - 1) as nat;
        lemma_bits_below_small(x, k);
        if bits_below(x, n) == 1 {
            if bit(x, k as int) {
                assert(bits_below(x, k) == 0);
                assert(forall|t: int| 0 <= t < n && t != k ==> !#[trigger] bit(x, t));
            } else {
                let i = choose|i: int|
                    0 <= i < k && #[trigger] bit(x, i) && forall|t: int|
                        0 <= t < k && t != i ==> !#[trigger] bit(x, t);
                assert(forall|t: int| 0 <= t < n && t != i ==> !#[trigger] bit(x, t));
            }
        }
        if exists|i: int|
            0 <= i < n && #[trigger] bit(x, i) && forall|t: int|
                0 <= t < n && t != i ==> !#[trigger] bit(x, t) {
            let i = choose|i: int|
                0 <= i < n && #[trigger] bit(x, i) && forall|t: int|
                    0 <= t < n && t != i ==> !#[trigger] bit(x, t);
            if i == k {
                assert(forall|t: int| 0 <= t < k ==> !#[trigger] bit(x, t));
            } else {
                assert(!bit(x, k as int));
                assert(0 <= i < k && bit(x, i) && forall|t: int|
                    0 <= t < k && t != i ==> !#[trigger] bit(x, t));
            }
        }
        if bits_below(x, n) == 0 {
            assert(!bit(x, k as int));
        }
    }
}

/// A board holds exactly one stone when its count is one.
pub proof fn lemma_count_one(x: u64)
    ensures
        (stone_count(x) == 1) == (exists|i: int| #[trigger] only_bit(x, i)),
{
    lemma_bits_below_small(x, 64);
    if stone_count(x) == 1 {
        let i = choose|i: int|
            0 <= i < 64 && #[trigger] bit(x, i) && forall|t: int|
                0 <= t < 64 && t != i ==> !#[trigger] bit(x, t);
        assert(forall|t: int| #[trigger] bit(x, t) == (t == i));
        assert(only_bit(x, i));
    }
    if exists|i: int| #[trigger] only_bit(x, i) {
        let i = choose|i: int| #[trigger] only_bit(x, i);
        assert(bit(x, i));
    }
}

/// A board has no stone when its count is zero.
pub proof fn lemma_count_zero(x: u64)
    ensures
        (stone_count(x) == 0) == (x == 0),
{
    lemma_bits_below_small(x, 64);
    crate::bits::lemma_zero_iff_no_bit(x);
}

proof fn lemma_bits_below_at_most(x: u64, n: nat)
    ensures
        bits_below(x, n) <= n,
    decreases n,
{
    if n > 0 {
        lemma_bits_below_at_most(x, (n - 1) as nat);
    }
}

/// A board holds at most 64 stones.
pub proof fn lemma_count_at_most_64(x: u64)
    ensures
        stone_count(x) <= 64,
{
    lemma_bits_below_at_most(x, 64);
}

proof fn lemma_bits_below_subset(a: u64, b: u64, n: nat)
    requires
        forall|t: int| #[trigger] bit(a, t) ==> bit(b, t),
    ensures
        bits_below(a, n) <= bits_below(b, n),
    decreases n,
{
    if n > 0 {
        lemma_bits_below_subset(a, b, (n - 1) as nat);
    }
}

/// A board whose stones all stand on another board holds no more stones.
pub proof fn lemma_count_subset(a: u64, b: u64)
    requires
        forall|t: int| #[trigger] bit(a, t) ==> bit(b, t),
    ensures
        stone_count(a) <= stone_count(b),
{
    lemma_bits_below_subset(a, b, 64);
}

/// Keeping the stones of `x` that also stand on `y` leaves at most as many as on `y`.
pub proof fn lemma_count_and(x: u64, y: u64)
    ensures
        stone_count(x & y) <= stone_count(y),
        stone_count(x & y) <= stone_count(x),
{
    lemma_bit_and(x, y);
    lemma_count_subset(x & y, y);
    lemma_count_subset(x & y, x);
}

proof fn lemma_bits_below_remove(x: u64, y: u64, i: int, n: nat)
    requires
        only_bit(y, i),
        bit(x, i),
    ensures
        bits_below(x, n) == bits_below(x & !y, n) + if i < n {
            1nat
        } else {
            0nat
        },
    decreases n,
{
    if n > 0 {
        lemma_bits_below_remove(x, y, i, (n - 1) as nat);
        lemma_bit_and(x, !y);
        lemma_bit_not(y);
    }
}

/// Taking away one stone of a board leaves one stone fewer.
pub proof fn lemma_count_remove(x: u64, y: u64, i: int)
    requires
        only_bit(y, i),
        bit(x, i),
    ensures
        stone_count(x & !y) + 1 == stone_count(x),
{
    lemma_bits_below_remove(x, y, i, 64);
}

} // verus!
