//! Choosing a move: a fallback pick, the evaluation of positions, and a
//! depth-limited negamax search with a node budget.
use vstd::prelude::*;
use crate::bits::{bit, only_bit, lemma_bit_and, lemma_bit_shifted, lemma_zero_iff_no_bit, lemma_single_bit, shifted};
use crate::popcount::{stone_count, bit_sum, lemma_count_at_most_64, lemma_bits_below_is_sum, lemma_count_and};
use crate::rule::{is_legal_stone, count_stone, legal_move, legal_board, is_legal_board, next_board, next_boards};
use crate::board::{char_byte, text_offset, stone_at, is_legal_square, line_of, column_of, lemma_square_of_index, lemma_only_bit_square};
use crate::popcount::{lemma_count_remove};

verus! {

/// The four corners.
pub const CORNER: u64 = 0x8100000000000081;

/// The twelve squares next to a corner.
pub const NEXT_TO_CORNER: u64 = 0x42c300000000c342;

/// Number of final moves searched to the end of the game.
pub const END_SEARCH: u8 = 16;

proof fn lemma_corner_sums()
    by (bit_vector)
    ensures
        bit_sum(0x8100000000000081u64) == 4,
        bit_sum(0x42c300000000c342u64) == 12,
{
}

proof fn lemma_corner_counts()
    ensures
        stone_count(CORNER) == 4,
        stone_count(NEXT_TO_CORNER) == 12,
{
    lemma_bits_below_is_sum(CORNER);
    lemma_bits_below_is_sum(NEXT_TO_CORNER);
    lemma_corner_sums();
}

/// Scores that a position can get: a finished game is won, lost or drawn, and
/// otherwise the score stays within 437 either way.
pub open spec fn plain_score(s: int) -> bool {
    -437 <= s <= 437 || s == 100000 || s == -100000
}

/// Bit `i` is the lowest bit set in `x`.
pub open spec fn low_bit(x: u64, i: int) -> bool {
    bit(x, i) && forall|j: int| 0 <= j < i ==> !#[trigger] bit(x, j)
}

/// The lowest stone of `legal` (bit 0 first), or nothing when `legal` is empty.
pub fn random(legal: u64) -> (r: u64)
    ensures
        legal == 0 ==> r == 0,
        legal != 0 ==> exists|i: int| #[trigger] low_bit(legal, i),
        forall|i: int| #[trigger] low_bit(legal, i) ==> only_bit(r, i),
{
    let mut mask: u64 = 1;
    let ghost mut k: int = 0;
    proof {
        lemma_single_bit(0);
        assert(1u64 << 0u64 == 1u64) by (bit_vector);
    }
    while mask & legal == 0 && mask != 0
        invariant
            0 <= k <= 64,
            k < 64 ==> only_bit(mask, k),
            k == 64 ==> mask == 0,
            forall|j: int| 0 <= j < k ==> !#[trigger] bit(legal, j),
        decreases 64 - k,
    {
        proof {
            lemma_bit_shifted(mask, -1);
            lemma_bit_and(mask, legal);
            lemma_zero_iff_no_bit(mask & legal);
            lemma_zero_iff_no_bit(mask);
            assert(!bit(mask & legal, k));
            assert(shifted(mask, -1) == mask << 1u64);
            if k == 63 {
                lemma_zero_iff_no_bit(mask << 1u64);
            }
        }
        mask = mask << 1u64;
        proof {
            k = k + 1;
        }
    }
    proof {
        lemma_bit_and(mask, legal);
        lemma_zero_iff_no_bit(mask & legal);
        lemma_zero_iff_no_bit(mask);
        lemma_zero_iff_no_bit(legal);
        if k < 64 {
            assert(bit(mask, k));
            assert(bit(mask & legal, k));
            assert(low_bit(legal, k));
            assert forall|i: int| #[trigger] low_bit(legal, i) implies i == k by {
                if i > k {
                    assert(!bit(legal, k));
                }
            }
        } else {
            assert forall|i: int| #[trigger] low_bit(legal, i) implies false by {
                assert(bit(legal, i));
            }
        }
    }
    mask
}

/// Truncating division by a positive number, as integer division does.
pub open spec fn div_toward_zero(a: int, b: int) -> int {
    if a >= 0 {
        a / b
    } else {
        -((-a) / b)
    }
}

/// The value of the position for `p`: at the end of the game (`turn == 0`) who has
/// more stones; before move 50, mobility, corners and the squares next to them;
/// later, the stone difference.
pub open spec fn evaluation(p: u64, e: u64, turn: int) -> int {
    let player_stone = stone_count(p) as int;
    let enemy_stone = stone_count(e) as int;
    if turn == 0 {
        if player_stone > enemy_stone {
            100000
        } else if player_stone < enemy_stone {
            -100000
        } else {
            0
        }
    } else {
        let mobility = stone_count(legal_board(p, e)) as int;
        let enemy_mobility = stone_count(legal_board(e, p)) as int;
        let corner_score = stone_count(p & CORNER) as int - stone_count(e & CORNER) as int;
        let next_to_corner_score = stone_count(e & NEXT_TO_CORNER) as int - stone_count(
            p & NEXT_TO_CORNER,
        ) as int;
        let parameter: int = if turn < 35 {
            30
        } else {
            10
        };
        if turn < 50 {
            (mobility - enemy_mobility) * 3 + (10int / (enemy_mobility + 1) - 10int / (mobility + 1))
                + parameter * corner_score + div_toward_zero(parameter * next_to_corner_score, 7)
                - if turn <= 35 {
                player_stone - enemy_stone
            } else {
                0
            }
        } else {
            player_stone - enemy_stone
        }
    }
}

/// Every evaluation is a plain score.
pub proof fn lemma_evaluation_plain(p: u64, e: u64, turn: int)
    ensures
        plain_score(evaluation(p, e, turn)),
        turn != 0 ==> -437 <= evaluation(p, e, turn) <= 437,
{
    lemma_count_at_most_64(p);
    lemma_count_at_most_64(e);
    lemma_count_at_most_64(legal_board(p, e));
    lemma_count_at_most_64(legal_board(e, p));
    lemma_corner_counts();
    lemma_count_and(p, CORNER);
    lemma_count_and(e, CORNER);
    lemma_count_and(p, NEXT_TO_CORNER);
    lemma_count_and(e, NEXT_TO_CORNER);
    let parameter: int = if turn < 35 {
        30
    } else {
        10
    };
    let corner_score = stone_count(p & CORNER) as int - stone_count(e & CORNER) as int;
    let next_to_corner_score = stone_count(e & NEXT_TO_CORNER) as int - stone_count(
        p & NEXT_TO_CORNER,
    ) as int;
    let mobility = stone_count(legal_board(p, e)) as int;
    let enemy_mobility = stone_count(legal_board(e, p)) as int;
    assert(-120 <= parameter * corner_score <= 120) by (nonlinear_arith)
        requires
            parameter == 30 || parameter == 10,
            -4 <= corner_score <= 4,
    ;
    assert(-360 <= parameter * next_to_corner_score <= 360) by (nonlinear_arith)
        requires
            parameter == 30 || parameter == 10,
            -12 <= next_to_corner_score <= 12,
    ;
    assert(0 <= 10int / (enemy_mobility + 1) <= 10);
    assert(0 <= 10int / (mobility + 1) <= 10);
}

/// The evaluation is zero-sum: the position is worth to the enemy exactly the
/// negation of what it is worth to the player, at every move number.
pub proof fn lemma_evaluation_antisymmetric(p: u64, e: u64, turn: int)
    ensures
        evaluation(e, p, turn) == -evaluation(p, e, turn),
{
    let parameter: int = if turn < 35 {
        30
    } else {
        10
    };
    let next_to_corner_score = stone_count(e & NEXT_TO_CORNER) as int - stone_count(
        p & NEXT_TO_CORNER,
    ) as int;
    let a = parameter * next_to_corner_score;
    assert(parameter * (-next_to_corner_score) == -a) by (nonlinear_arith)
        requires
            a == parameter * next_to_corner_score,
    ;
    assert(div_toward_zero(-a, 7) == -div_toward_zero(a, 7));
}

/// The mobility part of the middle-game evaluation grows with the mover's legal
/// moves and shrinks with the opponent's.
proof fn lemma_mobility_order(m: int, n: int, m2: int, n2: int)
    requires
        0 <= m2 <= m,
        0 <= n <= n2,
    ensures
        (m - n) * 3 + (10int / (n + 1) - 10int / (m + 1)) >= (m2 - n2) * 3 + (10int / (n2 + 1)
            - 10int / (m2 + 1)),
        (m > m2 || n < n2) ==> (m - n) * 3 + (10int / (n + 1) - 10int / (m + 1)) > (m2 - n2) * 3 + (
        10int / (n2 + 1) - 10int / (m2 + 1)),
{
    vstd::arithmetic::div_mod::lemma_div_is_ordered_by_denominator(10, m2 + 1, m + 1);
    vstd::arithmetic::div_mod::lemma_div_is_ordered_by_denominator(10, n + 1, n2 + 1);
}

/// Positions `(p, e)` and `(p2, e2)` that agree on every count the evaluation reads
/// except the legal moves: stones, corner stones and stones next to a corner, for
/// both sides.
pub open spec fn same_material(p: u64, e: u64, p2: u64, e2: u64) -> bool {
    &&& stone_count(p) == stone_count(p2)
    &&& stone_count(e) == stone_count(e2)
    &&& stone_count(p & CORNER) == stone_count(p2 & CORNER)
    &&& stone_count(e & CORNER) == stone_count(e2 & CORNER)
    &&& stone_count(p & NEXT_TO_CORNER) == stone_count(p2 & NEXT_TO_CORNER)
    &&& stone_count(e & NEXT_TO_CORNER) == stone_count(e2 & NEXT_TO_CORNER)
}

/// Before move 50 the evaluation rewards mobility: between positions with the same
/// material, more legal moves for the mover and fewer for the opponent never score
/// lower, and score strictly higher when either count changes.
pub proof fn lemma_evaluation_rewards_mobility(p: u64, e: u64, p2: u64, e2: u64, turn: int)
    requires
        0 < turn < 50,
        same_material(p, e, p2, e2),
        stone_count(legal_board(p, e)) >= stone_count(legal_board(p2, e2)),
        stone_count(legal_board(e, p)) <= stone_count(legal_board(e2, p2)),
    ensures
        evaluation(p, e, turn) >= evaluation(p2, e2, turn),
        (stone_count(legal_board(p, e)) > stone_count(legal_board(p2, e2)) || stone_count(
            legal_board(e, p),
        ) < stone_count(legal_board(e2, p2))) ==> evaluation(p, e, turn) > evaluation(p2, e2, turn),
{
    lemma_mobility_order(
        stone_count(legal_board(p, e)) as int,
        stone_count(legal_board(e, p)) as int,
        stone_count(legal_board(p2, e2)) as int,
        stone_count(legal_board(e2, p2)) as int,
    );
}

/// Before move 50, against a position of the same material where both sides have
/// as many legal moves, a position scores higher exactly when the mover has more
/// legal moves than the opponent, the same exactly when they have as many, and lower
/// exactly when it has fewer.
pub proof fn lemma_evaluation_mobility_sign(p: u64, e: u64, p2: u64, e2: u64, turn: int)
    requires
        0 < turn < 50,
        same_material(p, e, p2, e2),
        stone_count(legal_board(p2, e2)) == stone_count(legal_board(e2, p2)),
    ensures
        (evaluation(p, e, turn) > evaluation(p2, e2, turn)) == (stone_count(legal_board(p, e))
            > stone_count(legal_board(e, p))),
        (evaluation(p, e, turn) == evaluation(p2, e2, turn)) == (stone_count(legal_board(p, e))
            == stone_count(legal_board(e, p))),
        (evaluation(p, e, turn) < evaluation(p2, e2, turn)) == (stone_count(legal_board(p, e))
            < stone_count(legal_board(e, p))),
{
    let m = stone_count(legal_board(p, e)) as int;
    let n = stone_count(legal_board(e, p)) as int;
    let k = stone_count(legal_board(p2, e2)) as int;
    let zero = (k - k) * 3 + (10int / (k + 1) - 10int / (k + 1));
    assert(zero == 0);
    if m > n {
        lemma_mobility_order(m, n, n, n);
    } else if m < n {
        lemma_mobility_order(m, m, m, n);
    }
}

/// Truncating division by 7 keeps the order of what it divides.
proof fn lemma_div_toward_zero_order(a: int, b: int)
    requires
        a <= b,
    ensures
        div_toward_zero(a, 7) <= div_toward_zero(b, 7),
{
    if a >= 0 {
        vstd::arithmetic::div_mod::lemma_div_is_ordered(a, b, 7);
    } else if b >= 0 {
    } else {
        vstd::arithmetic::div_mod::lemma_div_is_ordered(-b, -a, 7);
    }
}

/// Before move 50 corners are worth having: between positions that agree on
/// stones, stones next to a corner and legal moves, more corners for the mover and
/// fewer for the opponent never score lower, and score strictly higher when either
/// count changes.
pub proof fn lemma_evaluation_rewards_corners(p: u64, e: u64, p2: u64, e2: u64, turn: int)
    requires
        0 < turn < 50,
        stone_count(p) == stone_count(p2),
        stone_count(e) == stone_count(e2),
        stone_count(p & NEXT_TO_CORNER) == stone_count(p2 & NEXT_TO_CORNER),
        stone_count(e & NEXT_TO_CORNER) == stone_count(e2 & NEXT_TO_CORNER),
        stone_count(legal_board(p, e)) == stone_count(legal_board(p2, e2)),
        stone_count(legal_board(e, p)) == stone_count(legal_board(e2, p2)),
        stone_count(p & CORNER) >= stone_count(p2 & CORNER),
        stone_count(e & CORNER) <= stone_count(e2 & CORNER),
    ensures
        evaluation(p, e, turn) >= evaluation(p2, e2, turn),
        (stone_count(p & CORNER) > stone_count(p2 & CORNER) || stone_count(e & CORNER)
            < stone_count(e2 & CORNER)) ==> evaluation(p, e, turn) > evaluation(p2, e2, turn),
{
    let parameter: int = if turn < 35 {
        30
    } else {
        10
    };
    let x = stone_count(p & CORNER) as int - stone_count(e & CORNER) as int;
    let y = stone_count(p2 & CORNER) as int - stone_count(e2 & CORNER) as int;
    assert(parameter * x >= parameter * y) by (nonlinear_arith)
        requires
            parameter > 0,
            x >= y,
    ;
    assert(x > y ==> parameter * x > parameter * y) by (nonlinear_arith)
        requires
            parameter > 0,
    ;
}

/// Before move 50 the squares next to a corner are to be avoided: between
/// positions that agree on stones, corners and legal moves, fewer such stones for
/// the mover and more for the opponent never score lower.
pub proof fn lemma_evaluation_avoids_next_to_corner(p: u64, e: u64, p2: u64, e2: u64, turn: int)
    requires
        0 < turn < 50,
        stone_count(p) == stone_count(p2),
        stone_count(e) == stone_count(e2),
        stone_count(p & CORNER) == stone_count(p2 & CORNER),
        stone_count(e & CORNER) == stone_count(e2 & CORNER),
        stone_count(legal_board(p, e)) == stone_count(legal_board(p2, e2)),
        stone_count(legal_board(e, p)) == stone_count(legal_board(e2, p2)),
        stone_count(p & NEXT_TO_CORNER) <= stone_count(p2 & NEXT_TO_CORNER),
        stone_count(e & NEXT_TO_CORNER) >= stone_count(e2 & NEXT_TO_CORNER),
    ensures
        evaluation(p, e, turn) >= evaluation(p2, e2, turn),
{
    let parameter: int = if turn < 35 {
        30
    } else {
        10
    };
    let x = stone_count(e & NEXT_TO_CORNER) as int - stone_count(p & NEXT_TO_CORNER) as int;
    let y = stone_count(e2 & NEXT_TO_CORNER) as int - stone_count(p2 & NEXT_TO_CORNER) as int;
    assert(parameter * x >= parameter * y) by (nonlinear_arith)
        requires
            parameter > 0,
            x >= y,
    ;
    lemma_div_toward_zero_order(parameter * y, parameter * x);
}

/// Up to move 35 the evaluation prefers having fewer stones: between positions
/// that agree on everything else it reads, fewer own stones and more enemy stones
/// score strictly higher.
pub proof fn lemma_evaluation_early_fewer_stones(p: u64, e: u64, p2: u64, e2: u64, turn: int)
    requires
        0 < turn <= 35,
        stone_count(p & CORNER) == stone_count(p2 & CORNER),
        stone_count(e & CORNER) == stone_count(e2 & CORNER),
        stone_count(p & NEXT_TO_CORNER) == stone_count(p2 & NEXT_TO_CORNER),
        stone_count(e & NEXT_TO_CORNER) == stone_count(e2 & NEXT_TO_CORNER),
        stone_count(legal_board(p, e)) == stone_count(legal_board(p2, e2)),
        stone_count(legal_board(e, p)) == stone_count(legal_board(e2, p2)),
        (stone_count(p) - stone_count(e)) < (stone_count(p2) - stone_count(e2)),
    ensures
        evaluation(p, e, turn) > evaluation(p2, e2, turn),
{
}

/// A finished game (`turn == 0`) and a position from move 50 on are scored by the
/// stones alone: positive exactly when the mover has more, zero exactly when both
/// have as many, negative exactly when it has fewer; and a finished game that is
/// won scores above, and one that is lost below, every position still in play.
pub proof fn lemma_evaluation_by_stones(p: u64, e: u64, turn: int, p2: u64, e2: u64, t2: int)
    requires
        turn == 0 || turn >= 50,
        t2 != 0,
    ensures
        (evaluation(p, e, turn) > 0) == (stone_count(p) > stone_count(e)),
        (evaluation(p, e, turn) == 0) == (stone_count(p) == stone_count(e)),
        (evaluation(p, e, turn) < 0) == (stone_count(p) < stone_count(e)),
        turn == 0 && stone_count(p) > stone_count(e) ==> evaluation(p, e, 0) > evaluation(p2, e2, t2),
        turn == 0 && stone_count(p) < stone_count(e) ==> evaluation(p, e, 0) < evaluation(p2, e2, t2),
{
    lemma_evaluation_plain(p2, e2, t2);
}

/// Evaluates the position for `player_board`; `turn == 0` scores a finished game.
fn evaluate_board(player_board: u64, enemy_board: u64, turn: u8) -> (r: i32)
    ensures
        r == evaluation(player_board, enemy_board, turn as int),
        plain_score(r as int),
{
    let player_stone = count_stone(player_board);
    let enemy_stone = count_stone(enemy_board);
    proof {
        lemma_count_at_most_64(player_board);
        lemma_count_at_most_64(enemy_board);
    }
    if turn == 0 {
        if player_stone > enemy_stone {
            100000
        } else if player_stone < enemy_stone {
            -100000
        } else {
            0
        }
    } else {
        let legal = legal_move(player_board, enemy_board);
        let enemy_legal = legal_move(enemy_board, player_board);
        let legal_count = count_stone(legal);
        let enemy_legal_count = count_stone(enemy_legal);
        let player_corner = count_stone(player_board & CORNER);
        let enemy_corner = count_stone(enemy_board & CORNER);
        let enemy_next = count_stone(enemy_board & NEXT_TO_CORNER);
        let player_next = count_stone(player_board & NEXT_TO_CORNER);
        proof {
            lemma_count_at_most_64(legal);
            lemma_count_at_most_64(enemy_legal);
            lemma_count_at_most_64(player_board & CORNER);
            lemma_count_at_most_64(enemy_board & CORNER);
            lemma_count_at_most_64(enemy_board & NEXT_TO_CORNER);
            lemma_count_at_most_64(player_board & NEXT_TO_CORNER);
            lemma_corner_counts();
            lemma_count_and(player_board, CORNER);
            lemma_count_and(enemy_board, CORNER);
            lemma_count_and(player_board, NEXT_TO_CORNER);
            lemma_count_and(enemy_board, NEXT_TO_CORNER);
        }
        let corner_score = player_corner as i32 - enemy_corner as i32;
        let next_to_corner_score = enemy_next as i32 - player_next as i32;
        let parameter: i32 = if turn < 35 {
            30
        } else {
            10
        };
        assert(-120 <= parameter * corner_score <= 120) by (nonlinear_arith)
            requires
                parameter == 30 || parameter == 10,
                -4 <= corner_score <= 4,
        ;
        assert(-360 <= parameter * next_to_corner_score <= 360) by (nonlinear_arith)
            requires
                parameter == 30 || parameter == 10,
                -12 <= next_to_corner_score <= 12,
        ;
        assert(0 <= 10int / (enemy_legal_count + 1) <= 10);
        assert(0 <= 10int / (legal_count + 1) <= 10);
        if turn < 50 {
            (legal_count as i32 - enemy_legal_count as i32) * 3 + (10 / (enemy_legal_count + 1) as i32
                - 10 / (legal_count + 1) as i32) + parameter * corner_score + parameter
                * next_to_corner_score / 7 - if turn <= 35 {
                player_stone as i32 - enemy_stone as i32
            } else {
                0
            }
        } else {
            player_stone as i32 - enemy_stone as i32
        }
    }
}

/// The lowest stone of `x`, as `x & (!x + 1)` computes it.
pub open spec fn lowest_stone(x: u64) -> u64 {
    x & ((!x) + 1) as u64
}

proof fn lemma_lowest_stone_bits(x: u64, t: u64)
    by (bit_vector)
    requires
        x != 0,
        t < 64,
    ensures
        (((x & ((!x) + 1) as u64) >> t) & 1 == 1) == (((x >> t) & 1 == 1) && (x & (((1u64 << t)
            - 1) as u64)) == 0),
{
}

proof fn lemma_low_mask_bits(t: u64, j: u64)
    by (bit_vector)
    requires
        t < 64,
        j < 64,
    ensures
        ((((1u64 << t) - 1) as u64 >> j) & 1 == 1) == (j < t),
{
}

/// The lowest stone of a non-empty board is its lowest bit.
pub proof fn lemma_lowest_stone(x: u64)
    requires
        x != 0,
    ensures
        exists|i: int| #[trigger] low_bit(x, i),
        forall|i: int| #[trigger] low_bit(x, i) ==> only_bit(lowest_stone(x), i),
{
    assert forall|t: int| 0 <= t < 64 implies #[trigger] bit(lowest_stone(x), t) == low_bit(x, t) by {
        let tt = t as u64;
        lemma_lowest_stone_bits(x, tt);
        let lm = ((1u64 << tt) - 1) as u64;
        lemma_bit_and(x, lm);
        lemma_zero_iff_no_bit(x & lm);
        assert forall|j: int| 0 <= j < 64 implies #[trigger] bit(lm, j) == (j < t) by {
            lemma_low_mask_bits(tt, j as u64);
        }
        if low_bit(x, t) {
            assert forall|j: int| 0 <= j < 64 implies !#[trigger] bit(x & lm, j) by {
                if j < t {
                    assert(!bit(x, j));
                }
            }
        }
        if bit(lowest_stone(x), t) {
            assert forall|j: int| 0 <= j < t implies !#[trigger] bit(x, j) by {
                assert(!bit(x & lm, j));
            }
        }
    }
    lemma_zero_iff_no_bit(x);
    let i0 = choose|i: int| 0 <= i < 64 && #[trigger] bit(x, i);
    lemma_least_set_bit(x, i0);
    assert forall|i: int| #[trigger] low_bit(x, i) implies only_bit(lowest_stone(x), i) by {
        assert forall|t: int| #[trigger] bit(lowest_stone(x), t) == (t == i) by {
            if 0 <= t < 64 && low_bit(x, t) && t != i {
                if t < i {
                    assert(!bit(x, t));
                } else {
                    assert(!bit(x, i));
                }
            }
        }
    }
}

/// Some set bit of `x` at or below `i` is its lowest.
proof fn lemma_least_set_bit(x: u64, i: int)
    requires
        bit(x, i),
    ensures
        exists|k: int| #[trigger] low_bit(x, k),
    decreases i,
{
    if !low_bit(x, i) {
        let j = choose|j: int| 0 <= j < i && #[trigger] bit(x, j);
        lemma_least_set_bit(x, j);
    }
}

pub proof fn lemma_and_not_le(x: u64, y: u64)
    by (bit_vector)
    ensures
        (x & !y) <= x,
{
}

pub proof fn lemma_remove_lowest_lt(x: u64)
    by (bit_vector)
    requires
        x != 0,
    ensures
        (x & !(x & ((!x) + 1) as u64)) < x,
{
}

/// The value, best line and node count that the search below reaches: at the end of
/// the game or at depth 0 the position is evaluated; a side without moves passes;
/// otherwise the moves are tried, the first one from the hint (the last entry of
/// `hint`) or else the lowest, then the lowest ones left, until one reaches `limit`,
/// none is left, or more than `node_limit` nodes were visited (score 1234, no line).
/// Scores are returned negated, for the side that moved last.
pub open spec fn search(
    depth: nat,
    p: u64,
    e: u64,
    limit: int,
    hint: Seq<u64>,
    turn: int,
    node_limit: int,
) -> (int, Seq<u64>, int)
    decreases depth, 1int, 0int, 0int,
{
    let legal = legal_board(p, e);
    if legal == 0 && legal_board(e, p) == 0 {
        (-evaluation(p, e, 0), seq![0u64, 0u64], 1)
    } else if depth == 0 {
        (-evaluation(p, e, turn), Seq::<u64>::empty(), 1)
    } else {
        let rest = if hint.len() > 0 {
            hint.drop_last()
        } else {
            hint
        };
        if legal == 0 {
            let child = search(
                (depth - 1) as nat,
                e,
                p,
                if limit == 1000000 {
                    limit
                } else {
                    -limit
                },
                rest,
                turn,
                node_limit,
            );
            (-child.0, child.1.push(0u64), child.2 + 1)
        } else {
            let first_move = if hint.len() > 0 {
                hint.last()
            } else {
                lowest_stone(legal)
            };
            search_moves(
                depth,
                p,
                e,
                limit,
                rest,
                turn,
                node_limit,
                legal,
                first_move,
                true,
                -1000000,
                Seq::<u64>::empty(),
                1,
            )
        }
    }
}

/// The move loop of `search`, from a state where the moves of `legal` are left to
/// try (the next one is `first_move` on the first round, then the lowest left), the
/// best value so far is `val` with line `best`, and `nodes` nodes were visited.
pub open spec fn search_moves(
    depth: nat,
    p: u64,
    e: u64,
    limit: int,
    rest: Seq<u64>,
    turn: int,
    node_limit: int,
    legal: u64,
    first_move: u64,
    first: bool,
    val: int,
    best: Seq<u64>,
    nodes: int,
) -> (int, Seq<u64>, int)
    decreases depth, 0int, legal as int, if first {
        1int
    } else {
        0int
    },
{
    if depth == 0 {
        (-val, best, nodes)
    } else {
        let next_move = if first {
            first_move
        } else {
            lowest_stone(legal)
        };
        let boards = next_boards(p, e, next_move);
        let child = search(
            (depth - 1) as nat,
            boards.1,
            boards.0,
            -val,
            if first {
                rest
            } else {
                Seq::<u64>::empty()
            },
            turn,
            node_limit,
        );
        let total = nodes + child.2;
        if total > node_limit {
            (1234, Seq::<u64>::empty(), total)
        } else {
            let val2 = if child.0 > val {
                child.0
            } else {
                val
            };
            let best2 = if child.0 > val {
                child.1.push(next_move)
            } else {
                best
            };
            let legal2 = legal & !next_move;
            if val2 >= limit || legal2 == 0 {
                (-val2, best2, total)
            } else {
                proof {
                    lemma_and_not_le(legal, next_move);
                    if !first && legal != 0 {
                        lemma_remove_lowest_lt(legal);
                    }
                }
                search_moves(
                    depth,
                    p,
                    e,
                    limit,
                    rest,
                    turn,
                    node_limit,
                    legal2,
                    first_move,
                    false,
                    val2,
                    best2,
                    total,
                )
            }
        }
    }
}

/// The first move of a hint (its last entry) may be played, when any move may.
pub open spec fn hint_fits(hint: Seq<u64>, p: u64, e: u64) -> bool {
    hint.len() == 0 || legal_board(p, e) == 0 || is_legal_stone(hint.last(), p, e)
}

/// The first move of a line (its last entry) is a legal move of `p`, or a pass
/// (0) when `p` has none.
pub open spec fn line_fits(line: Seq<u64>, p: u64, e: u64) -> bool {
    line.len() >= 1 && if legal_board(p, e) != 0 {
        is_legal_stone(line.last(), p, e)
    } else {
        line.last() == 0
    }
}

/// A single stone of the board of legal squares is a legal stone.
proof fn lemma_stone_of_legal(legal: u64, m: u64, i: int, p: u64, e: u64)
    requires
        is_legal_board(legal, p, e),
        bit(legal, i),
        only_bit(m, i),
    ensures
        is_legal_stone(m, p, e),
{
    lemma_only_bit_square(m, i);
    lemma_square_of_index(i);
    let l = line_of(i);
    let c = column_of(i);
    assert(stone_at(legal, l, c));
    assert(is_legal_square(p, e, l, c));
}

/// The lowest stone of a non-empty part of the legal board is a legal stone, and it
/// stands on that part.
proof fn lemma_lowest_legal(legal: u64, part: u64, p: u64, e: u64)
    requires
        is_legal_board(legal, p, e),
        part != 0,
        forall|t: int| #[trigger] bit(part, t) ==> bit(legal, t),
    ensures
        is_legal_stone(lowest_stone(part), p, e),
        exists|i: int| only_bit(lowest_stone(part), i) && #[trigger] bit(part, i),
{
    lemma_lowest_stone(part);
    let i = choose|i: int| #[trigger] low_bit(part, i);
    assert(only_bit(lowest_stone(part), i));
    assert(bit(part, i));
    lemma_stone_of_legal(legal, lowest_stone(part), i, p, e);
}

proof fn lemma_not_of_nonzero(x: u64)
    by (bit_vector)
    requires
        x != 0,
    ensures
        !x < 0xffff_ffff_ffff_ffffu64,
{
}

proof fn lemma_node_bound(d: int, n: int)
    by (nonlinear_arith)
    requires
        0 <= d <= 255,
        0 <= n <= 0x007f_ffff_ffff_ffff,
    ensures
        (d + 1) * (n + 2) == d * (n + 2) + (n + 2),
        (d + 1) * (n + 2) <= 256 * (n + 2),
        d * (n + 2) >= 0,
        256 * (n + 2) < 0xffff_ffff_ffff_ffff,
{
}

/// Depth-limited negamax search with cut-off at `limit` and a budget of
/// `node_limit` nodes; returns the negated value, the best line (first move last)
/// and the number of nodes visited.
fn negamax(
    depth: u8,
    player_board: u64,
    enemy_board: u64,
    limit: i32,
    former_best_moves: Vec<u64>,
    turn: u8,
    node_limit: u64,
) -> (r: (i32, Vec<u64>, u64))
    requires
        i32::MIN < limit,
        node_limit <= 0x007f_ffff_ffff_ffff,
    ensures
        (r.0 as int, r.1@, r.2 as int) == search(
            depth as nat,
            player_board,
            enemy_board,
            limit as int,
            former_best_moves@,
            turn as int,
            node_limit as int,
        ),
        plain_score(r.0 as int) || r.0 == 1234 || r.0 == -1234,
        (r.0 == 1234 || r.0 == -1234) ==> r.2 > node_limit,
        1 <= r.2 <= (depth as int + 1) * (node_limit as int + 2),
        depth == 0 ==> r.2 == 1,
        depth == 1 ==> r.2 <= 66,
        depth >= 1 ==> (r.1@.len() >= 1 || (r.0 == 1234 && r.2 > node_limit)),
        depth >= 1 && r.1@.len() >= 1 && hint_fits(former_best_moves@, player_board, enemy_board)
            ==> line_fits(r.1@, player_board, enemy_board),
    decreases depth,
{
    let ghost hint0 = former_best_moves@;
    let ghost target = search(
        depth as nat,
        player_board,
        enemy_board,
        limit as int,
        hint0,
        turn as int,
        node_limit as int,
    );
    let mut hints = former_best_moves;
    assert(hints@ =~= hint0);
    let mut current_best_moves: Vec<u64> = Vec::new();
    let mut val: i32 = -1000000;
    let mut legal = legal_move(player_board, enemy_board);
    let ghost lb = legal;
    proof {
        lemma_node_bound(depth as int, node_limit as int);
    }
    if legal == 0 && legal_move(enemy_board, player_board) == 0 {
        val = evaluate_board(player_board, enemy_board, 0);
        let line = vec![0, 0];
        assert(line@ =~= seq![0u64, 0u64]);
        (-val, line, 1)
    } else if depth == 0 {
        val = evaluate_board(player_board, enemy_board, turn);
        (-val, current_best_moves, 1)
    } else {
        let mut cur_nodes: u64 = 1;
        if legal == 0 {
            let _popped = hints.pop();
            assert(hints@ =~= (if hint0.len() > 0 {
                hint0.drop_last()
            } else {
                hint0
            }));
            let child_limit = if limit == 1000000 {
                limit
            } else {
                -limit
            };
            let (v, mut moves, new_nodes) = negamax(
                depth - 1,
                enemy_board,
                player_board,
                child_limit,
                hints,
                turn,
                node_limit,
            );
            moves.push(0);
            (-v, moves, new_nodes + 1)
        } else {
            let popped_move = hints.pop();
            let ghost rest = hints@;
            assert(rest =~= (if hint0.len() > 0 {
                hint0.drop_last()
            } else {
                hint0
            }));
            let mut first_loop = true;
            proof {
                lemma_not_of_nonzero(legal);
            }
            let mut next_move = match popped_move {
                None => legal & (!legal + 1),
                Some(m) => m,
            };
            let ghost first_move = next_move;
            proof {
                lemma_lowest_legal(lb, legal, player_board, enemy_board);
                crate::popcount::lemma_count_at_most_64(legal);
            }
            loop
                invariant_except_break
                    legal != 0,
                    hint_fits(hint0, player_board, enemy_board) ==> is_legal_stone(
                        next_move,
                        player_board,
                        enemy_board,
                    ),
                    forall|t: int| #[trigger] bit(legal, t) ==> bit(lb, t),
                    next_move == if first_loop {
                        first_move
                    } else {
                        lowest_stone(legal)
                    },
                    first_loop ==> legal == lb && val == -1000000 && current_best_moves@.len()
                        == 0 && cur_nodes == 1,
                    !first_loop ==> plain_score(val as int) && current_best_moves@.len() >= 1 && (
                    hint_fits(hint0, player_board, enemy_board) ==> is_legal_stone(
                        current_best_moves@.last(),
                        player_board,
                        enemy_board,
                    )),
                    -1000000 <= val <= 1000000,
                    1 <= cur_nodes <= node_limit + 1,
                    depth == 1 ==> cur_nodes + crate::popcount::stone_count(legal) + (if first_loop {
                        1int
                    } else {
                        0int
                    }) <= 66,
                    search_moves(
                        depth as nat,
                        player_board,
                        enemy_board,
                        limit as int,
                        rest,
                        turn as int,
                        node_limit as int,
                        legal,
                        first_move,
                        first_loop,
                        val as int,
                        current_best_moves@,
                        cur_nodes as int,
                    ) == target,
                invariant
                    1 <= depth,
                    i32::MIN < limit,
                    node_limit <= 0x007f_ffff_ffff_ffff,
                    lb == legal_board(player_board, enemy_board),
                    is_legal_board(lb, player_board, enemy_board),
                    lb != 0,
                    hints@ == rest,
                    former_best_moves@ == hint0,
                    target == search(
                        depth as nat,
                        player_board,
                        enemy_board,
                        limit as int,
                        hint0,
                        turn as int,
                        node_limit as int,
                    ),
                    hint_fits(hint0, player_board, enemy_board) ==> is_legal_stone(
                        first_move,
                        player_board,
                        enemy_board,
                    ),
                ensures
                    (-(val as int), current_best_moves@, cur_nodes as int) == target,
                    plain_score(val as int),
                    current_best_moves@.len() >= 1,
                    hint_fits(hint0, player_board, enemy_board) ==> is_legal_stone(
                        current_best_moves@.last(),
                        player_board,
                        enemy_board,
                    ),
                    1 <= cur_nodes <= node_limit,
                    depth == 1 ==> cur_nodes <= 66,
                decreases legal, if first_loop {
                    1int
                } else {
                    0int
                },
            {
                proof {
                    lemma_node_bound(depth as int, node_limit as int);
                    lemma_node_bound(depth as int - 1, node_limit as int);
                    crate::popcount::lemma_count_zero(legal);
                }
                let (next_player_board, next_enemy_board) = next_board(
                    player_board,
                    enemy_board,
                    next_move,
                );
                let hint = if first_loop {
                    hints.clone()
                } else {
                    Vec::new()
                };
                assert(hint@ =~= (if first_loop {
                    rest
                } else {
                    Seq::<u64>::empty()
                }));
                let ghost cur0 = cur_nodes as int;
                let ghost val0 = val as int;
                let ghost best0 = current_best_moves@;
                let ghost legal0 = legal;
                let ghost first0 = first_loop;
                let (v, mut best_moves, new_nodes) = negamax(
                    depth - 1,
                    next_enemy_board,
                    next_player_board,
                    -val,
                    hint,
                    turn,
                    node_limit,
                );
                proof {
                    let child = search(
                        (depth as nat - 1) as nat,
                        next_enemy_board,
                        next_player_board,
                        -val0,
                        if first0 {
                            rest
                        } else {
                            Seq::<u64>::empty()
                        },
                        turn as int,
                        node_limit as int,
                    );
                    assert((depth - 1) as u8 as nat == (depth as nat - 1) as nat);
                    assert((v as int, best_moves@, new_nodes as int) == child);
                    assert(next_boards(player_board, enemy_board, next_move) == (
                        next_player_board,
                        next_enemy_board,
                    ));
                }
                cur_nodes = cur_nodes + new_nodes;
                if cur_nodes > node_limit {
                    proof {
                        assert(search_moves(
                            depth as nat,
                            player_board,
                            enemy_board,
                            limit as int,
                            rest,
                            turn as int,
                            node_limit as int,
                            legal0,
                            first_move,
                            first0,
                            val0,
                            best0,
                            cur0,
                        ) == (1234int, Seq::<u64>::empty(), cur_nodes as int));
                    }
                    let empty: Vec<u64> = Vec::new();
                    assert(empty@ =~= Seq::<u64>::empty());
                    return (1234, empty, cur_nodes);
                }
                if v > val {
                    val = v;
                    best_moves.push(next_move);
                    current_best_moves = best_moves;
                }
                if val >= limit {
                    break;
                }
                let ghost old_legal = legal;
                let ghost was_first = first_loop;
                first_loop = false;
                legal = legal & !next_move;
                proof {
                    lemma_bit_and(old_legal, !next_move);
                    crate::popcount::lemma_count_and(old_legal, !next_move);
                    lemma_and_not_le(old_legal, next_move);
                    if !was_first {
                        lemma_remove_lowest_lt(old_legal);
                        lemma_lowest_legal(lb, old_legal, player_board, enemy_board);
                        let i = choose|i: int| only_bit(lowest_stone(old_legal), i) && #[trigger] bit(old_legal, i);
                        lemma_count_remove(old_legal, next_move, i);
                    }
                }
                if legal == 0 {
                    break;
                } else {
                    proof {
                        lemma_not_of_nonzero(legal);
                    }
                    next_move = legal & (!legal + 1);
                    proof {
                        lemma_lowest_legal(lb, legal, player_board, enemy_board);
                    }
                }
            }
            (-val, current_best_moves, cur_nodes)
        }
    }
}

/// Iterative deepening from depth `depth` up to `max_depth`: each round searches
/// with the previous best line as hint and a budget of ten times `nodes_limit`, and
/// the rounds stop early once one visits more than `nodes_limit` nodes. Gives the
/// last score, the last best line, and the best line of the round before it.
pub open spec fn deepen(
    p: u64,
    e: u64,
    turn: int,
    depth: nat,
    max_depth: nat,
    nodes_limit: int,
    score: int,
    best: Seq<u64>,
    former: Seq<u64>,
) -> (int, Seq<u64>, Seq<u64>)
    decreases max_depth + 1 - depth,
{
    if depth > max_depth {
        (score, best, former)
    } else {
        let res = search(depth, p, e, 1000000, best, turn, nodes_limit * 10);
        if res.2 > nodes_limit {
            (res.0, res.1, best)
        } else {
            deepen(p, e, turn, depth + 1, max_depth, nodes_limit, res.0, res.1, best)
        }
    }
}

/// The move kept after iterative deepening: when the last round ran out of nodes
/// (score 1234 either way), the first move of the round before; otherwise the first
/// move of the last round.
pub open spec fn picked_move(result: (int, Seq<u64>, Seq<u64>)) -> u64 {
    if result.0 == 1234 || result.0 == -1234 {
        result.2.last()
    } else {
        result.1.last()
    }
}

/// The move chosen at move number `turn` with `time_left` (ms) on the clock. Before
/// the last 16 moves: iterative deepening to depth 9 (11 after move 35). In the last
/// 16 moves: a search to the end with a node budget from the clock; if it does not
/// show a win, its first move; otherwise iterative deepening to at most depth 11.
pub open spec fn ai_choice(p: u64, e: u64, turn: int, time_left: int) -> u64 {
    if turn < 60 - END_SEARCH {
        let max_depth: nat = if turn <= 20 {
            9
        } else if turn <= 35 {
            9
        } else {
            11
        };
        let nodes_limit: int = if turn <= 35 {
            4000000
        } else {
            6000000
        };
        picked_move(deepen(p, e, turn, 1, max_depth, nodes_limit, 0, Seq::empty(), Seq::empty()))
    } else {
        let budget = if time_left * 6000 < 180000000 {
            time_left * 6000
        } else {
            180000000
        };
        let res = search(100, p, e, 1000000, Seq::empty(), turn, budget);
        if res.0 <= 0 {
            res.1.last()
        } else {
            let max_depth: nat = if turn < 57 {
                if 11 < 60 - turn - 2 {
                    11
                } else {
                    (60 - turn - 2) as nat
                }
            } else {
                1
            };
            picked_move(deepen(p, e, turn, 1, max_depth, 5000000, res.0, res.1, Seq::empty()))
        }
    }
}

/// The best line satisfies what a hint needs.
proof fn lemma_line_fits_hint(line: Seq<u64>, p: u64, e: u64)
    requires
        line.len() == 0 || line_fits(line, p, e),
    ensures
        hint_fits(line, p, e),
{
}

/// Runs the rounds of iterative deepening from depth 1 (see `deepen`).
fn deepen_rounds(
    player_board: u64,
    enemy_board: u64,
    turn: u8,
    max_depth: u8,
    nodes_limit: u64,
    score: i32,
    best_moves: Vec<u64>,
) -> (r: (i32, Vec<u64>, Vec<u64>))
    requires
        1 <= max_depth <= 11,
        66 <= nodes_limit <= 10000000,
        best_moves@.len() == 0 || line_fits(best_moves@, player_board, enemy_board),
    ensures
        (r.0 as int, r.1@, r.2@) == deepen(
            player_board,
            enemy_board,
            turn as int,
            1,
            max_depth as nat,
            nodes_limit as int,
            score as int,
            best_moves@,
            Seq::empty(),
        ),
        if r.0 == 1234 || r.0 == -1234 {
            line_fits(r.2@, player_board, enemy_board)
        } else {
            line_fits(r.1@, player_board, enemy_board)
        },
{
    let ghost target = deepen(
        player_board,
        enemy_board,
        turn as int,
        1,
        max_depth as nat,
        nodes_limit as int,
        score as int,
        best_moves@,
        Seq::empty(),
    );
    let mut score = score;
    let mut best_moves = best_moves;
    let mut former_best_moves: Vec<u64> = Vec::new();
    let mut depth: u8 = 1;
    assert(former_best_moves@ =~= Seq::<u64>::empty());
    loop
        invariant_except_break
            1 <= depth <= max_depth + 1,
            depth > 1 ==> line_fits(best_moves@, player_board, enemy_board) && !(score == 1234
                || score == -1234),
            depth == 1 ==> (best_moves@.len() == 0 || line_fits(
                best_moves@,
                player_board,
                enemy_board,
            )),
            deepen(
                player_board,
                enemy_board,
                turn as int,
                depth as nat,
                max_depth as nat,
                nodes_limit as int,
                score as int,
                best_moves@,
                former_best_moves@,
            ) == target,
        invariant
            1 <= max_depth <= 11,
            66 <= nodes_limit <= 10000000,
        ensures
            (score as int, best_moves@, former_best_moves@) == target,
            if score == 1234 || score == -1234 {
                line_fits(former_best_moves@, player_board, enemy_board)
            } else {
                line_fits(best_moves@, player_board, enemy_board)
            },
        decreases max_depth + 1 - depth,
    {
        if depth > max_depth {
            break;
        }
        former_best_moves = best_moves;
        let hint = former_best_moves.clone();
        assert(hint@ =~= former_best_moves@);
        proof {
            lemma_line_fits_hint(former_best_moves@, player_board, enemy_board);
        }
        let (s, b, nodes) = negamax(
            depth,
            player_board,
            enemy_board,
            1000000,
            hint,
            turn,
            nodes_limit * 10,
        );
        score = s;
        best_moves = b;
        if nodes > nodes_limit {
            break;
        }
        depth = depth + 1;
    }
    (score, best_moves, former_best_moves)
}

/// The move to play at move number `turn` with `time_left` ms on the clock: the
/// stone of a legal square, or 0 (a pass) when there is none.
pub fn ai_play(player_board: u64, enemy_board: u64, turn: u8, time_left: u64) -> (r: u64)
    requires
        turn < 60 - END_SEARCH || time_left <= u64::MAX / 6000,
    ensures
        r == ai_choice(player_board, enemy_board, turn as int, time_left as int),
        legal_board(player_board, enemy_board) != 0 ==> is_legal_stone(
            r,
            player_board,
            enemy_board,
        ),
        legal_board(player_board, enemy_board) == 0 ==> r == 0,
{
    if turn < 60 - END_SEARCH {
        let max_depth: u8 = if turn <= 20 {
            9
        } else if turn <= 35 {
            9
        } else {
            11
        };
        let nodes_limit: u64 = if turn <= 35 {
            4000000
        } else {
            6000000
        };
        let start: Vec<u64> = Vec::new();
        assert(start@ =~= Seq::<u64>::empty());
        let (score, mut best_moves, mut former_best_moves) = deepen_rounds(
            player_board,
            enemy_board,
            turn,
            max_depth,
            nodes_limit,
            0,
            start,
        );
        if score == 1234 || score == -1234 {
            former_best_moves.pop().unwrap()
        } else {
            best_moves.pop().unwrap()
        }
    } else {
        let budget: u64 = if time_left * 6000 < 180000000 {
            time_left * 6000
        } else {
            180000000
        };
        let start: Vec<u64> = Vec::new();
        assert(start@ =~= Seq::<u64>::empty());
        let (score, mut best_moves, _nodes) = negamax(
            100,
            player_board,
            enemy_board,
            1000000,
            start,
            turn,
            budget,
        );
        if score <= 0 {
            best_moves.pop().unwrap()
        } else {
            let max_depth: u8 = if turn < 57 {
                if 11 < 60 - turn - 2 {
                    11
                } else {
                    60 - turn - 2
                }
            } else {
                1
            };
            let nodes_limit: u64 = 5000000;
            let (score, mut best_moves, mut former_best_moves) = deepen_rounds(
                player_board,
                enemy_board,
                turn,
                max_depth,
                nodes_limit,
                score,
                best_moves,
            );
            if score == 1234 || score == -1234 {
                former_best_moves.pop().unwrap()
            } else {
                best_moves.pop().unwrap()
            }
        }
    }
}

/// A typed move: at least two characters, the first at or above `'A'` and the
/// second at or above `'1'` (comparing the low bytes of their codes).
pub open spec fn human_text_ok(t: Seq<char>) -> bool {
    t.len() >= 2 && char_byte(t[0]) >= 65 && char_byte(t[1]) >= 49
}

/// A typed move that names a distance from "A1" within the board, or that is
/// rejected anyway.
pub open spec fn human_text_fits(t: Seq<char>) -> bool {
    human_text_ok(t) ==> text_offset(t) <= 63
}

/// Whether a typed line can be read without going past the board.
pub fn human_move_fits(text: &String) -> (b: bool)
    ensures
        b == human_text_fits(text@),
{
    let s = text.as_str();
    let n = s.unicode_len();
    if n < 2 {
        return true;
    }
    let first_code = s.get_char(0) as u32;
    let second_code = s.get_char(1) as u32;
    let column = #[verifier::truncate] (first_code as u8);
    let line = #[verifier::truncate] (second_code as u8);
    proof {
        crate::rule::lemma_low_byte(first_code);
        crate::rule::lemma_low_byte(second_code);
    }
    if column < 65 || line < 49 {
        return true;
    }
    (column as u64 - 65) + (line as u64 - 49) * 8 <= 63
}

/// The stone that a typed line names, the way a human player types a move: its
/// first two characters are a column letter and a line digit. `None` when the line
/// is too short or the characters lie below `'A'` and `'1'`.
pub fn read_human_move(text: &String) -> (r: Option<u64>)
    requires
        human_text_fits(text@),
    ensures
        human_text_ok(text@) ==> r == Some(1u64 << ((63 - text_offset(text@)) as u64)),
        !human_text_ok(text@) ==> r is None,
{
    let s = text.as_str();
    let n = s.unicode_len();
    if n < 2 {
        return None;
    }
    let first_code = s.get_char(0) as u32;
    let second_code = s.get_char(1) as u32;
    let column = #[verifier::truncate] (first_code as u8);
    let line = #[verifier::truncate] (second_code as u8);
    proof {
        crate::rule::lemma_low_byte(first_code);
        crate::rule::lemma_low_byte(second_code);
    }
    if (column >= 'A' as u8) && (line >= '1' as u8) {
        let shift = (column - 'A' as u8) + (line - '1' as u8) * 8;
        Some(1u64 << ((63 - shift) as u64))
    } else {
        None
    }
}

} // verus!
