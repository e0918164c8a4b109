//! What the bitboard operations mean on the board: a move turns over exactly the
//! enclosed stones, and a square is legal exactly when playing there turns some over.
use vstd::prelude::*;
use crate::bits::{
    bit,
    shifted,
    lemma_bit_and,
    lemma_bit_or,
    lemma_bit_not,
    lemma_bit_shifted,
    lemma_zero_iff_no_bit,
    lemma_single_bit,
};
use crate::board::{
    on_board,
    square_index,
    stone_at,
    empty_square,
    is_direction,
    flanked,
    captures,
    is_legal_square,
    on_walk,
    turned_in_direction,
    turned,
    square_board,
    square_name,
    pass_text,
    top_bit,
    char_byte,
    text_offset,
    is_move_text,
    encoded_move,
    is_shift,
    shift_dl,
    shift_dc,
    direction_mask,
    line_of,
    column_of,
    lemma_square_of_index,
    lemma_index_of_square,
    lemma_square_index_injective,
    lemma_shift_direction,
    lemma_direction_shift,
    lemma_direction_mask,
    lemma_flanked_reach,
};
use crate::popcount::{bits_below, stone_count};
use crate::rule::{
    next_boards,
    steps,
    first_gap,
    swept,
    reversed_in_direction,
    flipped_upto,
    flipped,
    shift_at,
    is_legal_stone,
    game_over,
    direction_rank,
    lemma_shift_at,
    lemma_direction_rank,
};

verus! {

/// Board `b` holds a single stone, on square `(l, c)`.
spec fn single_at(b: u64, l: int, c: int) -> bool {
    on_board(l, c) && forall|t: int| #[trigger] bit(b, t) == (t == square_index(l, c))
}

proof fn lemma_square_board(l: int, c: int)
    requires
        on_board(l, c),
    ensures
        single_at(square_board(l, c), l, c),
{
    lemma_index_of_square(l, c);
    lemma_single_bit(square_index(l, c) as u64);
}

/// A board with one stone meets `x` exactly when `x` holds that square.
proof fn lemma_single_and(b: u64, x: u64, l: int, c: int)
    requires
        single_at(b, l, c),
    ensures
        (b & x != 0) == stone_at(x, l, c),
{
    lemma_bit_and(b, x);
    lemma_zero_iff_no_bit(b & x);
    lemma_index_of_square(l, c);
    if stone_at(x, l, c) {
        assert(bit(b & x, square_index(l, c)));
    }
}

/// Moving a single stone one step by shift `s`: it lands one square further in
/// the walking direction, or, when that square is off the board, nowhere inside
/// the mask of `s`.
proof fn lemma_step_from_single(m: u64, s: int, n: nat, l: int, c: int, x: u64)
    requires
        is_shift(s),
        single_at(steps(m, s, n), l, c),
    ensures
        on_board(l - shift_dl(s), c - shift_dc(s)) ==> single_at(
            steps(m, s, n + 1),
            l - shift_dl(s),
            c - shift_dc(s),
        ),
        !on_board(l - shift_dl(s), c - shift_dc(s)) ==> (steps(m, s, n + 1) & (x
            & direction_mask(s))) == 0,
{
    let dl = shift_dl(s);
    let dc = shift_dc(s);
    let b = steps(m, s, n);
    let b1 = steps(m, s, n + 1);
    lemma_shift_direction(s);
    lemma_direction_mask(s);
    lemma_bit_shifted(b, s);
    assert(b1 == shifted(b, s));
    assert(square_index(l - dl + dl, c - dc + dc) == square_index(l - dl, c - dc) + s);
    assert(l - dl + dl == l && c - dc + dc == c);
    if on_board(l - dl, c - dc) {
        assert forall|t: int| #[trigger] bit(b1, t) == (t == square_index(l - dl, c - dc)) by {
            lemma_index_of_square(l - dl, c - dc);
        }
    } else {
        {
            lemma_bit_and(b1, x & direction_mask(s));
            lemma_bit_and(x, direction_mask(s));
            assert forall|t: int| 0 <= t < 64 implies !#[trigger] bit(
                b1 & (x & direction_mask(s)),
                t,
            ) by {
                if bit(b1, t) && bit(direction_mask(s), t) {
                    lemma_square_of_index(t);
                    let l2 = line_of(t);
                    let c2 = column_of(t);
                    assert(stone_at(direction_mask(s), l2, c2));
                    assert(on_board(l2 + dl, c2 + dc));
                    assert(square_index(l2 + dl, c2 + dc) == t + s);
                    lemma_square_index_injective(l2 + dl, c2 + dc, l, c);
                    assert(false);
                }
            }
            lemma_zero_iff_no_bit(b1 & (x & direction_mask(s)));
        }
    }
}

/// A stone left on the board has moved fewer than 64 steps.
proof fn lemma_steps_alive(m: u64, s: int, n: nat, l: int, c: int)
    requires
        is_shift(s),
        single_at(steps(m, s, n), l, c),
    ensures
        n < 64,
{
    if n >= 64 {
        crate::rule::lemma_steps_vanish(m, s, n);
        lemma_index_of_square(l, c);
        assert(bit(steps(m, s, n), square_index(l, c)));
        lemma_zero_iff_no_bit(0);
    }
}

/// The masked stones of `e`, on which a walk in the direction of shift `s` may go on.
spec fn walkable(e: u64, s: int) -> u64 {
    e & direction_mask(s)
}

/// Following one stone of a move from the square `(l, c)` it has reached after `j`
/// steps (coming from the square before it): `p` encloses `k` stones of `e` from
/// there exactly when the scan stops `k` steps later on a stone of `p`; and then the
/// scan has collected exactly those `k` stones.
proof fn lemma_walk_tail(p: u64, e: u64, m: u64, s: int, j: nat, l: int, c: int, k: nat)
    requires
        is_shift(s),
        p & e == 0,
        j >= 1,
        k >= 1,
        single_at(steps(m, s, j), l, c),
        on_board(l + shift_dl(s), c + shift_dc(s)),
    ensures
        flanked(p, e, l + shift_dl(s), c + shift_dc(s), -shift_dl(s), -shift_dc(s), k) == (
        first_gap(walkable(e, s), m, s, j) == j + k && steps(m, s, j + k) & p != 0),
        flanked(p, e, l + shift_dl(s), c + shift_dc(s), -shift_dl(s), -shift_dc(s), k)
            ==> forall|l2: int, c2: int|
            on_board(l2, c2) ==> (#[trigger] stone_at(swept(walkable(e, s), m, s, j + k), l2, c2)
                <==> (stone_at(swept(walkable(e, s), m, s, (j - 1) as nat), l2, c2) || on_walk(
                l + shift_dl(s),
                c + shift_dc(s),
                -shift_dl(s),
                -shift_dc(s),
                k,
                l2,
                c2,
            ))),
    decreases k,
{
    let dl = shift_dl(s);
    let dc = shift_dc(s);
    let me = walkable(e, s);
    let mk = direction_mask(s);
    lemma_shift_direction(s);
    lemma_direction_mask(s);
    lemma_steps_alive(m, s, j, l, c);
    lemma_bit_and(p, e);
    lemma_zero_iff_no_bit(p & e);
    lemma_bit_and(e, mk);
    lemma_index_of_square(l, c);
    lemma_single_and(steps(m, s, j), me, l, c);
    assert(l + dl + -dl == l && c + dc + -dc == c);
    assert(me == e & mk);
    assert(stone_at(mk, l, c) == (on_board(l + dl, c + dc) && on_board(l - dl, c - dc)));
    assert(bit(e & mk, square_index(l, c)) == (bit(e, square_index(l, c)) && bit(mk, square_index(l, c))));
    assert(stone_at(me, l, c) == (stone_at(e, l, c) && on_board(l - dl, c - dc)));
    assert(flanked(p, e, l + dl, c + dc, -dl, -dc, k) == (stone_at(e, l, c) && flanked(
        p,
        e,
        l,
        c,
        -dl,
        -dc,
        (k - 1) as nat,
    )));
    assert(swept(me, m, s, j) == swept(me, m, s, (j - 1) as nat) | (steps(m, s, j) & me));
    if stone_at(me, l, c) {
        assert(first_gap(me, m, s, j) == first_gap(me, m, s, j + 1));
        lemma_step_from_single(m, s, j, l, c, e);
        let l1 = l - dl;
        let c1 = c - dc;
        assert(single_at(steps(m, s, j + 1), l1, c1));
        // the stones collected up to step j: those up to step j - 1, and (l, c)
        lemma_bit_or(swept(me, m, s, (j - 1) as nat), steps(m, s, j) & me);
        lemma_bit_and(steps(m, s, j), me);
        assert forall|l2: int, c2: int| on_board(l2, c2) implies (#[trigger] stone_at(
            swept(me, m, s, j),
            l2,
            c2,
        ) <==> (stone_at(swept(me, m, s, (j - 1) as nat), l2, c2) || (l2 == l && c2 == c))) by {
            lemma_index_of_square(l2, c2);
            if square_index(l2, c2) == square_index(l, c) {
                lemma_square_index_injective(l2, c2, l, c);
            }
        }
        if k == 1 {
            assert(flanked(p, e, l, c, -dl, -dc, 0) == stone_at(p, l1, c1));
            lemma_single_and(steps(m, s, j + 1), p, l1, c1);
            lemma_single_and(steps(m, s, j + 1), me, l1, c1);
            lemma_index_of_square(l1, c1);
            if stone_at(p, l1, c1) {
                assert(!bit(p & e, square_index(l1, c1)));
                assert(!stone_at(e, l1, c1));
                assert(steps(m, s, j + 1) & me == 0);
                assert(first_gap(me, m, s, j + 1) == j + 1);
                assert(swept(me, m, s, j + 1) == swept(me, m, s, j) | (steps(m, s, j + 1) & me));
                let sw = swept(me, m, s, j);
                assert(sw | 0u64 == sw) by (bit_vector);
                assert forall|l2: int, c2: int| on_board(l2, c2) implies (#[trigger] stone_at(
                    swept(me, m, s, j + k),
                    l2,
                    c2,
                ) <==> (stone_at(swept(me, m, s, (j - 1) as nat), l2, c2) || on_walk(
                    l + dl,
                    c + dc,
                    -dl,
                    -dc,
                    k,
                    l2,
                    c2,
                ))) by {
                    assert(on_walk(l, c, -dl, -dc, 0, l2, c2) == false);
                }
            }
        } else {
            lemma_walk_tail(p, e, m, s, j + 1, l1, c1, (k - 1) as nat);
            assert(l1 + dl == l && c1 + dc == c);
            assert((j + 1) + (k - 1) as nat == j + k);
            if flanked(p, e, l + dl, c + dc, -dl, -dc, k) {
                assert forall|l2: int, c2: int| on_board(l2, c2) implies (#[trigger] stone_at(
                    swept(me, m, s, j + k),
                    l2,
                    c2,
                ) <==> (stone_at(swept(me, m, s, (j - 1) as nat), l2, c2) || on_walk(
                    l + dl,
                    c + dc,
                    -dl,
                    -dc,
                    k,
                    l2,
                    c2,
                ))) by {
                    assert(stone_at(swept(me, m, s, j), l2, c2) <==> (stone_at(
                        swept(me, m, s, (j - 1) as nat),
                        l2,
                        c2,
                    ) || (l2 == l && c2 == c)));
                }
            }
        }
    } else {
        assert(first_gap(me, m, s, j) == j);
        if flanked(p, e, l + dl, c + dc, -dl, -dc, k) {
            lemma_flanked_reach(p, e, l, c, -dl, -dc, (k - 1) as nat);
            assert(false);
        }
    }
}

/// In one direction, a move on `(l, c)` turns over exactly the enclosed stones.
proof fn lemma_reversed_in_direction(p: u64, e: u64, l: int, c: int, s: int)
    requires
        is_shift(s),
        p & e == 0,
        on_board(l, c),
    ensures
        forall|l2: int, c2: int|
            on_board(l2, c2) ==> (#[trigger] stone_at(
                reversed_in_direction(p, e, square_board(l, c), s),
                l2,
                c2,
            ) <==> turned_in_direction(p, e, l, c, -shift_dl(s), -shift_dc(s), l2, c2)),
{
    let dl = shift_dl(s);
    let dc = shift_dc(s);
    let m = square_board(l, c);
    let me = walkable(e, s);
    assert(me == e & direction_mask(s));
    let g = first_gap(me, m, s, 1);
    let r = reversed_in_direction(p, e, m, s);
    lemma_square_board(l, c);
    lemma_shift_direction(s);
    assert(steps(m, s, 0) == m);
    lemma_step_from_single(m, s, 0, l, c, e);
    lemma_zero_iff_no_bit(0);
    assert(swept(me, m, s, 1) == swept(me, m, s, 0) | (steps(m, s, 1) & me));
    assert((0u64 | 0u64) == 0u64) by (bit_vector);
    if on_board(l - dl, c - dc) {
        assert(l - dl + dl == l && c - dc + dc == c);
        if g >= 2 && steps(m, s, g) & p != 0 {
            let k0 = (g - 1) as nat;
            lemma_walk_tail(p, e, m, s, 1, l - dl, c - dc, k0);
            assert(1 + k0 == g);
            assert(r == swept(me, m, s, g));
            assert forall|l2: int, c2: int| on_board(l2, c2) implies (#[trigger] stone_at(
                r,
                l2,
                c2,
            ) <==> turned_in_direction(p, e, l, c, -dl, -dc, l2, c2)) by {
                assert(stone_at(r, l2, c2) == on_walk(l, c, -dl, -dc, k0, l2, c2));
                if turned_in_direction(p, e, l, c, -dl, -dc, l2, c2) {
                    let k = choose|k: nat|
                        1 <= k && #[trigger] flanked(p, e, l, c, -dl, -dc, k) && on_walk(
                            l,
                            c,
                            -dl,
                            -dc,
                            k,
                            l2,
                            c2,
                        );
                    lemma_walk_tail(p, e, m, s, 1, l - dl, c - dc, k);
                }
                if on_walk(l, c, -dl, -dc, k0, l2, c2) {
                    assert(flanked(p, e, l, c, -dl, -dc, k0));
                }
            }
        } else {
            assert(r == 0) by {
                crate::rule::lemma_first_gap_bounds(me, m, s, 1);
                crate::rule::lemma_first_gap_bounds(me, m, s, 2);
                if steps(m, s, g) & p != 0 {
                    assert(g == 1);
                    assert(steps(m, s, 1) & me == 0);
                }
            }
            assert forall|l2: int, c2: int| on_board(l2, c2) implies (#[trigger] stone_at(
                r,
                l2,
                c2,
            ) <==> turned_in_direction(p, e, l, c, -dl, -dc, l2, c2)) by {
                lemma_index_of_square(l2, c2);
                if turned_in_direction(p, e, l, c, -dl, -dc, l2, c2) {
                    let k = choose|k: nat|
                        1 <= k && #[trigger] flanked(p, e, l, c, -dl, -dc, k) && on_walk(
                            l,
                            c,
                            -dl,
                            -dc,
                            k,
                            l2,
                            c2,
                        );
                    lemma_walk_tail(p, e, m, s, 1, l - dl, c - dc, k);
                    assert(false);
                }
            }
        }
    } else {
        assert(steps(m, s, 1) & (e & direction_mask(s)) == 0);
        crate::rule::lemma_first_gap_bounds(me, m, s, 1);
        assert(g == 1);
        assert(r == 0);
        assert forall|l2: int, c2: int| on_board(l2, c2) implies (#[trigger] stone_at(r, l2, c2)
            <==> turned_in_direction(p, e, l, c, -dl, -dc, l2, c2)) by {
            lemma_index_of_square(l2, c2);
            if turned_in_direction(p, e, l, c, -dl, -dc, l2, c2) {
                let k = choose|k: nat|
                    1 <= k && #[trigger] flanked(p, e, l, c, -dl, -dc, k) && on_walk(
                        l,
                        c,
                        -dl,
                        -dc,
                        k,
                        l2,
                        c2,
                    );
                assert(stone_at(e, l - dl, c - dc));
            }
        }
    }
}

proof fn lemma_flipped_upto(p: u64, e: u64, l: int, c: int, j: nat)
    requires
        p & e == 0,
        on_board(l, c),
        j <= 8,
    ensures
        forall|l2: int, c2: int|
            on_board(l2, c2) ==> (#[trigger] stone_at(
                flipped_upto(p, e, square_board(l, c), j),
                l2,
                c2,
            ) <==> exists|dl: int, dc: int|
                is_direction(dl, dc) && direction_rank(-dl, -dc) < j
                    && #[trigger] turned_in_direction(p, e, l, c, dl, dc, l2, c2)),
    decreases j,
{
    let m = square_board(l, c);
    if j == 0 {
        lemma_zero_iff_no_bit(0);
        assert forall|l2: int, c2: int| on_board(l2, c2) implies (#[trigger] stone_at(
            flipped_upto(p, e, m, j),
            l2,
            c2,
        ) <==> exists|dl: int, dc: int|
            is_direction(dl, dc) && direction_rank(-dl, -dc) < j
                && #[trigger] turned_in_direction(p, e, l, c, dl, dc, l2, c2)) by {
            lemma_index_of_square(l2, c2);
            if exists|dl: int, dc: int|
                is_direction(dl, dc) && direction_rank(-dl, -dc) < j
                    && #[trigger] turned_in_direction(p, e, l, c, dl, dc, l2, c2) {
                let (dl, dc) = choose|dl: int, dc: int|
                    is_direction(dl, dc) && direction_rank(-dl, -dc) < j
                        && #[trigger] turned_in_direction(p, e, l, c, dl, dc, l2, c2);
                lemma_direction_rank(-dl, -dc);
            }
        }
    } else {
        let jj = (j - 1) as nat;
        let s = shift_at(jj as int);
        lemma_flipped_upto(p, e, l, c, jj);
        lemma_shift_at(jj as int);
        lemma_shift_direction(s);
        lemma_reversed_in_direction(p, e, l, c, s);
        let prev = flipped_upto(p, e, m, jj);
        let r = reversed_in_direction(p, e, m, s);
        lemma_bit_or(prev, r);
        let sdl = -shift_dl(s);
        let sdc = -shift_dc(s);
        assert forall|l2: int, c2: int| on_board(l2, c2) implies (#[trigger] stone_at(
            flipped_upto(p, e, m, j),
            l2,
            c2,
        ) <==> exists|dl: int, dc: int|
            is_direction(dl, dc) && direction_rank(-dl, -dc) < j
                && #[trigger] turned_in_direction(p, e, l, c, dl, dc, l2, c2)) by {
            assert(flipped_upto(p, e, m, j) == prev | r);
            assert(-sdl == shift_dl(s) && -sdc == shift_dc(s));
            if stone_at(r, l2, c2) {
                assert(is_direction(sdl, sdc) && direction_rank(-sdl, -sdc) < j
                    && turned_in_direction(p, e, l, c, sdl, sdc, l2, c2));
            }
            if stone_at(prev, l2, c2) {
                let (dl, dc) = choose|dl: int, dc: int|
                    is_direction(dl, dc) && direction_rank(-dl, -dc) < jj
                        && #[trigger] turned_in_direction(p, e, l, c, dl, dc, l2, c2);
                assert(is_direction(dl, dc) && direction_rank(-dl, -dc) < j
                    && turned_in_direction(p, e, l, c, dl, dc, l2, c2));
            }
            if exists|dl: int, dc: int|
                is_direction(dl, dc) && direction_rank(-dl, -dc) < j
                    && #[trigger] turned_in_direction(p, e, l, c, dl, dc, l2, c2) {
                let (dl, dc) = choose|dl: int, dc: int|
                    is_direction(dl, dc) && direction_rank(-dl, -dc) < j
                        && #[trigger] turned_in_direction(p, e, l, c, dl, dc, l2, c2);
                if direction_rank(-dl, -dc) == jj {
                    lemma_direction_shift(-dl, -dc);
                    lemma_direction_rank(-dl, -dc);
                    assert(dl == sdl && dc == sdc);
                } else {
                    assert(direction_rank(-dl, -dc) < jj);
                }
            }
        }
    }
}

/// A move of `p` on square `(l, c)` turns over exactly the stones of `e` that it
/// encloses, in any of the eight directions.
pub proof fn lemma_flipped_are_enclosed(p: u64, e: u64, l: int, c: int)
    requires
        p & e == 0,
        on_board(l, c),
    ensures
        forall|l2: int, c2: int|
            on_board(l2, c2) ==> (#[trigger] stone_at(flipped(p, e, square_board(l, c)), l2, c2)
                <==> turned(p, e, l, c, l2, c2)),
{
    lemma_flipped_upto(p, e, l, c, 8);
    assert forall|l2: int, c2: int| on_board(l2, c2) implies (#[trigger] stone_at(
        flipped(p, e, square_board(l, c)),
        l2,
        c2,
    ) <==> turned(p, e, l, c, l2, c2)) by {
        if turned(p, e, l, c, l2, c2) {
            let (dl, dc) = choose|dl: int, dc: int|
                is_direction(dl, dc) && #[trigger] turned_in_direction(p, e, l, c, dl, dc, l2, c2);
            lemma_direction_rank(-dl, -dc);
            assert(is_direction(dl, dc) && direction_rank(-dl, -dc) < 8 && turned_in_direction(
                p,
                e,
                l,
                c,
                dl,
                dc,
                l2,
                c2,
            ));
        }
    }
}

proof fn lemma_walk_over_enemy(
    p: u64,
    e: u64,
    l: int,
    c: int,
    dl: int,
    dc: int,
    k: nat,
    l2: int,
    c2: int,
)
    requires
        flanked(p, e, l, c, dl, dc, k),
        on_walk(l, c, dl, dc, k, l2, c2),
    ensures
        stone_at(e, l2, c2),
    decreases k,
{
    if k > 0 && !(l2 == l + dl && c2 == c + dc) {
        lemma_walk_over_enemy(p, e, l + dl, c + dc, dl, dc, (k - 1) as nat, l2, c2);
    }
}

/// The outcome of a move: after `p` plays on the empty square `(l, c)`, the
/// player's stones are the old ones, the new one and the turned ones; the enemy
/// keeps exactly its stones that were not turned; and only enemy stones turn.
pub proof fn lemma_move_outcome(p: u64, e: u64, l: int, c: int)
    requires
        p & e == 0,
        on_board(l, c),
    ensures
        forall|l2: int, c2: int|
            on_board(l2, c2) ==> (#[trigger] stone_at(
                p | square_board(l, c) | flipped(p, e, square_board(l, c)),
                l2,
                c2,
            ) <==> (stone_at(p, l2, c2) || (l2 == l && c2 == c) || turned(p, e, l, c, l2, c2))),
        forall|l2: int, c2: int|
            on_board(l2, c2) ==> (#[trigger] stone_at(
                e & !flipped(p, e, square_board(l, c)),
                l2,
                c2,
            ) <==> (stone_at(e, l2, c2) && !turned(p, e, l, c, l2, c2))),
        forall|l2: int, c2: int| #[trigger] turned(p, e, l, c, l2, c2) ==> stone_at(e, l2, c2),
{
    let m = square_board(l, c);
    let f = flipped(p, e, m);
    lemma_flipped_are_enclosed(p, e, l, c);
    lemma_square_board(l, c);
    lemma_bit_or(p | m, f);
    lemma_bit_or(p, m);
    lemma_bit_and(e, !f);
    lemma_bit_not(f);
    assert forall|l2: int, c2: int| on_board(l2, c2) implies (#[trigger] stone_at(p | m | f, l2, c2)
        <==> (stone_at(p, l2, c2) || (l2 == l && c2 == c) || turned(p, e, l, c, l2, c2))) by {
        lemma_index_of_square(l2, c2);
        assert(stone_at(f, l2, c2) == turned(p, e, l, c, l2, c2));
        if square_index(l2, c2) == square_index(l, c) {
            lemma_square_index_injective(l2, c2, l, c);
        }
    }
    assert forall|l2: int, c2: int| on_board(l2, c2) implies (#[trigger] stone_at(e & !f, l2, c2)
        <==> (stone_at(e, l2, c2) && !turned(p, e, l, c, l2, c2))) by {
        lemma_index_of_square(l2, c2);
        assert(stone_at(f, l2, c2) == turned(p, e, l, c, l2, c2));
    }
    assert forall|l2: int, c2: int| #[trigger] turned(p, e, l, c, l2, c2) implies stone_at(
        e,
        l2,
        c2,
    ) by {
        let (dl, dc) = choose|dl: int, dc: int|
            is_direction(dl, dc) && #[trigger] turned_in_direction(p, e, l, c, dl, dc, l2, c2);
        let k = choose|k: nat|
            1 <= k && #[trigger] flanked(p, e, l, c, dl, dc, k) && on_walk(l, c, dl, dc, k, l2, c2);
        lemma_walk_over_enemy(p, e, l, c, dl, dc, k, l2, c2);
    }
}

/// On an empty square, a move is legal exactly when it turns over at least one stone.
pub proof fn lemma_legal_iff_turns_over(p: u64, e: u64, l: int, c: int)
    requires
        p & e == 0,
        empty_square(p, e, l, c),
    ensures
        is_legal_square(p, e, l, c) == (flipped(p, e, square_board(l, c)) != 0),
{
    let f = flipped(p, e, square_board(l, c));
    lemma_flipped_are_enclosed(p, e, l, c);
    lemma_zero_iff_no_bit(f);
    if is_legal_square(p, e, l, c) {
        let (dl, dc) = choose|dl: int, dc: int|
            is_direction(dl, dc) && #[trigger] captures(p, e, l, c, dl, dc);
        let k = choose|k: nat| 1 <= k && #[trigger] flanked(p, e, l, c, dl, dc, k);
        assert(on_walk(l, c, dl, dc, k, l + dl, c + dc));
        assert(turned_in_direction(p, e, l, c, dl, dc, l + dl, c + dc));
        assert(turned(p, e, l, c, l + dl, c + dc));
        lemma_flanked_reach(p, e, l, c, dl, dc, k);
        lemma_index_of_square(l + dl, c + dc);
        assert(stone_at(f, l + dl, c + dc));
        assert(bit(f, square_index(l + dl, c + dc)));
    }
    if f != 0 {
        let t = choose|t: int| 0 <= t < 64 && #[trigger] bit(f, t);
        lemma_square_of_index(t);
        let l2 = line_of(t);
        let c2 = column_of(t);
        assert(stone_at(f, l2, c2));
        let (dl, dc) = choose|dl: int, dc: int|
            is_direction(dl, dc) && #[trigger] turned_in_direction(p, e, l, c, dl, dc, l2, c2);
        let k = choose|k: nat|
            1 <= k && #[trigger] flanked(p, e, l, c, dl, dc, k) && on_walk(l, c, dl, dc, k, l2, c2);
        assert(captures(p, e, l, c, dl, dc));
    }
}

proof fn lemma_steps_of_nothing(s: int, n: nat)
    requires
        is_shift(s),
    ensures
        steps(0, s, n) == 0,
    decreases n,
{
    if n > 0 {
        lemma_steps_of_nothing(s, (n - 1) as nat);
        lemma_bit_shifted(0, s);
        lemma_zero_iff_no_bit(0);
        lemma_zero_iff_no_bit(steps(0, s, n));
    }
}

proof fn lemma_flipped_upto_nothing(p: u64, e: u64, j: nat)
    requires
        j <= 8,
    ensures
        flipped_upto(p, e, 0, j) == 0,
    decreases j,
{
    if j > 0 {
        let jj = (j - 1) as nat;
        let s = shift_at(jj as int);
        lemma_flipped_upto_nothing(p, e, jj);
        lemma_shift_at(jj as int);
        lemma_steps_of_nothing(s, 1);
        let me = e & direction_mask(s);
        assert((0u64 & me) == 0u64) by (bit_vector);
        assert((0u64 & p) == 0u64) by (bit_vector);
        assert(first_gap(me, 0, s, 1) == 1);
        assert(reversed_in_direction(p, e, 0, s) == 0);
        assert((0u64 | 0u64) == 0u64) by (bit_vector);
    }
}

/// Passing (the empty move) turns nothing over and leaves both boards as they were.
pub proof fn lemma_pass_keeps_boards(p: u64, e: u64)
    ensures
        flipped(p, e, 0) == 0,
        p | 0 | flipped(p, e, 0) == p,
        e & !flipped(p, e, 0) == e,
{
    lemma_flipped_upto_nothing(p, e, 8);
    assert(p | 0u64 | 0u64 == p) by (bit_vector);
    assert(e & !0u64 == e) by (bit_vector);
}

/// Naming the stone of a square and reading the name back gives the same stone:
/// the square's stone is the first one of its board, its name is a readable move
/// text, and that text stands for the square's board.
pub proof fn lemma_square_name_round_trip(l: int, c: int)
    requires
        on_board(l, c),
    ensures
        top_bit(square_board(l, c), square_index(l, c)),
        line_of(square_index(l, c)) == l,
        column_of(square_index(l, c)) == c,
        is_move_text(square_name(l, c)),
        encoded_move(square_name(l, c)) == square_board(l, c),
{
    lemma_square_board(l, c);
    lemma_index_of_square(l, c);
    let t = square_name(l, c);
    assert(t != pass_text()) by {
        assert(t.len() == 2);
    }
    assert(char_byte(t[0]) == 65 + c);
    assert(char_byte(t[1]) == 49 + l);
    assert(text_offset(t) == c + 8 * l);
}

/// "PASS" is readable and stands for no stone.
pub proof fn lemma_pass_round_trip()
    ensures
        is_move_text(pass_text()),
        encoded_move(pass_text()) == 0,
{
}

/// 1 when bit `t` of `x` is set, else 0.
spec fn bit_weight(x: u64, t: int) -> int {
    if bit(x, t) {
        1
    } else {
        0
    }
}

proof fn lemma_bits_below_balance(a: u64, b: u64, c: u64, d: u64, i: int, n: nat)
    requires
        forall|t: int|
            0 <= t < 64 ==> #[trigger] bit_weight(a, t) + bit_weight(b, t) == bit_weight(c, t)
                + bit_weight(d, t) + if t == i {
                1int
            } else {
                0int
            },
        n <= 64,
    ensures
        bits_below(a, n) + bits_below(b, n) == bits_below(c, n) + bits_below(d, n) + if 0 <= i
            < n {
            1int
        } else {
            0int
        },
    decreases n,
{
    if n > 0 {
        lemma_bits_below_balance(a, b, c, d, i, (n - 1) as nat);
        assert(bit_weight(a, n - 1) + bit_weight(b, n - 1) == bit_weight(c, n - 1) + bit_weight(
            d,
            n - 1,
        ) + if n - 1 == i {
            1int
        } else {
            0int
        });
    }
}

/// A move on an empty square, on boards without common stones, adds exactly one
/// stone to the board: the turned stones only change sides.
pub proof fn lemma_move_adds_one_stone(p: u64, e: u64, l: int, c: int)
    requires
        p & e == 0,
        empty_square(p, e, l, c),
    ensures
        stone_count(next_boards(p, e, square_board(l, c)).0) + stone_count(
            next_boards(p, e, square_board(l, c)).1,
        ) == stone_count(p) + stone_count(e) + 1,
{
    let m = square_board(l, c);
    let p2 = next_boards(p, e, m).0;
    let e2 = next_boards(p, e, m).1;
    let i = square_index(l, c);
    lemma_move_outcome(p, e, l, c);
    lemma_index_of_square(l, c);
    lemma_bit_and(p, e);
    lemma_zero_iff_no_bit(p & e);
    assert forall|t: int| 0 <= t < 64 implies #[trigger] bit_weight(p2, t) + bit_weight(e2, t)
        == bit_weight(p, t) + bit_weight(e, t) + if t == i {
        1int
    } else {
        0int
    } by {
        lemma_square_of_index(t);
        let l2 = line_of(t);
        let c2 = column_of(t);
        assert(stone_at(p2, l2, c2) <==> (stone_at(p, l2, c2) || (l2 == l && c2 == c) || turned(
            p,
            e,
            l,
            c,
            l2,
            c2,
        )));
        assert(stone_at(e2, l2, c2) <==> (stone_at(e, l2, c2) && !turned(p, e, l, c, l2, c2)));
        assert(!bit(p & e, t));
        if l2 == l && c2 == c {
            assert(!turned(p, e, l, c, l2, c2) || stone_at(e, l2, c2));
        } else {
            if t == i {
                lemma_square_index_injective(l2, c2, l, c);
            }
        }
        if turned(p, e, l, c, l2, c2) {
            assert(stone_at(e, l2, c2));
        }
    }
    lemma_bits_below_balance(p2, e2, p, e, i, 64);
}

/// A move that `judge_move` accepts, on boards without common stones, turns over at
/// least one stone.
pub proof fn lemma_accepted_move_turns_over(p: u64, e: u64, m: u64)
    requires
        p & e == 0,
        is_legal_stone(m, p, e),
    ensures
        flipped(p, e, m) != 0,
{
    let (l, c) = choose|l: int, c: int| m == square_board(l, c) && #[trigger] is_legal_square(p, e, l, c);
    lemma_legal_iff_turns_over(p, e, l, c);
}

/// Whether the game is over does not depend on which side is asked first.
pub proof fn lemma_game_over_symmetric(black: u64, white: u64)
    ensures
        game_over(black, white) == game_over(white, black),
{
    if game_over(black, white) {
        assert forall|l: int, c: int| on_board(l, c) implies !#[trigger] is_legal_square(
            white,
            black,
            l,
            c,
        ) && !is_legal_square(black, white, l, c) by {
            assert(!is_legal_square(black, white, l, c) && !is_legal_square(white, black, l, c));
        }
    }
    if game_over(white, black) {
        assert forall|l: int, c: int| on_board(l, c) implies !#[trigger] is_legal_square(
            black,
            white,
            l,
            c,
        ) && !is_legal_square(white, black, l, c) by {
            assert(!is_legal_square(white, black, l, c) && !is_legal_square(black, white, l, c));
        }
    }
}

proof fn lemma_or_and_keep(p: u64, e: u64, m: u64, f: u64)
    by (bit_vector)
    ensures
        (p | m | f) & p == p,
        (p | m | f) & m == m,
        (e & !f) & e == e & !f,
{
}

/// Whatever is played, the mover keeps all its stones and holds the stone played,
/// and the opponent only loses stones.
pub proof fn lemma_move_keeps_and_takes(p: u64, e: u64, m: u64)
    ensures
        next_boards(p, e, m).0 & p == p,
        next_boards(p, e, m).0 & m == m,
        next_boards(p, e, m).1 & e == next_boards(p, e, m).1,
{
    lemma_or_and_keep(p, e, m, flipped(p, e, m));
}

} // verus!
