//! The rules of the game on bitboards: legal moves, flipping, counting stones,
//! and the text notation of moves.
use vstd::prelude::*;
use crate::popcount::{lemma_count_one, stone_count, pairs, nibbles, bytes, halfwords, words, lemma_parallel_count, lemma_bits_below_is_sum, lemma_fold_fits};
use crate::bits::{bit, only_bit, lemma_and_only_bit, lemma_empty_board, shifted, lemma_zero_iff_no_bit, lemma_bit_and, lemma_bit_or, lemma_bit_not, lemma_bit_shifted, lemma_single_bit};
use crate::board::{
    on_board,
    square_index,
    stone_at,
    empty_square,
    is_direction,
    captures,
    captures_within,
    is_legal_square,
    square_board,
    square_name,
    stone_name,
    pass_text,
    top_bit,
    column_letter,
    line_digit,
    char_byte,
    text_offset,
    is_move_text,
    encoded_move,
    lemma_no_stone,
    lemma_only_bit_square,
    lemma_square_board_bit,
    is_shift,
    shift_dl,
    shift_dc,
    direction_shift,
    direction_mask,
    line_of,
    column_of,
    lemma_square_of_index,
    lemma_index_of_square,
    lemma_square_index_injective,
    lemma_shift_direction,
    lemma_direction_shift,
    lemma_direction_mask,
    lemma_captures_within_six,
    lemma_captures_within_step,
    lemma_captures_within_one,
};

verus! {

const HORIZONTAL_MASK: u64 = 0x7E7E7E7E7E7E7E7E;

const VERTICAL_MASK: u64 = 0x00FFFFFFFFFFFF00;

const ALLSIDE_MASK: u64 = 0x007E7E7E7E7E7E00;

/// The mask that keeps a scan in direction `shift` from wrapping around the board.
fn get_mask(shift: i8) -> (r: u64)
    requires
        shift != i8::MIN,
    ensures
        r == direction_mask(shift as int),
{
    match shift {
        1 | -1 => HORIZONTAL_MASK,
        7 | -7 => ALLSIDE_MASK,
        8 | -8 => VERTICAL_MASK,
        9 | -9 => ALLSIDE_MASK,
        _ => 0,
    }
}

/// Moves every stone of `x` by `shift` bit positions (towards bit 0 when positive).
fn shift_board(x: u64, shift: i8) -> (r: u64)
    requires
        -64 < shift < 64,
    ensures
        r == shifted(x, shift as int),
{
    if shift >= 0 {
        let amount: u64 = shift as u64;
        assert(amount == (shift as int) as u64);
        x >> amount
    } else {
        let amount: u64 = (-shift) as u64;
        assert(amount == (-(shift as int)) as u64);
        x << amount
    }
}

/// The stones of `tmp` are exactly the squares one step past a target square
/// `(l, c) - d` from which `p` encloses at most `n` stones of `e` in direction `d`.
spec fn scan_state(tmp: u64, p: u64, e: u64, s: int, n: nat) -> bool {
    let dl = shift_dl(s);
    let dc = shift_dc(s);
    forall|l: int, c: int|
        on_board(l, c) ==> (#[trigger] stone_at(tmp, l, c) <==> (on_board(l - dl, c - dc)
            && captures_within(p, e, l - dl, c - dc, dl, dc, n)))
}

proof fn lemma_scan_first(p: u64, e: u64, s: int)
    requires
        is_shift(s),
    ensures
        scan_state(shifted(p, s) & (e & direction_mask(s)), p, e, s, 1),
{
    let dl = shift_dl(s);
    let dc = shift_dc(s);
    let m = direction_mask(s);
    let tmp = shifted(p, s) & (e & m);
    lemma_shift_direction(s);
    lemma_direction_mask(s);
    lemma_bit_and(shifted(p, s), e & m);
    lemma_bit_and(e, m);
    lemma_bit_shifted(p, s);
    assert forall|l: int, c: int| on_board(l, c) implies (#[trigger] stone_at(tmp, l, c) <==> (
    on_board(l - dl, c - dc) && captures_within(p, e, l - dl, c - dc, dl, dc, 1))) by {
        lemma_captures_within_one(p, e, l - dl, c - dc, dl, dc);
        lemma_index_of_square(l, c);
        assert(stone_at(m, l, c) == (on_board(l + dl, c + dc) && on_board(l - dl, c - dc)));
        assert(square_index(l + dl, c + dc) == square_index(l, c) + s);
        assert(l - dl + dl == l && c - dc + dc == c);
        assert(l - dl + dl + dl == l + dl && c - dc + dc + dc == c + dc);
    }
}

proof fn lemma_scan_step(tmp: u64, p: u64, e: u64, s: int, n: nat)
    requires
        is_shift(s),
        n >= 1,
        scan_state(tmp, p, e, s, n),
    ensures
        scan_state((shifted(tmp, s) & (e & direction_mask(s))) | tmp, p, e, s, n + 1),
{
    let dl = shift_dl(s);
    let dc = shift_dc(s);
    let m = direction_mask(s);
    let next = (shifted(tmp, s) & (e & m)) | tmp;
    lemma_shift_direction(s);
    lemma_direction_mask(s);
    lemma_bit_or(shifted(tmp, s) & (e & m), tmp);
    lemma_bit_and(shifted(tmp, s), e & m);
    lemma_bit_and(e, m);
    lemma_bit_shifted(tmp, s);
    assert forall|l: int, c: int| on_board(l, c) implies (#[trigger] stone_at(next, l, c) <==> (
    on_board(l - dl, c - dc) && captures_within(p, e, l - dl, c - dc, dl, dc, n + 1))) by {
        lemma_captures_within_step(p, e, l - dl, c - dc, dl, dc, n);
        lemma_index_of_square(l, c);
        assert(stone_at(m, l, c) == (on_board(l + dl, c + dc) && on_board(l - dl, c - dc)));
        assert(square_index(l + dl, c + dc) == square_index(l, c) + s);
        assert(l - dl + dl == l && c - dc + dc == c);
        if on_board(l + dl, c + dc) {
            assert(stone_at(tmp, l + dl, c + dc) <==> (on_board(l, c) && captures_within(
                p,
                e,
                l,
                c,
                dl,
                dc,
                n,
            ))) by {
                assert(l + dl - dl == l && c + dc - dc == c);
            }
        }
        if captures_within(p, e, l, c, dl, dc, n) {
            let k = choose|k: nat| 1 <= k <= n && #[trigger] crate::board::flanked(p, e, l, c, dl, dc, k);
            assert(stone_at(e, l + dl, c + dc));
        }
        let ix = square_index(l, c);
        assert(stone_at(next, l, c) == ((bit(shifted(tmp, s), ix) && bit(e, ix) && bit(m, ix)) || bit(tmp, ix)));
        assert(stone_at(tmp, l, c) <==> (on_board(l - dl, c - dc) && captures_within(p, e, l - dl, c - dc, dl, dc, n)));
        if on_board(l - dl, c - dc) && captures_within(p, e, l - dl, c - dc, dl, dc, n + 1) {
            assert(stone_at(next, l, c));
        }
        if stone_at(next, l, c) {
            assert(on_board(l - dl, c - dc) && captures_within(p, e, l - dl, c - dc, dl, dc, n + 1));
        }
    }
}

/// After the scan, shifting once more lands exactly on the targets.
proof fn lemma_scan_finish(tmp: u64, p: u64, e: u64, s: int)
    requires
        is_shift(s),
        scan_state(tmp, p, e, s, 6),
    ensures
        forall|l: int, c: int|
            on_board(l, c) ==> (#[trigger] stone_at(shifted(tmp, s) & !(p | e), l, c) <==> (
            empty_square(p, e, l, c) && captures(p, e, l, c, shift_dl(s), shift_dc(s)))),
{
    let dl = shift_dl(s);
    let dc = shift_dc(s);
    let r = shifted(tmp, s) & !(p | e);
    lemma_shift_direction(s);
    lemma_bit_and(shifted(tmp, s), !(p | e));
    lemma_bit_not(p | e);
    lemma_bit_or(p, e);
    lemma_bit_shifted(tmp, s);
    assert forall|l: int, c: int| on_board(l, c) implies (#[trigger] stone_at(r, l, c) <==> (
    empty_square(p, e, l, c) && captures(p, e, l, c, dl, dc))) by {
        lemma_index_of_square(l, c);
        lemma_captures_within_six(p, e, l, c, dl, dc);
        let t = square_index(l, c) + s;
        assert(square_index(l + dl, c + dc) == t);
        if on_board(l + dl, c + dc) {
            assert(stone_at(tmp, l + dl, c + dc) <==> (on_board(l, c) && captures_within(
                p,
                e,
                l,
                c,
                dl,
                dc,
                6,
            ))) by {
                assert(l + dl - dl == l && c + dc - dc == c);
            }
        } else {
            if captures(p, e, l, c, dl, dc) {
                let k = choose|k: nat| 1 <= k && #[trigger] crate::board::flanked(p, e, l, c, dl, dc, k);
                assert(stone_at(e, l + dl, c + dc));
            }
            if bit(tmp, t) {
                lemma_square_of_index(t);
                let l2 = line_of(t);
                let c2 = column_of(t);
                assert(stone_at(tmp, l2, c2));
                assert(on_board(l2 - dl, c2 - dc));
                assert(square_index(l2 - dl + dl, c2 - dc + dc) == square_index(l2 - dl, c2 - dc) + s);
                assert(l2 - dl + dl == l2 && c2 - dc + dc == c2);
                lemma_square_index_injective(l2 - dl, c2 - dc, l, c);
                assert(false);
            }
        }
    }
}

/// The empty squares on which `player_board` encloses stones of `enemy_board`
/// in the direction of `shift`.
fn find_legal_move(player_board: u64, enemy_board: u64, shift: i8) -> (r: u64)
    requires
        -64 < shift < 64,
    ensures
        forall|l: int, c: int|
            on_board(l, c) ==> (#[trigger] stone_at(r, l, c) <==> (empty_square(
                player_board,
                enemy_board,
                l,
                c,
            ) && captures(
                player_board,
                enemy_board,
                l,
                c,
                shift_dl(shift as int),
                shift_dc(shift as int),
            ))),
{
    let mask: u64 = get_mask(shift);
    let masked_board: u64 = enemy_board & mask;
    proof {
        lemma_empty_board(enemy_board, shift as int);
    }
    let mut tmp: u64 = player_board;
    let mut i: u32 = 0;
    while i < 6
        invariant
            i <= 6,
            -64 < shift < 64,
            masked_board == enemy_board & direction_mask(shift as int),
            i == 0 ==> tmp == player_board,
            is_shift(shift as int) && i > 0 ==> scan_state(
                tmp,
                player_board,
                enemy_board,
                shift as int,
                i as nat,
            ),
            !is_shift(shift as int) ==> masked_board == 0 && (i > 0 ==> tmp == 0),
        decreases 6 - i,
    {
        let shifted_tmp = shift_board(tmp, shift);
        proof {
            if is_shift(shift as int) {
                if i == 0 {
                    lemma_scan_first(player_board, enemy_board, shift as int);
                } else {
                    lemma_scan_step(tmp, player_board, enemy_board, shift as int, i as nat);
                }
            } else {
                lemma_empty_board(enemy_board, shift as int);
                lemma_empty_board(shifted_tmp, shift as int);
            }
        }
        tmp = if i == 0 {
            shifted_tmp & masked_board
        } else {
            (shifted_tmp & masked_board) | tmp
        };
        i = i + 1;
    }
    let empty_board = !(player_board | enemy_board);
    proof {
        if is_shift(shift as int) {
            lemma_scan_finish(tmp, player_board, enemy_board, shift as int);
        } else {
            lemma_empty_board(empty_board, shift as int);
            lemma_empty_board(0, shift as int);
            lemma_bit_and(0, empty_board);
            lemma_zero_iff_no_bit(0);
            assert forall|l: int, c: int| on_board(l, c) implies !(empty_square(
                player_board,
                enemy_board,
                l,
                c,
            ) && captures(player_board, enemy_board, l, c, 0, 0)) by {
                if captures(player_board, enemy_board, l, c, 0, 0) {
                    let k = choose|k: nat|
                        1 <= k && #[trigger] crate::board::flanked(
                            player_board,
                            enemy_board,
                            l,
                            c,
                            0,
                            0,
                            k,
                        );
                    assert(stone_at(enemy_board, l, c));
                }
            }
        }
    }
    tmp = shift_board(tmp, shift);
    tmp & empty_board
}

/// Shift amount of the `j`-th direction in the order the scans visit them.
pub open spec fn shift_at(j: int) -> int {
    if j == 0 {
        1
    } else if j == 1 {
        -1
    } else if j == 2 {
        7
    } else if j == 3 {
        -7
    } else if j == 4 {
        8
    } else if j == 5 {
        -8
    } else if j == 6 {
        9
    } else {
        -9
    }
}

/// Position of direction `(dl, dc)` in the order the scans visit them.
pub open spec fn direction_rank(dl: int, dc: int) -> int {
    let s = direction_shift(dl, dc);
    if s == 1 {
        0
    } else if s == -1 {
        1
    } else if s == 7 {
        2
    } else if s == -7 {
        3
    } else if s == 8 {
        4
    } else if s == -8 {
        5
    } else if s == 9 {
        6
    } else {
        7
    }
}

pub proof fn lemma_shift_at(j: int)
    requires
        0 <= j < 8,
    ensures
        is_shift(shift_at(j)),
        direction_rank(shift_dl(shift_at(j)), shift_dc(shift_at(j))) == j,
{
}

pub proof fn lemma_direction_rank(dl: int, dc: int)
    requires
        is_direction(dl, dc),
    ensures
        0 <= direction_rank(dl, dc) < 8,
        shift_at(direction_rank(dl, dc)) == direction_shift(dl, dc),
{
}

fn shift_of_rank(j: usize) -> (r: i8)
    requires
        j < 8,
    ensures
        r as int == shift_at(j as int),
        is_shift(r as int),
        direction_rank(shift_dl(r as int), shift_dc(r as int)) == j,
{
    match j {
        0 => 1,
        1 => -1,
        2 => 7,
        3 => -7,
        4 => 8,
        5 => -8,
        6 => 9,
        _ => -9,
    }
}

/// Board `r` holds exactly the squares on which `p` may play against `e`.
pub open spec fn is_legal_board(r: u64, p: u64, e: u64) -> bool {
    forall|l: int, c: int|
        on_board(l, c) ==> (#[trigger] stone_at(r, l, c) <==> is_legal_square(p, e, l, c))
}

/// The board of all the squares on which `p` may play against `e`.
pub open spec fn legal_board(p: u64, e: u64) -> u64 {
    choose|r: u64| #[trigger] is_legal_board(r, p, e)
}

/// The board holding bit `t`, for `t < n`, exactly when `f(t)`.
spec fn board_from(f: spec_fn(int) -> bool, n: nat) -> u64
    decreases n,
{
    if n == 0 {
        0
    } else {
        board_from(f, (n - 1) as nat) | (if f(n - 1) {
            1u64 << ((n - 1) as u64)
        } else {
            0u64
        })
    }
}

proof fn lemma_board_from(f: spec_fn(int) -> bool, n: nat)
    requires
        n <= 64,
    ensures
        forall|t: int| #[trigger] bit(board_from(f, n), t) == (0 <= t < n && f(t)),
    decreases n,
{
    lemma_zero_iff_no_bit(0u64);
    if n > 0 {
        let prev = board_from(f, (n - 1) as nat);
        let m = if f(n - 1) {
            1u64 << ((n - 1) as u64)
        } else {
            0u64
        };
        lemma_board_from(f, (n - 1) as nat);
        lemma_bit_or(prev, m);
        lemma_single_bit((n - 1) as u64);
        assert(board_from(f, n) == prev | m);
    }
}

/// Every position has a board of its legal squares.
pub proof fn lemma_legal_board_exists(p: u64, e: u64)
    ensures
        is_legal_board(legal_board(p, e), p, e),
{
    let f = |t: int| is_legal_square(p, e, line_of(t), column_of(t));
    let r = board_from(f, 64);
    lemma_board_from(f, 64);
    assert forall|l: int, c: int| on_board(l, c) implies (#[trigger] stone_at(r, l, c)
        <==> is_legal_square(p, e, l, c)) by {
        lemma_index_of_square(l, c);
    }
    assert(is_legal_board(r, p, e));
}

/// A board is known by the squares it holds.
proof fn lemma_board_by_squares(x: u64, y: u64)
    requires
        forall|l: int, c: int| on_board(l, c) ==> #[trigger] stone_at(x, l, c) == stone_at(y, l, c),
    ensures
        x == y,
{
    assert forall|t: int| 0 <= t < 64 implies #[trigger] bit(x, t) == bit(y, t) by {
        lemma_square_of_index(t);
        assert(stone_at(x, line_of(t), column_of(t)) == stone_at(y, line_of(t), column_of(t)));
    }
    crate::bits::lemma_bits_determine(x, y);
}

/// Every square on which `player_board` may play against `enemy_board`.
pub fn legal_move(player_board: u64, enemy_board: u64) -> (r: u64)
    ensures
        r == legal_board(player_board, enemy_board),
        is_legal_board(r, player_board, enemy_board),
        r & (player_board | enemy_board) == 0,
        forall|l: int, c: int|
            on_board(l, c) ==> (#[trigger] stone_at(r, l, c) <==> is_legal_square(
                player_board,
                enemy_board,
                l,
                c,
            )),
{
    let mut ret: u64 = 0;
    let mut j: usize = 0;
    proof {
        lemma_zero_iff_no_bit(0);
    }
    while j < 8
        invariant
            j <= 8,
            forall|l: int, c: int|
                on_board(l, c) ==> (#[trigger] stone_at(ret, l, c) <==> (empty_square(
                    player_board,
                    enemy_board,
                    l,
                    c,
                ) && exists|dl: int, dc: int|
                    is_direction(dl, dc) && direction_rank(dl, dc) < j && #[trigger] captures(
                        player_board,
                        enemy_board,
                        l,
                        c,
                        dl,
                        dc,
                    ))),
        decreases 8 - j,
    {
        let shift = shift_of_rank(j);
        let found = find_legal_move(player_board, enemy_board, shift);
        proof {
            lemma_bit_or(ret, found);
            lemma_shift_direction(shift as int);
            let sdl = shift_dl(shift as int);
            let sdc = shift_dc(shift as int);
            assert forall|l: int, c: int| on_board(l, c) implies (#[trigger] stone_at(
                ret | found,
                l,
                c,
            ) <==> (empty_square(player_board, enemy_board, l, c) && exists|dl: int, dc: int|
                is_direction(dl, dc) && direction_rank(dl, dc) < j + 1 && #[trigger] captures(
                    player_board,
                    enemy_board,
                    l,
                    c,
                    dl,
                    dc,
                ))) by {
                if stone_at(found, l, c) {
                    assert(captures(player_board, enemy_board, l, c, sdl, sdc));
                    assert(is_direction(sdl, sdc) && direction_rank(sdl, sdc) < j + 1);
                }
                if stone_at(ret, l, c) {
                    let (dl, dc) = choose|dl: int, dc: int|
                        is_direction(dl, dc) && direction_rank(dl, dc) < j && #[trigger] captures(
                            player_board,
                            enemy_board,
                            l,
                            c,
                            dl,
                            dc,
                        );
                    assert(is_direction(dl, dc) && direction_rank(dl, dc) < j + 1 && captures(
                        player_board,
                        enemy_board,
                        l,
                        c,
                        dl,
                        dc,
                    ));
                }
                if exists|dl: int, dc: int|
                    is_direction(dl, dc) && direction_rank(dl, dc) < j + 1 && #[trigger] captures(
                        player_board,
                        enemy_board,
                        l,
                        c,
                        dl,
                        dc,
                    ) {
                    let (dl, dc) = choose|dl: int, dc: int|
                        is_direction(dl, dc) && direction_rank(dl, dc) < j + 1 && #[trigger] captures(
                            player_board,
                            enemy_board,
                            l,
                            c,
                            dl,
                            dc,
                        );
                    if direction_rank(dl, dc) == j {
                        lemma_direction_shift(dl, dc);
                        assert(dl == sdl && dc == sdc);
                    } else {
                        assert(direction_rank(dl, dc) < j);
                    }
                }
            }
        }
        ret = ret | found;
        j = j + 1;
    }
    proof {
        assert forall|l: int, c: int| on_board(l, c) implies (#[trigger] stone_at(ret, l, c)
            <==> is_legal_square(player_board, enemy_board, l, c)) by {
            if is_legal_square(player_board, enemy_board, l, c) {
                let (dl, dc) = choose|dl: int, dc: int|
                    is_direction(dl, dc) && #[trigger] captures(
                        player_board,
                        enemy_board,
                        l,
                        c,
                        dl,
                        dc,
                    );
                lemma_direction_rank(dl, dc);
                assert(is_direction(dl, dc) && direction_rank(dl, dc) < 8 && captures(
                    player_board,
                    enemy_board,
                    l,
                    c,
                    dl,
                    dc,
                ));
            }
        }
        assert(is_legal_board(ret, player_board, enemy_board));
        let lb = legal_board(player_board, enemy_board);
        assert forall|l: int, c: int| on_board(l, c) implies #[trigger] stone_at(ret, l, c)
            == stone_at(lb, l, c) by {
        }
        lemma_board_by_squares(ret, lb);
        lemma_bit_and(ret, player_board | enemy_board);
        lemma_bit_or(player_board, enemy_board);
        assert forall|t: int| 0 <= t < 64 implies !#[trigger] bit(ret & (player_board | enemy_board), t) by {
            lemma_square_of_index(t);
            assert(stone_at(ret, line_of(t), column_of(t)) ==> is_legal_square(
                player_board,
                enemy_board,
                line_of(t),
                column_of(t),
            ));
        }
        lemma_zero_iff_no_bit(ret & (player_board | enemy_board));
    }
    ret
}

/// The stones of `m`, each moved `n` times by shift `s`.
pub open spec fn steps(m: u64, s: int, n: nat) -> u64
    decreases n,
{
    if n == 0 {
        m
    } else {
        shifted(steps(m, s, (n - 1) as nat), s)
    }
}

/// The first step count, from `n` on, after which none of the moved stones of `m`
/// stands on `me`.
pub open spec fn first_gap(me: u64, m: u64, s: int, n: nat) -> nat
    decreases 64 - n,
{
    if n >= 64 || steps(m, s, n) & me == 0 {
        n
    } else {
        first_gap(me, m, s, n + 1)
    }
}

pub proof fn lemma_first_gap_bounds(me: u64, m: u64, s: int, n: nat)
    ensures
        first_gap(me, m, s, n) >= n,
        n < 64 && steps(m, s, n) & me != 0 ==> first_gap(me, m, s, n) == first_gap(me, m, s, n + 1),
    decreases 64 - n,
{
    if n < 64 && steps(m, s, n) & me != 0 {
        lemma_first_gap_bounds(me, m, s, n + 1);
    }
}

/// The stones of `me` met by the moved stones of `m` within the first `n` steps.
pub open spec fn swept(me: u64, m: u64, s: int, n: nat) -> u64
    decreases n,
{
    if n == 0 {
        0
    } else {
        swept(me, m, s, (n - 1) as nat) | (steps(m, s, n) & me)
    }
}

/// The stones of `e` that a move `m` of `p` turns over in the direction of shift `s`:
/// walking from `m` over the stones of `e` that the mask of `s` lets through, if the
/// walk ends on a stone of `p`, all the stones walked over.
pub open spec fn reversed_in_direction(p: u64, e: u64, m: u64, s: int) -> u64 {
    let me = e & direction_mask(s);
    let g = first_gap(me, m, s, 1);
    if steps(m, s, g) & p != 0 {
        swept(me, m, s, g)
    } else {
        0
    }
}

/// The stones turned over in the first `j` directions of the scan order.
pub open spec fn flipped_upto(p: u64, e: u64, m: u64, j: nat) -> u64
    decreases j,
{
    if j == 0 {
        0
    } else {
        flipped_upto(p, e, m, (j - 1) as nat) | reversed_in_direction(
            p,
            e,
            m,
            shift_at(j - 1),
        )
    }
}

/// All the stones of `e` that a move `m` of `p` turns over.
pub open spec fn flipped(p: u64, e: u64, m: u64) -> u64 {
    flipped_upto(p, e, m, 8)
}

/// Bit `t` of the stones of `m` moved `n` times is bit `t + n * s` of `m`.
pub proof fn lemma_steps_bits(m: u64, s: int, n: nat)
    requires
        is_shift(s),
    ensures
        forall|t: int| #[trigger] bit(steps(m, s, n), t) == (0 <= t < 64 && bit(m, t + n * s)),
    decreases n,
{
    if n > 0 {
        lemma_steps_bits(m, s, (n - 1) as nat);
        lemma_bit_shifted(steps(m, s, (n - 1) as nat), s);
        assert forall|t: int| #[trigger] bit(steps(m, s, n), t) == (0 <= t < 64 && bit(
            m,
            t + n * s,
        )) by {
            assert(t + s + (n - 1) * s == t + n * s) by (nonlinear_arith);
            if 0 <= t < 64 && 0 <= t + n * s < 64 {
                assert(0 <= t + s < 64) by (nonlinear_arith)
                    requires
                        0 <= t < 64,
                        0 <= t + n * s < 64,
                        n >= 1,
                        s >= 1 || s <= -1,
                ;
            }
        }
    }
}

/// After 64 steps no stone is left.
pub proof fn lemma_steps_vanish(m: u64, s: int, n: nat)
    requires
        is_shift(s),
        n >= 64,
    ensures
        steps(m, s, n) == 0,
{
    lemma_steps_bits(m, s, n);
    assert forall|t: int| 0 <= t < 64 implies !#[trigger] bit(steps(m, s, n), t) by {
        assert(t + n * s < 0 || t + n * s >= 64) by (nonlinear_arith)
            requires
                0 <= t < 64,
                n >= 64,
                s >= 1 || s <= -1,
        ;
    }
    lemma_zero_iff_no_bit(steps(m, s, n));
}

/// The stones of `enemy_board` that `next_move` of `player_board` turns over in the
/// direction of `shift`.
fn find_reverse_stones(player_board: u64, enemy_board: u64, next_move: u64, shift: i8) -> (r:
    u64)
    requires
        -64 < shift < 64,
    ensures
        r == reversed_in_direction(player_board, enemy_board, next_move, shift as int),
{
    let ghost s = shift as int;
    let mask: u64 = get_mask(shift);
    let masked_enemy = enemy_board & mask;
    let mut tmp = shift_board(next_move, shift);
    let mut reverse_tmp = tmp & masked_enemy;
    let ghost mut n: nat = 1;
    proof {
        assert(steps(next_move, s, 1) == shifted(steps(next_move, s, 0), s));
        let x = tmp & masked_enemy;
        assert(0u64 | x == x) by (bit_vector);
        assert(swept(masked_enemy, next_move, s, 1) == swept(masked_enemy, next_move, s, 0) | (
        steps(next_move, s, 1) & masked_enemy));
    }
    while (tmp & masked_enemy) != 0
        invariant
            -64 < s < 64,
            s == shift as int,
            masked_enemy == enemy_board & direction_mask(s),
            1 <= n <= 64,
            tmp == steps(next_move, s, n),
            reverse_tmp == swept(masked_enemy, next_move, s, n),
            first_gap(masked_enemy, next_move, s, 1) == first_gap(masked_enemy, next_move, s, n),
        decreases 64 - n,
    {
        proof {
            if !is_shift(s) {
                lemma_empty_board(enemy_board, s);
                lemma_empty_board(tmp, s);
            }
            if n >= 64 {
                lemma_steps_vanish(next_move, s, n);
                assert(0u64 & masked_enemy == 0) by (bit_vector);
            }
        }
        tmp = shift_board(tmp, shift);
        reverse_tmp |= tmp & masked_enemy;
        proof {
            n = n + 1;
        }
    }
    if (player_board & tmp) != 0 {
        proof {
            assert(player_board & tmp == tmp & player_board) by (bit_vector);
        }
        reverse_tmp
    } else {
        proof {
            assert(player_board & tmp == tmp & player_board) by (bit_vector);
        }
        0
    }
}

/// The boards after `p` plays `m` against `e`.
pub open spec fn next_boards(p: u64, e: u64, m: u64) -> (u64, u64) {
    (p | m | flipped(p, e, m), e & !flipped(p, e, m))
}

/// The boards after `player_board` plays `next_move`: the move and every stone it
/// turns over join the player's board and leave the enemy's.
pub fn next_board(player_board: u64, enemy_board: u64, next_move: u64) -> (r: (u64, u64))
    ensures
        r == next_boards(player_board, enemy_board, next_move),
        r.0 == player_board | next_move | flipped(player_board, enemy_board, next_move),
        r.1 == enemy_board & !flipped(player_board, enemy_board, next_move),
{
    let mut reverse: u64 = 0;
    let mut j: usize = 0;
    while j < 8
        invariant
            j <= 8,
            reverse == flipped_upto(player_board, enemy_board, next_move, j as nat),
        decreases 8 - j,
    {
        let shift = shift_of_rank(j);
        reverse |= find_reverse_stones(player_board, enemy_board, next_move, shift);
        j = j + 1;
    }
    (player_board | next_move | reverse, enemy_board & !reverse)
}

/// Number of stones on board `v`.
pub fn count_stone(v: u64) -> (r: u64)
    ensures
        r == stone_count(v),
{
    proof {
        lemma_fold_fits(v, 0x5555555555555555, 1);
    }
    let mut count = (v & 0x5555555555555555) + ((v >> 1) & 0x5555555555555555);
    assert(count == pairs(v));
    proof {
        lemma_fold_fits(count, 0x3333333333333333, 2);
    }
    count = (count & 0x3333333333333333) + ((count >> 2) & 0x3333333333333333);
    assert(count == nibbles(v));
    proof {
        lemma_fold_fits(count, 0x0f0f0f0f0f0f0f0f, 4);
    }
    count = (count & 0x0f0f0f0f0f0f0f0f) + ((count >> 4) & 0x0f0f0f0f0f0f0f0f);
    assert(count == bytes(v));
    proof {
        lemma_fold_fits(count, 0x00ff00ff00ff00ff, 8);
    }
    count = (count & 0x00ff00ff00ff00ff) + ((count >> 8) & 0x00ff00ff00ff00ff);
    assert(count == halfwords(v));
    proof {
        lemma_fold_fits(count, 0x0000ffff0000ffff, 16);
    }
    count = (count & 0x0000ffff0000ffff) + ((count >> 16) & 0x0000ffff0000ffff);
    assert(count == words(v));
    proof {
        lemma_fold_fits(count, 0x00000000ffffffff, 32);
        lemma_parallel_count(v);
        lemma_bits_below_is_sum(v);
    }
    (count & 0x00000000ffffffff) + ((count >> 32) & 0x00000000ffffffff)
}

/// `m` is the stone of a square on which `p` may play against `e`.
pub open spec fn is_legal_stone(m: u64, p: u64, e: u64) -> bool {
    exists|l: int, c: int| m == square_board(l, c) && #[trigger] is_legal_square(p, e, l, c)
}

/// `next_move` is a single square on which `player_board` may play.
pub fn judge_move(player_board: u64, enemy_board: u64, next_move: u64) -> (r: bool)
    ensures
        r == is_legal_stone(next_move, player_board, enemy_board),
{
    let n = count_stone(next_move);
    proof {
        lemma_count_one(next_move);
        if exists|l: int, c: int|
            next_move == square_board(l, c) && #[trigger] is_legal_square(
                player_board,
                enemy_board,
                l,
                c,
            ) {
            let (l, c) = choose|l: int, c: int|
                next_move == square_board(l, c) && #[trigger] is_legal_square(
                    player_board,
                    enemy_board,
                    l,
                    c,
                );
            lemma_square_board_bit(l, c);
        }
    }
    if n != 1 {
        false
    } else {
        let legal = legal_move(player_board, enemy_board);
        proof {
            let i = choose|i: int| #[trigger] only_bit(next_move, i);
            lemma_only_bit_square(next_move, i);
            let l = line_of(i);
            let c = column_of(i);
            lemma_bit_and(legal, next_move);
            lemma_zero_iff_no_bit(legal & next_move);
            lemma_square_of_index(i);
            assert(stone_at(legal, l, c) == is_legal_square(player_board, enemy_board, l, c));
            if exists|l2: int, c2: int|
                next_move == square_board(l2, c2) && #[trigger] is_legal_square(
                    player_board,
                    enemy_board,
                    l2,
                    c2,
                ) {
                let (l2, c2) = choose|l2: int, c2: int|
                    next_move == square_board(l2, c2) && #[trigger] is_legal_square(
                        player_board,
                        enemy_board,
                        l2,
                        c2,
                    );
                lemma_square_board_bit(l2, c2);
                assert(bit(next_move, square_index(l2, c2)));
                lemma_square_index_injective(l2, c2, l, c);
            }
            if (legal & next_move) != 0 {
                let t = choose|t: int| 0 <= t < 64 && #[trigger] bit(legal & next_move, t);
                assert(t == i);
                assert(is_legal_square(player_board, enemy_board, l, c));
            }
            if is_legal_square(player_board, enemy_board, l, c) {
                assert(bit(legal & next_move, i));
            }
        }
        if (legal & next_move) == 0 {
            false
        } else {
            true
        }
    }
}

/// Neither side can play.
pub open spec fn game_over(black: u64, white: u64) -> bool {
    forall|l: int, c: int|
        on_board(l, c) ==> !#[trigger] is_legal_square(black, white, l, c) && !is_legal_square(
            white,
            black,
            l,
            c,
        )
}

/// Neither side can play: the game is over.
pub fn no_move(black: u64, white: u64) -> (r: bool)
    ensures
        r == game_over(black, white),
{
    let b = legal_move(black, white);
    let w = legal_move(white, black);
    proof {
        lemma_no_stone(b);
        lemma_no_stone(w);
        if b == 0 && w == 0 {
            assert forall|l: int, c: int| on_board(l, c) implies !#[trigger] is_legal_square(
                black,
                white,
                l,
                c,
            ) && !is_legal_square(white, black, l, c) by {
                assert(!stone_at(b, l, c) && !stone_at(w, l, c));
            }
        }
        if forall|l: int, c: int|
            on_board(l, c) ==> !#[trigger] is_legal_square(black, white, l, c) && !is_legal_square(
                white,
                black,
                l,
                c,
            ) {
            assert forall|l: int, c: int| on_board(l, c) implies !#[trigger] stone_at(b, l, c) by {
                assert(!is_legal_square(black, white, l, c));
            }
            assert forall|l: int, c: int| on_board(l, c) implies !#[trigger] stone_at(w, l, c) by {
                assert(!is_legal_square(black, white, l, c) && !is_legal_square(white, black, l, c));
            }
        }
    }
    (b == 0) && (w == 0)
}

/// The text naming `my_move`: "PASS" when it holds no stone, otherwise the name of
/// its first stone in reading order from "A1" (its highest bit).
pub fn infer_move(my_move: u64) -> (r: String)
    ensures
        r@ == stone_name(my_move),
        my_move == 0 ==> r@ == pass_text(),
        my_move != 0 ==> exists|i: int| #[trigger] top_bit(my_move, i),
        forall|i: int| #[trigger] top_bit(my_move, i) ==> r@ == square_name(line_of(i), column_of(i)),
{
    let mut count: u8 = 0;
    let mut mask: u64 = 1 << 63;
    proof {
        crate::bits::lemma_single_bit(63);
        assert(only_bit(mask, 63));
    }
    while (my_move & mask == 0) && count < 64
        invariant
            count <= 64,
            count < 64 ==> only_bit(mask, 63 - count),
            count == 64 ==> mask == 0,
            forall|j: int| 63 - count < j < 64 ==> !#[trigger] bit(my_move, j),
        decreases 64 - count,
    {
        proof {
            lemma_bit_shifted(mask, 1);
            lemma_bit_and(my_move, mask);
            lemma_zero_iff_no_bit(my_move & mask);
            assert(!bit(my_move & mask, 63 - count));
            assert(shifted(mask, 1) == mask >> 1u64);
            if count == 63 {
                lemma_zero_iff_no_bit(mask >> 1u64);
            }
        }
        mask = mask >> 1u64;
        count = count + 1;
    }
    proof {
        lemma_bit_and(my_move, mask);
        lemma_zero_iff_no_bit(my_move & mask);
        lemma_zero_iff_no_bit(my_move);
        if count < 64 {
            assert(bit(my_move & mask, 63 - count));
            assert(top_bit(my_move, 63 - count));
            assert forall|i: int| #[trigger] top_bit(my_move, i) implies i == 63 - count by {
                if i < 63 - count {
                    assert(!bit(my_move, 63 - count));
                }
            }
            lemma_square_of_index(63 - count);
        } else {
            assert forall|i: int| #[trigger] top_bit(my_move, i) implies false by {
                assert(bit(my_move, i));
            }
        }
    }
    if count == 64 {
        proof {
            reveal_strlit("PASS");
        }
        String::from_str("PASS")
    } else {
        let column = (count % 8) as usize;
        let line = (count / 8) as usize;
        proof {
            reveal_strlit("ABCDEFGH");
            reveal_strlit("12345678");
        }
        let letter = "ABCDEFGH".substring_char(column, column + 1);
        let digit = "12345678".substring_char(line, line + 1);
        assert(letter@ == seq![column_letter(column as int)]);
        assert(digit@ == seq![line_digit(line as int)]);
        String::from_str(letter).concat(digit)
    }
}

pub proof fn lemma_low_byte(x: u32)
    by (bit_vector)
    ensures
        (x as u8) == x % 256,
{
}

/// Whether `encode_move` can read a text.
pub fn is_readable_move(text: &String) -> (b: bool)
    ensures
        b == is_move_text(text@),
{
    proof {
        reveal_strlit("PASS");
    }
    let pass = String::from_str("PASS");
    assert(pass@ =~= pass_text());
    if *text == pass {
        return true;
    }
    let s = text.as_str();
    if s.unicode_len() < 2 {
        return false;
    }
    let first_code = s.get_char(0) as u32;
    let second_code = s.get_char(1) as u32;
    let column = #[verifier::truncate] (first_code as u8);
    let line = #[verifier::truncate] (second_code as u8);
    proof {
        lemma_low_byte(first_code);
        lemma_low_byte(second_code);
    }
    if column < 65 || line < 49 {
        return false;
    }
    (column as u64 - 65) + (line as u64 - 49) * 8 <= 63
}

/// The stone that a move text names ("PASS" names none).
pub fn encode_move(my_move: String) -> (r: u64)
    requires
        is_move_text(my_move@),
    ensures
        r == encoded_move(my_move@),
{
    proof {
        reveal_strlit("PASS");
    }
    let pass = String::from_str("PASS");
    assert(pass@ =~= pass_text());
    if my_move == pass {
        0
    } else {
        let text = my_move.as_str();
        let first = text.get_char(0);
        let second = text.get_char(1);
        let first_code = first as u32;
        let second_code = second as u32;
        let column = #[verifier::truncate] (first_code as u8);
        let line = #[verifier::truncate] (second_code as u8);
        proof {
            lemma_low_byte(first_code);
            lemma_low_byte(second_code);
            assert(column as int == char_byte(my_move@[0]));
            assert(line as int == char_byte(my_move@[1]));
        }
        assert(my_move@ != pass_text());
        assert(text_offset(my_move@) <= 63);
        let shift = (column - 'A' as u8) + (line - '1' as u8) * 8;
        assert(shift as int == text_offset(my_move@));
        1u64 << ((63 - shift) as u64)
    }
}

/// How square `(l, c)` is drawn: a black stone, a white stone, a legal move, or
/// an empty square.
pub open spec fn square_mark(black: u64, white: u64, legal: u64, l: int, c: int) -> char {
    if stone_at(black, l, c) {
        '\u{25CF}'
    } else if stone_at(white, l, c) {
        '\u{25CB}'
    } else if stone_at(legal, l, c) {
        'X'
    } else {
        '.'
    }
}

/// The first `n` squares of line `l`, each mark followed by a space.
pub open spec fn line_cells(black: u64, white: u64, legal: u64, l: int, n: nat) -> Seq<char>
    decreases n,
{
    if n == 0 {
        Seq::empty()
    } else {
        line_cells(black, white, legal, l, (n - 1) as nat) + seq![
            square_mark(black, white, legal, l, n - 1),
            ' ',
        ]
    }
}

/// Line `l` of the picture: its digit, a space, its eight squares, a line break.
pub open spec fn line_picture(black: u64, white: u64, legal: u64, l: int) -> Seq<char> {
    seq![line_digit(l), ' '] + line_cells(black, white, legal, l, 8) + seq!['\n']
}

/// The first `n` lines of the picture.
pub open spec fn lines_picture(black: u64, white: u64, legal: u64, n: nat) -> Seq<char>
    decreases n,
{
    if n == 0 {
        Seq::empty()
    } else {
        lines_picture(black, white, legal, (n - 1) as nat) + line_picture(
            black,
            white,
            legal,
            n - 1,
        )
    }
}

/// The column letters above the picture.
pub open spec fn picture_header() -> Seq<char> {
    seq![' ', ' ', 'A', ' ', 'B', ' ', 'C', ' ', 'D', ' ', 'E', ' ', 'F', ' ', 'G', ' ', 'H', '\n']
}

/// The whole picture of a position.
pub open spec fn board_picture(black: u64, white: u64, legal: u64) -> Seq<char> {
    picture_header() + lines_picture(black, white, legal, 8)
}

proof fn lemma_line_cells(black: u64, white: u64, legal: u64, l: int, n: nat)
    ensures
        line_cells(black, white, legal, l, n).len() == 2 * n,
        forall|k: int|
            0 <= k < n ==> #[trigger] line_cells(black, white, legal, l, n)[2 * k] == square_mark(
                black,
                white,
                legal,
                l,
                k,
            ),
    decreases n,
{
    if n > 0 {
        lemma_line_cells(black, white, legal, l, (n - 1) as nat);
        let prev = line_cells(black, white, legal, l, (n - 1) as nat);
        let cur = line_cells(black, white, legal, l, n);
        assert forall|k: int| 0 <= k < n implies #[trigger] cur[2 * k] == square_mark(
            black,
            white,
            legal,
            l,
            k,
        ) by {
            if k < n - 1 {
                assert(cur[2 * k] == prev[2 * k]);
            }
        }
    }
}

proof fn lemma_lines_picture(black: u64, white: u64, legal: u64, n: nat)
    ensures
        lines_picture(black, white, legal, n).len() == 19 * n,
        forall|l: int, j: int|
            0 <= l < n && 0 <= j < 19 ==> #[trigger] lines_picture(black, white, legal, n)[19 * l
                + j] == line_picture(black, white, legal, l)[j],
    decreases n,
{
    if n > 0 {
        lemma_line_cells(black, white, legal, n - 1, 8);
        lemma_lines_picture(black, white, legal, (n - 1) as nat);
        let prev = lines_picture(black, white, legal, (n - 1) as nat);
        assert forall|l: int, j: int| 0 <= l < n && 0 <= j < 19 implies #[trigger] lines_picture(
            black,
            white,
            legal,
            n,
        )[19 * l + j] == line_picture(black, white, legal, l)[j] by {
            if l < n - 1 {
                assert(prev[19 * l + j] == line_picture(black, white, legal, l)[j]);
            } else {
                assert(19 * l + j - prev.len() == j);
            }
        }
    }
}

/// What the picture shows: a header line of 18 characters, then one line of 19
/// characters for each line of the board, top line "1" first, made of the line's
/// digit, a space and, for each column from A, the square's mark and a space,
/// then a line break. A square shows a black stone as a black circle, a white
/// stone as a white circle, an empty square of `legal` as 'X' and any other square
/// as '.'.
pub proof fn lemma_picture_shows_squares(black: u64, white: u64, legal: u64)
    ensures
        board_picture(black, white, legal).len() == 170,
        forall|l: int|
            0 <= l < 8 ==> #[trigger] board_picture(black, white, legal)[18 + 19 * l]
                == line_digit(l),
        forall|l: int|
            0 <= l < 8 ==> #[trigger] board_picture(black, white, legal)[18 + 19 * l + 18]
                == '\n',
        forall|l: int, c: int|
            on_board(l, c) ==> #[trigger] board_picture(black, white, legal)[18 + 19 * l + 2 + 2
                * c] == square_mark(black, white, legal, l, c),
        forall|l: int, c: int|
            on_board(l, c) ==> (#[trigger] square_mark(black, white, legal, l, c) == '\u{25CF}'
                <==> stone_at(black, l, c)),
        forall|l: int, c: int|
            on_board(l, c) && !stone_at(black, l, c) ==> (#[trigger] square_mark(
                black,
                white,
                legal,
                l,
                c,
            ) == '\u{25CB}' <==> stone_at(white, l, c)),
        forall|l: int, c: int|
            on_board(l, c) && !stone_at(black, l, c) && !stone_at(white, l, c) ==> (
            #[trigger] square_mark(black, white, legal, l, c) == 'X' <==> stone_at(legal, l, c)),
        forall|l: int, c: int|
            on_board(l, c) && !stone_at(black, l, c) && !stone_at(white, l, c) && !stone_at(
                legal,
                l,
                c,
            ) ==> #[trigger] square_mark(black, white, legal, l, c) == '.',
{
    let pic = board_picture(black, white, legal);
    let body = lines_picture(black, white, legal, 8);
    lemma_lines_picture(black, white, legal, 8);
    assert forall|l: int| 0 <= l < 8 implies #[trigger] pic[18 + 19 * l] == line_digit(l) by {
        assert(pic[18 + 19 * l] == body[19 * l + 0]);
    }
    assert forall|l: int| 0 <= l < 8 implies #[trigger] pic[18 + 19 * l + 18] == '\n' by {
        lemma_line_cells(black, white, legal, l, 8);
        let line = line_picture(black, white, legal, l);
        assert(line.len() == 19);
        assert(line[18] == '\n');
        assert(pic[18 + 19 * l + 18] == body[19 * l + 18]);
    }
    assert forall|l: int, c: int| on_board(l, c) implies #[trigger] pic[18 + 19 * l + 2 + 2 * c]
        == square_mark(black, white, legal, l, c) by {
        lemma_line_cells(black, white, legal, l, 8);
        assert(pic[18 + 19 * l + 2 + 2 * c] == body[19 * l + (2 + 2 * c)]);
        assert(line_picture(black, white, legal, l)[2 + 2 * c] == line_cells(
            black,
            white,
            legal,
            l,
            8,
        )[2 * c]);
    }
}

/// The text picture of a position, line "1" first, with the squares of `legal`
/// marked: what the game prints before each move.
pub fn board_text(black: u64, white: u64, legal: u64) -> (r: String)
    ensures
        r@ == board_picture(black, white, legal),
{
    proof {
        reveal_strlit("  A B C D E F G H\n");
        reveal_strlit("12345678");
        reveal_strlit(" ");
        reveal_strlit("\n");
        reveal_strlit("\u{25CF}");
        reveal_strlit("\u{25CB}");
        reveal_strlit("X");
        reveal_strlit(".");
    }
    let mut text = String::from_str("  A B C D E F G H\n");
    assert(text@ =~= picture_header());
    let mut mask: u64 = 1 << 63;
    let mut row: usize = 0;
    proof {
        crate::bits::lemma_single_bit(63);
    }
    assert(text@ =~= picture_header() + lines_picture(black, white, legal, 0));
    while row < 8
        invariant
            row <= 8,
            row < 8 ==> only_bit(mask, 63 - 8 * row),
            text@ == picture_header() + lines_picture(black, white, legal, row as nat),
        decreases 8 - row,
    {
        let ghost before = text@;
        proof {
            reveal_strlit("12345678");
            reveal_strlit(" ");
            reveal_strlit("\n");
        }
        let digit = "12345678".substring_char(row, row + 1);
        assert(digit@ =~= seq![line_digit(row as int)]);
        text.append(digit);
        text.append(" ");
        let mut col: usize = 0;
        proof {
            assert(text@ =~= before + seq![line_digit(row as int), ' '] + line_cells(
                black,
                white,
                legal,
                row as int,
                0,
            ));
        }
        while col < 8
            invariant
                row < 8,
                col <= 8,
                col < 8 ==> only_bit(mask, 63 - 8 * row - col),
                col == 8 && row < 7 ==> only_bit(mask, 63 - 8 * (row + 1)),
                text@ == before + seq![line_digit(row as int), ' '] + line_cells(
                    black,
                    white,
                    legal,
                    row as int,
                    col as nat,
                ),
            decreases 8 - col,
        {
            proof {
                reveal_strlit(" ");
                reveal_strlit("\u{25CF}");
                reveal_strlit("\u{25CB}");
                reveal_strlit("X");
                reveal_strlit(".");
                lemma_index_of_square(row as int, col as int);
                lemma_and_only_bit(black, mask, 63 - 8 * row - col);
                lemma_and_only_bit(white, mask, 63 - 8 * row - col);
                lemma_and_only_bit(legal, mask, 63 - 8 * row - col);
                lemma_bit_shifted(mask, 1);
                assert(shifted(mask, 1) == mask >> 1u64);
            }
            let b = (black & mask) != 0;
            let w = (white & mask) != 0;
            let n = (legal & mask) != 0;
            let square = if b {
                "\u{25CF}"
            } else if w {
                "\u{25CB}"
            } else if n {
                "X"
            } else {
                "."
            };
            let ghost cells = text@;
            text.append(square);
            text.append(" ");
            proof {
                assert(square@ =~= seq![square_mark(black, white, legal, row as int, col as int)]);
                assert(text@ =~= before + seq![line_digit(row as int), ' '] + line_cells(
                    black,
                    white,
                    legal,
                    row as int,
                    (col + 1) as nat,
                ));
            }
            mask = mask >> 1u64;
            col = col + 1;
        }
        text.append("\n");
        proof {
            assert(text@ =~= picture_header() + lines_picture(
                black,
                white,
                legal,
                (row + 1) as nat,
            ));
        }
        row = row + 1;
    }
    text
}

} // verus!
