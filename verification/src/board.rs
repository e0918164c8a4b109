//! The board as a grid of squares, and the capturing rule of the game.
//!
//! A square is named by its line `l` (0 is the top line, "1") and its column `c`
//! (0 is the left column, "A"). A board is a `u64` whose bit `63 - 8 * l - c`
//! is set when a stone stands on square `(l, c)`.
use vstd::prelude::*;
use crate::bits::{bit, only_bit, lemma_zero_iff_no_bit, lemma_single_bit, lemma_bits_determine};

verus! {

/// Square `(l, c)` lies on the eight by eight board.
pub open spec fn on_board(l: int, c: int) -> bool {
    0 <= l < 8 && 0 <= c < 8
}

/// Bit position of square `(l, c)`: "A1" is bit 63 and "H8" is bit 0.
pub open spec fn square_index(l: int, c: int) -> int {
    63 - 8 * l - c
}

/// Line of the square at bit position `i`.
pub open spec fn line_of(i: int) -> int {
    (63 - i) / 8
}

/// Column of the square at bit position `i`.
pub open spec fn column_of(i: int) -> int {
    (63 - i) % 8
}

/// Board `b` holds a stone on square `(l, c)`.
pub open spec fn stone_at(b: u64, l: int, c: int) -> bool {
    on_board(l, c) && bit(b, square_index(l, c))
}

/// Square `(l, c)` holds no stone of `p` nor of `e`.
pub open spec fn empty_square(p: u64, e: u64, l: int, c: int) -> bool {
    on_board(l, c) && !stone_at(p, l, c) && !stone_at(e, l, c)
}

/// One of the eight ways to walk from a square to a neighbouring one.
pub open spec fn is_direction(dl: int, dc: int) -> bool {
    -1 <= dl <= 1 && -1 <= dc <= 1 && !(dl == 0 && dc == 0)
}

/// Walking from `(l, c)` in direction `(dl, dc)`: the next `k` squares hold stones
/// of `e`, and the square after them holds a stone of `p`.
pub open spec fn flanked(p: u64, e: u64, l: int, c: int, dl: int, dc: int, k: nat) -> bool
    decreases k,
{
    if k == 0 {
        stone_at(p, l + dl, c + dc)
    } else {
        stone_at(e, l + dl, c + dc) && flanked(p, e, l + dl, c + dc, dl, dc, (k - 1) as nat)
    }
}

/// A stone of `p` put on `(l, c)` would enclose at least one stone of `e`
/// between itself and another stone of `p`, walking in direction `(dl, dc)`.
pub open spec fn captures(p: u64, e: u64, l: int, c: int, dl: int, dc: int) -> bool {
    exists|k: nat| 1 <= k && #[trigger] flanked(p, e, l, c, dl, dc, k)
}

/// As `captures`, with at most `n` enclosed stones.
pub open spec fn captures_within(p: u64, e: u64, l: int, c: int, dl: int, dc: int, n: nat) -> bool {
    exists|k: nat| 1 <= k <= n && #[trigger] flanked(p, e, l, c, dl, dc, k)
}

/// Player `p` may play on `(l, c)` against `e`: the square is empty and a stone
/// there would enclose stones of `e` in some direction.
pub open spec fn is_legal_square(p: u64, e: u64, l: int, c: int) -> bool {
    &&& empty_square(p, e, l, c)
    &&& exists|dl: int, dc: int| is_direction(dl, dc) && #[trigger] captures(p, e, l, c, dl, dc)
}

/// Square `(l2, c2)` is one of the first `k` squares met walking from `(l, c)` in
/// direction `(dl, dc)`.
pub open spec fn on_walk(l: int, c: int, dl: int, dc: int, k: nat, l2: int, c2: int) -> bool
    decreases k,
{
    if k == 0 {
        false
    } else {
        (l2 == l + dl && c2 == c + dc) || on_walk(l + dl, c + dc, dl, dc, (k - 1) as nat, l2, c2)
    }
}

/// A stone of `p` put on `(l, c)` turns over the stone on `(l2, c2)` by enclosing it
/// in direction `(dl, dc)`.
pub open spec fn turned_in_direction(
    p: u64,
    e: u64,
    l: int,
    c: int,
    dl: int,
    dc: int,
    l2: int,
    c2: int,
) -> bool {
    exists|k: nat|
        1 <= k && #[trigger] flanked(p, e, l, c, dl, dc, k) && on_walk(l, c, dl, dc, k, l2, c2)
}

/// A stone of `p` put on `(l, c)` turns over the stone on `(l2, c2)`.
pub open spec fn turned(p: u64, e: u64, l: int, c: int, l2: int, c2: int) -> bool {
    exists|dl: int, dc: int|
        is_direction(dl, dc) && #[trigger] turned_in_direction(p, e, l, c, dl, dc, l2, c2)
}

/// The board holding one stone, on square `(l, c)`.
pub open spec fn square_board(l: int, c: int) -> u64 {
    1u64 << (square_index(l, c) as u64)
}

/// Letter of column `c`: "A" to "H".
pub open spec fn column_letter(c: int) -> char {
    (65 + c) as char
}

/// Digit of line `l`: "1" to "8".
pub open spec fn line_digit(l: int) -> char {
    (49 + l) as char
}

/// The name of square `(l, c)`, such as "D3": column letter, then line digit.
pub open spec fn square_name(l: int, c: int) -> Seq<char> {
    seq![column_letter(c), line_digit(l)]
}

/// The text of a pass.
pub open spec fn pass_text() -> Seq<char> {
    seq!['P', 'A', 'S', 'S']
}

/// The low byte of a character's code, as a cast of the character to `u8` keeps it.
pub open spec fn char_byte(ch: char) -> int {
    (ch as int) % 256
}

/// Distance from "A1" in reading order named by the first two characters of `t`:
/// column byte minus `'A'`, plus eight times line byte minus `'1'`.
pub open spec fn text_offset(t: Seq<char>) -> int {
    (char_byte(t[0]) - 65) + (char_byte(t[1]) - 49) * 8
}

/// A move text that can be read: "PASS", or two leading characters that name a
/// distance from "A1" within the board.
pub open spec fn is_move_text(t: Seq<char>) -> bool {
    t == pass_text() || (t.len() >= 2 && char_byte(t[0]) >= 65 && char_byte(t[1]) >= 49
        && text_offset(t) <= 63)
}

/// The board a move text stands for: nothing for "PASS", otherwise the one stone at
/// the named distance from "A1".
pub open spec fn encoded_move(t: Seq<char>) -> u64 {
    if t == pass_text() {
        0
    } else {
        1u64 << ((63 - text_offset(t)) as u64)
    }
}

/// Bit `i` is the highest bit set in `x`: the first stone in reading order.
pub open spec fn top_bit(x: u64, i: int) -> bool {
    bit(x, i) && forall|j: int| i < j < 64 ==> !#[trigger] bit(x, j)
}

/// The name of the first stone of `m` in reading order, or "PASS" when `m` is empty.
pub open spec fn stone_name(m: u64) -> Seq<char> {
    if m == 0 {
        pass_text()
    } else {
        let i = choose|i: int| #[trigger] top_bit(m, i);
        square_name(line_of(i), column_of(i))
    }
}

/// The eight shift amounts of the bit-parallel scan, one for each direction.
pub open spec fn is_shift(s: int) -> bool {
    s == 1 || s == -1 || s == 7 || s == -7 || s == 8 || s == -8 || s == 9 || s == -9
}

/// Line step of the direction in which a stone sits `s` bit positions higher.
pub open spec fn shift_dl(s: int) -> int {
    if s == 7 || s == 8 || s == 9 {
        -1
    } else if s == -7 || s == -8 || s == -9 {
        1
    } else {
        0
    }
}

/// Column step of the direction in which a stone sits `s` bit positions higher.
pub open spec fn shift_dc(s: int) -> int {
    if s == 1 || s == 9 || s == -7 {
        -1
    } else if s == -1 || s == -9 || s == 7 {
        1
    } else {
        0
    }
}

/// The shift amount of direction `(dl, dc)`.
pub open spec fn direction_shift(dl: int, dc: int) -> int {
    -8 * dl - dc
}

/// Squares from which one step in the direction of shift `s`, and one step back,
/// both stay on the board.
pub open spec fn direction_mask(s: int) -> u64 {
    if s == 1 || s == -1 {
        0x7E7E7E7E7E7E7E7Eu64
    } else if s == 7 || s == -7 || s == 9 || s == -9 {
        0x007E7E7E7E7E7E00u64
    } else if s == 8 || s == -8 {
        0x00FFFFFFFFFFFF00u64
    } else {
        0
    }
}

pub proof fn lemma_square_of_index(i: int)
    requires
        0 <= i < 64,
    ensures
        on_board(line_of(i), column_of(i)),
        square_index(line_of(i), column_of(i)) == i,
{
}

pub proof fn lemma_index_of_square(l: int, c: int)
    requires
        on_board(l, c),
    ensures
        0 <= square_index(l, c) < 64,
        line_of(square_index(l, c)) == l,
        column_of(square_index(l, c)) == c,
{
    assert(63 - square_index(l, c) == 8 * l + c);
}

pub proof fn lemma_square_index_injective(l1: int, c1: int, l2: int, c2: int)
    requires
        on_board(l1, c1),
        on_board(l2, c2),
        square_index(l1, c1) == square_index(l2, c2),
    ensures
        l1 == l2,
        c1 == c2,
{
    lemma_index_of_square(l1, c1);
    lemma_index_of_square(l2, c2);
}

pub proof fn lemma_shift_direction(s: int)
    requires
        is_shift(s),
    ensures
        is_direction(shift_dl(s), shift_dc(s)),
        direction_shift(shift_dl(s), shift_dc(s)) == s,
        forall|l: int, c: int|
            #[trigger] square_index(l + shift_dl(s), c + shift_dc(s)) == square_index(l, c) + s,
{
}

pub proof fn lemma_direction_shift(dl: int, dc: int)
    requires
        is_direction(dl, dc),
    ensures
        is_shift(direction_shift(dl, dc)),
        shift_dl(direction_shift(dl, dc)) == dl,
        shift_dc(direction_shift(dl, dc)) == dc,
{
}

proof fn lemma_horizontal_mask_bits(t: u64)
    by (bit_vector)
    requires
        t < 64,
    ensures
        ((0x7E7E7E7E7E7E7E7Eu64 >> t) & 1 == 1) == (t % 8 != 0 && t % 8 != 7),
{
}

proof fn lemma_vertical_mask_bits(t: u64)
    by (bit_vector)
    requires
        t < 64,
    ensures
        ((0x00FFFFFFFFFFFF00u64 >> t) & 1 == 1) == (8 <= t && t < 56),
{
}

proof fn lemma_inner_mask_bits(t: u64)
    by (bit_vector)
    requires
        t < 64,
    ensures
        ((0x007E7E7E7E7E7E00u64 >> t) & 1 == 1) == (8 <= t && t < 56 && t % 8 != 0 && t % 8
            != 7),
{
}

/// The mask of shift `s` holds exactly the squares whose two neighbours in that
/// direction are on the board.
pub proof fn lemma_direction_mask(s: int)
    requires
        is_shift(s),
    ensures
        forall|l: int, c: int|
            on_board(l, c) ==> (#[trigger] stone_at(direction_mask(s), l, c) <==> (on_board(
                l + shift_dl(s),
                c + shift_dc(s),
            ) && on_board(l - shift_dl(s), c - shift_dc(s)))),
{
    assert forall|l: int, c: int| on_board(l, c) implies (#[trigger] stone_at(
        direction_mask(s),
        l,
        c,
    ) <==> (on_board(l + shift_dl(s), c + shift_dc(s)) && on_board(
        l - shift_dl(s),
        c - shift_dc(s),
    ))) by {
        let t = square_index(l, c);
        let tt = t as u64;
        assert(t == 8 * (7 - l) + (7 - c));
        assert(t % 8 == 7 - c);
        assert(t / 8 == 7 - l);
        lemma_horizontal_mask_bits(tt);
        lemma_vertical_mask_bits(tt);
        lemma_inner_mask_bits(tt);
    }
}

/// A run of enclosed stones walks away from its starting square, so it stays short:
/// it ends on the board, at most seven steps away.
pub proof fn lemma_flanked_reach(p: u64, e: u64, l: int, c: int, dl: int, dc: int, k: nat)
    requires
        flanked(p, e, l, c, dl, dc, k),
    ensures
        on_board(l + dl, c + dc),
        dl == 1 ==> l + k + 1 <= 7,
        dl == -1 ==> l - k - 1 >= 0,
        dc == 1 ==> c + k + 1 <= 7,
        dc == -1 ==> c - k - 1 >= 0,
    decreases k,
{
    if k > 0 {
        lemma_flanked_reach(p, e, l + dl, c + dc, dl, dc, (k - 1) as nat);
    }
}

/// From a square on the board, at most six stones can be enclosed in one direction.
pub proof fn lemma_captures_within_six(p: u64, e: u64, l: int, c: int, dl: int, dc: int)
    requires
        on_board(l, c),
        is_direction(dl, dc),
    ensures
        captures(p, e, l, c, dl, dc) == captures_within(p, e, l, c, dl, dc, 6),
{
    if captures(p, e, l, c, dl, dc) {
        let k = choose|k: nat| 1 <= k && #[trigger] flanked(p, e, l, c, dl, dc, k);
        lemma_flanked_reach(p, e, l, c, dl, dc, k);
        assert(1 <= k <= 6 && flanked(p, e, l, c, dl, dc, k));
    }
}

/// Enclosing up to `n + 1` stones from `(l, c)`: either up to `n` of them, or the
/// neighbour is a stone of `e` from which up to `n` stones are enclosed.
pub proof fn lemma_captures_within_step(
    p: u64,
    e: u64,
    l: int,
    c: int,
    dl: int,
    dc: int,
    n: nat,
)
    requires
        n >= 1,
    ensures
        captures_within(p, e, l, c, dl, dc, n + 1) == (captures_within(p, e, l, c, dl, dc, n) || (
        stone_at(e, l + dl, c + dc) && captures_within(p, e, l + dl, c + dc, dl, dc, n))),
{
    if captures_within(p, e, l, c, dl, dc, n + 1) && !captures_within(p, e, l, c, dl, dc, n) {
        let k = choose|k: nat| 1 <= k <= n + 1 && #[trigger] flanked(p, e, l, c, dl, dc, k);
        assert(k == n + 1);
        assert(flanked(p, e, l + dl, c + dc, dl, dc, (k - 1) as nat));
        assert(1 <= (k - 1) as nat <= n);
    }
    if stone_at(e, l + dl, c + dc) && captures_within(p, e, l + dl, c + dc, dl, dc, n) {
        let k = choose|k: nat| 1 <= k <= n && #[trigger] flanked(p, e, l + dl, c + dc, dl, dc, k);
        assert(flanked(p, e, l, c, dl, dc, k + 1));
    }
}

/// Enclosing exactly one stone.
pub proof fn lemma_captures_within_one(p: u64, e: u64, l: int, c: int, dl: int, dc: int)
    ensures
        captures_within(p, e, l, c, dl, dc, 1) == (stone_at(e, l + dl, c + dc) && stone_at(
            p,
            l + dl + dl,
            c + dc + dc,
        )),
{
    if stone_at(e, l + dl, c + dc) && stone_at(p, l + dl + dl, c + dc + dc) {
        assert(flanked(p, e, l + dl, c + dc, dl, dc, 0));
        assert(flanked(p, e, l, c, dl, dc, 1));
    }
    if captures_within(p, e, l, c, dl, dc, 1) {
        let k = choose|k: nat| 1 <= k <= 1 && #[trigger] flanked(p, e, l, c, dl, dc, k);
        assert(k == 1);
        assert(flanked(p, e, l + dl, c + dc, dl, dc, 0));
    }
}

/// A board is empty exactly when no square holds a stone.
pub proof fn lemma_no_stone(x: u64)
    ensures
        (x == 0) == (forall|l: int, c: int| on_board(l, c) ==> !#[trigger] stone_at(x, l, c)),
{
    lemma_zero_iff_no_bit(x);
    if forall|l: int, c: int| on_board(l, c) ==> !#[trigger] stone_at(x, l, c) {
        assert forall|t: int| 0 <= t < 64 implies !#[trigger] bit(x, t) by {
            lemma_square_of_index(t);
            assert(!stone_at(x, line_of(t), column_of(t)));
        }
    }
}

/// A board with a single bit set is the board of one square.
pub proof fn lemma_only_bit_square(x: u64, i: int)
    requires
        only_bit(x, i),
    ensures
        on_board(line_of(i), column_of(i)),
        x == square_board(line_of(i), column_of(i)),
{
    lemma_square_of_index(i);
    lemma_single_bit(i as u64);
    lemma_bits_determine(x, square_board(line_of(i), column_of(i)));
}

/// The board of one square has a single bit set, at the square's position.
pub proof fn lemma_square_board_bit(l: int, c: int)
    requires
        on_board(l, c),
    ensures
        only_bit(square_board(l, c), square_index(l, c)),
{
    lemma_index_of_square(l, c);
    lemma_single_bit(square_index(l, c) as u64);
}

proof fn lemma_centre_bits(j: u64)
    by (bit_vector)
    requires
        j < 64,
    ensures
        ((0x0000000810000000u64 >> j) & 1 == 1) == (j == 35 || j == 28),
        ((0x0000001008000000u64 >> j) & 1 == 1) == (j == 36 || j == 27),
{
}

/// The two boards of the opening position: the stones on E4 and D5, and the
/// stones on D4 and E5.
pub proof fn lemma_centre_boards()
    ensures
        forall|l: int, c: int|
            #[trigger] stone_at(0x0000000810000000u64, l, c) == ((l == 3 && c == 4) || (l == 4 && c
                == 3)),
        forall|l: int, c: int|
            #[trigger] stone_at(0x0000001008000000u64, l, c) == ((l == 3 && c == 3) || (l == 4 && c
                == 4)),
{
    assert forall|l: int, c: int|
        #[trigger] stone_at(0x0000000810000000u64, l, c) == ((l == 3 && c == 4) || (l == 4 && c
            == 3)) by {
        if on_board(l, c) {
            lemma_index_of_square(l, c);
            lemma_centre_bits(square_index(l, c) as u64);
        }
    }
    assert forall|l: int, c: int|
        #[trigger] stone_at(0x0000001008000000u64, l, c) == ((l == 3 && c == 3) || (l == 4 && c
            == 4)) by {
        if on_board(l, c) {
            lemma_index_of_square(l, c);
            lemma_centre_bits(square_index(l, c) as u64);
        }
    }
}

} // verus!
