//! The eight symmetries of the board (mirrors and rotations), and how the rules
//! commute with them: the legal squares of a mirrored or rotated position are the
//! mirrored or rotated legal squares, and so is the position after a move.
//!
//! Mirroring the lines top to bottom is what `u64::swap_bytes` does to a board;
//! turning it half round is what `u64::reverse_bits` does.
use vstd::prelude::*;
use crate::bits::{bit, lemma_bit_and, lemma_single_bit, lemma_zero_iff_no_bit};
use crate::board::{
    on_board,
    square_index,
    stone_at,
    empty_square,
    is_direction,
    flanked,
    captures,
    is_legal_square,
    on_walk,
    turned_in_direction,
    turned,
    square_board,
    line_of,
    column_of,
    lemma_square_of_index,
    lemma_index_of_square,
};
use crate::rule::{legal_board, next_boards, lemma_legal_board_exists};
use crate::laws::lemma_move_outcome;

verus! {

/// One of the eight symmetries of the board: lines and columns first exchange
/// places (when `transpose`), then the lines are counted from the bottom (when
/// `flip_lines`) and the columns from the right (when `flip_columns`).
pub struct Symmetry {
    pub transpose: bool,
    pub flip_lines: bool,
    pub flip_columns: bool,
}

/// Line of the square that `(l, c)` is carried to by `g`.
pub open spec fn sym_line(g: Symmetry, l: int, c: int) -> int {
    let a = if g.transpose {
        c
    } else {
        l
    };
    if g.flip_lines {
        7 - a
    } else {
        a
    }
}

/// Column of the square that `(l, c)` is carried to by `g`.
pub open spec fn sym_column(g: Symmetry, l: int, c: int) -> int {
    let b = if g.transpose {
        l
    } else {
        c
    };
    if g.flip_columns {
        7 - b
    } else {
        b
    }
}

/// Line step of the direction that `(dl, dc)` is carried to by `g`.
pub open spec fn dir_line(g: Symmetry, dl: int, dc: int) -> int {
    let a = if g.transpose {
        dc
    } else {
        dl
    };
    if g.flip_lines {
        -a
    } else {
        a
    }
}

/// Column step of the direction that `(dl, dc)` is carried to by `g`.
pub open spec fn dir_column(g: Symmetry, dl: int, dc: int) -> int {
    let b = if g.transpose {
        dl
    } else {
        dc
    };
    if g.flip_columns {
        -b
    } else {
        b
    }
}

/// The symmetry that undoes `g`.
pub open spec fn inverse(g: Symmetry) -> Symmetry {
    Symmetry {
        transpose: g.transpose,
        flip_lines: if g.transpose {
            g.flip_columns
        } else {
            g.flip_lines
        },
        flip_columns: if g.transpose {
            g.flip_lines
        } else {
            g.flip_columns
        },
    }
}

/// Board `y` is board `x` carried by the symmetry `g`: a stone stands on a square
/// of `x` exactly when one stands on its image in `y`.
pub open spec fn image_of(y: u64, x: u64, g: Symmetry) -> bool {
    forall|l: int, c: int|
        on_board(l, c) ==> #[trigger] stone_at(x, l, c) == stone_at(
            y,
            sym_line(g, l, c),
            sym_column(g, l, c),
        )
}

/// How `g` acts on one square and one direction.
proof fn lemma_sym_facts(g: Symmetry, l: int, c: int, dl: int, dc: int)
    ensures
        on_board(l, c) == on_board(sym_line(g, l, c), sym_column(g, l, c)),
        sym_line(inverse(g), sym_line(g, l, c), sym_column(g, l, c)) == l,
        sym_column(inverse(g), sym_line(g, l, c), sym_column(g, l, c)) == c,
        sym_line(g, sym_line(inverse(g), l, c), sym_column(inverse(g), l, c)) == l,
        sym_column(g, sym_line(inverse(g), l, c), sym_column(inverse(g), l, c)) == c,
        sym_line(g, l + dl, c + dc) == sym_line(g, l, c) + dir_line(g, dl, dc),
        sym_column(g, l + dl, c + dc) == sym_column(g, l, c) + dir_column(g, dl, dc),
        is_direction(dl, dc) == is_direction(dir_line(g, dl, dc), dir_column(g, dl, dc)),
        dir_line(g, dir_line(inverse(g), dl, dc), dir_column(inverse(g), dl, dc)) == dl,
        dir_column(g, dir_line(inverse(g), dl, dc), dir_column(inverse(g), dl, dc)) == dc,
{
}

/// The image relation holds on every square, on the board or off it.
proof fn lemma_image_at(y: u64, x: u64, g: Symmetry, l: int, c: int)
    requires
        image_of(y, x, g),
    ensures
        stone_at(x, l, c) == stone_at(y, sym_line(g, l, c), sym_column(g, l, c)),
{
    lemma_sym_facts(g, l, c, 0, 0);
}

/// Seen backwards, an image is the original carried by the inverse symmetry.
proof fn lemma_image_inverse(y: u64, x: u64, g: Symmetry)
    requires
        image_of(y, x, g),
    ensures
        image_of(x, y, inverse(g)),
{
    assert forall|l: int, c: int| on_board(l, c) implies #[trigger] stone_at(y, l, c) == stone_at(
        x,
        sym_line(inverse(g), l, c),
        sym_column(inverse(g), l, c),
    ) by {
        let l0 = sym_line(inverse(g), l, c);
        let c0 = sym_column(inverse(g), l, c);
        lemma_sym_facts(g, l, c, 0, 0);
        lemma_image_at(y, x, g, l0, c0);
    }
}

/// Enclosing runs of stones are carried along by a symmetry.
proof fn lemma_flanked_image(
    p: u64,
    e: u64,
    p2: u64,
    e2: u64,
    g: Symmetry,
    l: int,
    c: int,
    dl: int,
    dc: int,
    k: nat,
)
    requires
        image_of(p2, p, g),
        image_of(e2, e, g),
    ensures
        flanked(
            p2,
            e2,
            sym_line(g, l, c),
            sym_column(g, l, c),
            dir_line(g, dl, dc),
            dir_column(g, dl, dc),
            k,
        ) == flanked(p, e, l, c, dl, dc, k),
    decreases k,
{
    lemma_sym_facts(g, l, c, dl, dc);
    lemma_image_at(p2, p, g, l + dl, c + dc);
    lemma_image_at(e2, e, g, l + dl, c + dc);
    if k > 0 {
        lemma_flanked_image(p, e, p2, e2, g, l + dl, c + dc, dl, dc, (k - 1) as nat);
    }
}

/// The squares met on a walk are carried along by a symmetry.
proof fn lemma_on_walk_image(
    g: Symmetry,
    l: int,
    c: int,
    dl: int,
    dc: int,
    k: nat,
    l2: int,
    c2: int,
)
    ensures
        on_walk(
            sym_line(g, l, c),
            sym_column(g, l, c),
            dir_line(g, dl, dc),
            dir_column(g, dl, dc),
            k,
            sym_line(g, l2, c2),
            sym_column(g, l2, c2),
        ) == on_walk(l, c, dl, dc, k, l2, c2),
    decreases k,
{
    lemma_sym_facts(g, l, c, dl, dc);
    lemma_sym_facts(g, l2, c2, 0, 0);
    lemma_sym_facts(g, l + dl, c + dc, 0, 0);
    if k > 0 {
        lemma_on_walk_image(g, l + dl, c + dc, dl, dc, (k - 1) as nat, l2, c2);
    }
}

/// Capturing in a direction is carried along by a symmetry.
proof fn lemma_captures_image(
    p: u64,
    e: u64,
    p2: u64,
    e2: u64,
    g: Symmetry,
    l: int,
    c: int,
    dl: int,
    dc: int,
)
    requires
        image_of(p2, p, g),
        image_of(e2, e, g),
    ensures
        captures(
            p2,
            e2,
            sym_line(g, l, c),
            sym_column(g, l, c),
            dir_line(g, dl, dc),
            dir_column(g, dl, dc),
        ) == captures(p, e, l, c, dl, dc),
{
    let l1 = sym_line(g, l, c);
    let c1 = sym_column(g, l, c);
    let dl1 = dir_line(g, dl, dc);
    let dc1 = dir_column(g, dl, dc);
    if captures(p, e, l, c, dl, dc) {
        let k = choose|k: nat| 1 <= k && #[trigger] flanked(p, e, l, c, dl, dc, k);
        lemma_flanked_image(p, e, p2, e2, g, l, c, dl, dc, k);
        assert(flanked(p2, e2, l1, c1, dl1, dc1, k));
    }
    if captures(p2, e2, l1, c1, dl1, dc1) {
        let k = choose|k: nat| 1 <= k && #[trigger] flanked(p2, e2, l1, c1, dl1, dc1, k);
        lemma_flanked_image(p, e, p2, e2, g, l, c, dl, dc, k);
        assert(flanked(p, e, l, c, dl, dc, k));
    }
}

/// Turning a stone over in a direction is carried along by a symmetry.
proof fn lemma_turned_in_direction_image(
    p: u64,
    e: u64,
    p2: u64,
    e2: u64,
    g: Symmetry,
    l: int,
    c: int,
    dl: int,
    dc: int,
    l2: int,
    c2: int,
)
    requires
        image_of(p2, p, g),
        image_of(e2, e, g),
    ensures
        turned_in_direction(
            p2,
            e2,
            sym_line(g, l, c),
            sym_column(g, l, c),
            dir_line(g, dl, dc),
            dir_column(g, dl, dc),
            sym_line(g, l2, c2),
            sym_column(g, l2, c2),
        ) == turned_in_direction(p, e, l, c, dl, dc, l2, c2),
{
    let l1 = sym_line(g, l, c);
    let c1 = sym_column(g, l, c);
    let dl1 = dir_line(g, dl, dc);
    let dc1 = dir_column(g, dl, dc);
    let l3 = sym_line(g, l2, c2);
    let c3 = sym_column(g, l2, c2);
    if turned_in_direction(p, e, l, c, dl, dc, l2, c2) {
        let k = choose|k: nat|
            1 <= k && #[trigger] flanked(p, e, l, c, dl, dc, k) && on_walk(l, c, dl, dc, k, l2, c2);
        lemma_flanked_image(p, e, p2, e2, g, l, c, dl, dc, k);
        lemma_on_walk_image(g, l, c, dl, dc, k, l2, c2);
        assert(flanked(p2, e2, l1, c1, dl1, dc1, k) && on_walk(l1, c1, dl1, dc1, k, l3, c3));
    }
    if turned_in_direction(p2, e2, l1, c1, dl1, dc1, l3, c3) {
        let k = choose|k: nat|
            1 <= k && #[trigger] flanked(p2, e2, l1, c1, dl1, dc1, k) && on_walk(
                l1,
                c1,
                dl1,
                dc1,
                k,
                l3,
                c3,
            );
        lemma_flanked_image(p, e, p2, e2, g, l, c, dl, dc, k);
        lemma_on_walk_image(g, l, c, dl, dc, k, l2, c2);
        assert(flanked(p, e, l, c, dl, dc, k) && on_walk(l, c, dl, dc, k, l2, c2));
    }
}

/// A square is legal exactly when its image is legal in the carried position.
proof fn lemma_legal_square_image(p: u64, e: u64, p2: u64, e2: u64, g: Symmetry, l: int, c: int)
    requires
        image_of(p2, p, g),
        image_of(e2, e, g),
    ensures
        is_legal_square(p2, e2, sym_line(g, l, c), sym_column(g, l, c)) == is_legal_square(
            p,
            e,
            l,
            c,
        ),
{
    let l1 = sym_line(g, l, c);
    let c1 = sym_column(g, l, c);
    lemma_sym_facts(g, l, c, 0, 0);
    lemma_image_at(p2, p, g, l, c);
    lemma_image_at(e2, e, g, l, c);
    assert(empty_square(p2, e2, l1, c1) == empty_square(p, e, l, c));
    if is_legal_square(p, e, l, c) {
        let (dl, dc) = choose|dl: int, dc: int|
            is_direction(dl, dc) && #[trigger] captures(p, e, l, c, dl, dc);
        lemma_sym_facts(g, l, c, dl, dc);
        lemma_captures_image(p, e, p2, e2, g, l, c, dl, dc);
        assert(is_direction(dir_line(g, dl, dc), dir_column(g, dl, dc)) && captures(
            p2,
            e2,
            l1,
            c1,
            dir_line(g, dl, dc),
            dir_column(g, dl, dc),
        ));
    }
    if is_legal_square(p2, e2, l1, c1) {
        let (dl1, dc1) = choose|dl: int, dc: int|
            is_direction(dl, dc) && #[trigger] captures(p2, e2, l1, c1, dl, dc);
        let dl = dir_line(inverse(g), dl1, dc1);
        let dc = dir_column(inverse(g), dl1, dc1);
        lemma_sym_facts(g, l, c, dl1, dc1);
        lemma_sym_facts(g, l, c, dl, dc);
        lemma_captures_image(p, e, p2, e2, g, l, c, dl, dc);
        assert(is_direction(dl, dc) && captures(p, e, l, c, dl, dc));
    }
}

/// A move turns a stone over exactly when the carried move turns over the
/// carried stone in the carried position.
proof fn lemma_turned_image(
    p: u64,
    e: u64,
    p2: u64,
    e2: u64,
    g: Symmetry,
    l: int,
    c: int,
    l2: int,
    c2: int,
)
    requires
        image_of(p2, p, g),
        image_of(e2, e, g),
    ensures
        turned(
            p2,
            e2,
            sym_line(g, l, c),
            sym_column(g, l, c),
            sym_line(g, l2, c2),
            sym_column(g, l2, c2),
        ) == turned(p, e, l, c, l2, c2),
{
    let l1 = sym_line(g, l, c);
    let c1 = sym_column(g, l, c);
    let l3 = sym_line(g, l2, c2);
    let c3 = sym_column(g, l2, c2);
    if turned(p, e, l, c, l2, c2) {
        let (dl, dc) = choose|dl: int, dc: int|
            is_direction(dl, dc) && #[trigger] turned_in_direction(p, e, l, c, dl, dc, l2, c2);
        lemma_sym_facts(g, l, c, dl, dc);
        lemma_turned_in_direction_image(p, e, p2, e2, g, l, c, dl, dc, l2, c2);
        assert(is_direction(dir_line(g, dl, dc), dir_column(g, dl, dc)) && turned_in_direction(
            p2,
            e2,
            l1,
            c1,
            dir_line(g, dl, dc),
            dir_column(g, dl, dc),
            l3,
            c3,
        ));
    }
    if turned(p2, e2, l1, c1, l3, c3) {
        let (dl1, dc1) = choose|dl: int, dc: int|
            is_direction(dl, dc) && #[trigger] turned_in_direction(p2, e2, l1, c1, dl, dc, l3, c3);
        let dl = dir_line(inverse(g), dl1, dc1);
        let dc = dir_column(inverse(g), dl1, dc1);
        lemma_sym_facts(g, l, c, dl1, dc1);
        lemma_sym_facts(g, l, c, dl, dc);
        lemma_turned_in_direction_image(p, e, p2, e2, g, l, c, dl, dc, l2, c2);
        assert(is_direction(dl, dc) && turned_in_direction(p, e, l, c, dl, dc, l2, c2));
    }
}

/// Carried boards keep having no common stone.
proof fn lemma_disjoint_image(p: u64, e: u64, p2: u64, e2: u64, g: Symmetry)
    requires
        p & e == 0,
        image_of(p2, p, g),
        image_of(e2, e, g),
    ensures
        p2 & e2 == 0,
{
    lemma_bit_and(p, e);
    lemma_bit_and(p2, e2);
    lemma_zero_iff_no_bit(p & e);
    lemma_zero_iff_no_bit(p2 & e2);
    assert forall|t: int| 0 <= t < 64 implies !#[trigger] bit(p2 & e2, t) by {
        lemma_square_of_index(t);
        let l = line_of(t);
        let c = column_of(t);
        let l0 = sym_line(inverse(g), l, c);
        let c0 = sym_column(inverse(g), l, c);
        lemma_sym_facts(g, l, c, 0, 0);
        lemma_sym_facts(g, l0, c0, 0, 0);
        lemma_image_at(p2, p, g, l0, c0);
        lemma_image_at(e2, e, g, l0, c0);
        lemma_index_of_square(l0, c0);
        if bit(p2 & e2, t) {
            assert(stone_at(p2, l, c) && stone_at(e2, l, c));
            assert(bit(p & e, square_index(l0, c0)));
        }
    }
}

/// Mirroring or rotating a position mirrors or rotates its legal squares: the
/// legal squares of the carried position are the images of the legal squares of
/// the position.
pub proof fn lemma_legal_moves_commute_with_symmetry(
    p: u64,
    e: u64,
    p2: u64,
    e2: u64,
    g: Symmetry,
)
    requires
        image_of(p2, p, g),
        image_of(e2, e, g),
    ensures
        image_of(legal_board(p2, e2), legal_board(p, e), g),
{
    lemma_legal_board_exists(p, e);
    lemma_legal_board_exists(p2, e2);
    assert forall|l: int, c: int| on_board(l, c) implies #[trigger] stone_at(
        legal_board(p, e),
        l,
        c,
    ) == stone_at(legal_board(p2, e2), sym_line(g, l, c), sym_column(g, l, c)) by {
        lemma_sym_facts(g, l, c, 0, 0);
        lemma_legal_square_image(p, e, p2, e2, g, l, c);
    }
}

/// Mirroring or rotating a position and a move mirrors or rotates the position
/// after the move: playing the carried square in the carried position gives the
/// carried boards of both players.
pub proof fn lemma_move_commutes_with_symmetry(
    p: u64,
    e: u64,
    p2: u64,
    e2: u64,
    g: Symmetry,
    l: int,
    c: int,
)
    requires
        p & e == 0,
        on_board(l, c),
        image_of(p2, p, g),
        image_of(e2, e, g),
    ensures
        image_of(square_board(sym_line(g, l, c), sym_column(g, l, c)), square_board(l, c), g),
        image_of(
            next_boards(p2, e2, square_board(sym_line(g, l, c), sym_column(g, l, c))).0,
            next_boards(p, e, square_board(l, c)).0,
            g,
        ),
        image_of(
            next_boards(p2, e2, square_board(sym_line(g, l, c), sym_column(g, l, c))).1,
            next_boards(p, e, square_board(l, c)).1,
            g,
        ),
{
    let l1 = sym_line(g, l, c);
    let c1 = sym_column(g, l, c);
    lemma_sym_facts(g, l, c, 0, 0);
    lemma_disjoint_image(p, e, p2, e2, g);
    lemma_move_outcome(p, e, l, c);
    lemma_move_outcome(p2, e2, l1, c1);
    let m = square_board(l, c);
    let m2 = square_board(l1, c1);
    let after = next_boards(p, e, m);
    let after2 = next_boards(p2, e2, m2);
    lemma_square_board_squares(l, c);
    lemma_square_board_squares(l1, c1);
    assert forall|l2: int, c2: int| on_board(l2, c2) implies #[trigger] stone_at(m, l2, c2)
        == stone_at(m2, sym_line(g, l2, c2), sym_column(g, l2, c2)) by {
        lemma_sym_facts(g, l2, c2, 0, 0);
    }
    assert forall|l2: int, c2: int| on_board(l2, c2) implies #[trigger] stone_at(after.0, l2, c2)
        == stone_at(after2.0, sym_line(g, l2, c2), sym_column(g, l2, c2)) by {
        lemma_sym_facts(g, l2, c2, 0, 0);
        lemma_image_at(p2, p, g, l2, c2);
        lemma_turned_image(p, e, p2, e2, g, l, c, l2, c2);
    }
    assert forall|l2: int, c2: int| on_board(l2, c2) implies #[trigger] stone_at(after.1, l2, c2)
        == stone_at(after2.1, sym_line(g, l2, c2), sym_column(g, l2, c2)) by {
        lemma_sym_facts(g, l2, c2, 0, 0);
        lemma_image_at(e2, e, g, l2, c2);
        lemma_turned_image(p, e, p2, e2, g, l, c, l2, c2);
    }
}

/// The board of one square holds that square and nothing else.
proof fn lemma_square_board_squares(l: int, c: int)
    requires
        on_board(l, c),
    ensures
        forall|l2: int, c2: int|
            on_board(l2, c2) ==> (#[trigger] stone_at(square_board(l, c), l2, c2) <==> (l2 == l
                && c2 == c)),
{
    lemma_index_of_square(l, c);
    lemma_single_bit(square_index(l, c) as u64);
    assert forall|l2: int, c2: int| on_board(l2, c2) implies (#[trigger] stone_at(
        square_board(l, c),
        l2,
        c2,
    ) <==> (l2 == l && c2 == c)) by {
        lemma_index_of_square(l2, c2);
    }
}

} // verus!
