//! What the search computes: on trees without disturbing passes, with hints that
//! name legal moves and enough nodes, its value is the negamax value of the position, with
//! the usual cut-off behaviour below the limit.
use vstd::prelude::*;
use crate::ai::{
    ai_choice,
    END_SEARCH,
    search,
    search_moves,
    evaluation,
    plain_score,
    lowest_stone,
    low_bit,
    lemma_lowest_stone,
    lemma_remove_lowest_lt,
    lemma_and_not_le,
    lemma_evaluation_plain,
};
use crate::bits::{bit, only_bit, lemma_bit_and, lemma_bit_not, lemma_bits_determine, lemma_single_bit, lemma_zero_iff_no_bit};
use crate::rule::{legal_board, next_boards};

verus! {

pub open spec fn max_of(a: int, b: int) -> int {
    if a >= b {
        a
    } else {
        b
    }
}

/// The negamax value of a position for `p`, the side to move, looking `depth`
/// moves ahead: the evaluation at the end of the game or at depth 0, the negated
/// value for the opponent after a pass, and otherwise the best value of a move.
pub open spec fn negamax_value(depth: nat, p: u64, e: u64, turn: int) -> int
    decreases depth, 1int, 0int,
{
    let legal = legal_board(p, e);
    if legal == 0 && legal_board(e, p) == 0 {
        evaluation(p, e, 0)
    } else if depth == 0 {
        evaluation(p, e, turn)
    } else if legal == 0 {
        -negamax_value((depth - 1) as nat, e, p, turn)
    } else {
        best_reply(depth, p, e, turn, legal)
    }
}

/// The best value for `p` of the moves in `moves` (-1000000 when there is none):
/// the value of a move is the opponent's value after it, negated.
pub open spec fn best_reply(depth: nat, p: u64, e: u64, turn: int, moves: u64) -> int
    decreases depth, 0int, moves as int,
{
    if depth == 0 || moves == 0 {
        -1000000
    } else {
        let m = lowest_stone(moves);
        let boards = next_boards(p, e, m);
        let v = -negamax_value((depth - 1) as nat, boards.1, boards.0, turn);
        proof {
            lemma_remove_lowest_lt(moves);
        }
        max_of(v, best_reply(depth, p, e, turn, moves & !m))
    }
}

/// The value for `p` of playing `m`.
pub open spec fn move_value(depth: nat, p: u64, e: u64, turn: int, m: u64) -> int {
    -negamax_value(
        (depth - 1) as nat,
        next_boards(p, e, m).1,
        next_boards(p, e, m).0,
        turn,
    )
}

/// No position within `depth` moves is one where the side to move must pass while
/// the game goes on, except where a pass does not disturb the search: at positions
/// reached from the top of the search by passes alone (`top`, where the cut-off
/// stays at its widest), and where only one move is left to look at.
pub open spec fn pass_free(depth: nat, p: u64, e: u64, top: bool) -> bool
    decreases depth,
{
    let legal = legal_board(p, e);
    if depth <= 1 || (legal == 0 && legal_board(e, p) == 0) {
        true
    } else if legal == 0 {
        top && pass_free((depth - 1) as nat, e, p, top)
    } else {
        forall|i: int|
            0 <= i < 64 && #[trigger] bit(legal, i) ==> pass_free(
                (depth - 1) as nat,
                next_boards(p, e, 1u64 << (i as u64)).1,
                next_boards(p, e, 1u64 << (i as u64)).0,
                false,
            )
    }
}

/// Each move of a hint line (first move last) is a legal move in the position the
/// moves before it lead to, as far as the search follows it; where a side must
/// pass, the line's entry for it is skipped, whatever it holds.
pub open spec fn hint_line_ok(depth: nat, p: u64, e: u64, hint: Seq<u64>) -> bool
    decreases depth,
{
    let legal = legal_board(p, e);
    if hint.len() == 0 || depth == 0 || (legal == 0 && legal_board(e, p) == 0) {
        true
    } else if legal == 0 {
        hint_line_ok((depth - 1) as nat, e, p, hint.drop_last())
    } else {
        let m = hint.last();
        &&& exists|i: int| only_bit(m, i) && #[trigger] bit(legal, i)
        &&& hint_line_ok(
            (depth - 1) as nat,
            next_boards(p, e, m).1,
            next_boards(p, e, m).0,
            hint.drop_last(),
        )
    }
}

/// `found` is what a search with cut-off `limit` may report for a position of value
/// `value`: the value itself when it is below the limit, and otherwise a bound
/// between the limit and the value.
pub open spec fn fail_soft(found: int, value: int, limit: int) -> bool {
    &&& value < limit ==> found == value
    &&& value >= limit ==> limit <= found <= value
}

/// Two boards with the same single stone are equal.
proof fn lemma_only_bit_unique(a: u64, b: u64, i: int)
    requires
        only_bit(a, i),
        only_bit(b, i),
    ensures
        a == b,
{
    lemma_bits_determine(a, b);
}

/// A board whose single stone is at `i` is `1 << i`.
proof fn lemma_only_bit_shift(a: u64, i: int)
    requires
        only_bit(a, i),
    ensures
        a == 1u64 << (i as u64),
{
    lemma_single_bit(i as u64);
    lemma_only_bit_unique(a, 1u64 << (i as u64), i);
}

pub proof fn lemma_value_plain(depth: nat, p: u64, e: u64, turn: int)
    ensures
        plain_score(negamax_value(depth, p, e, turn)),
    decreases depth, 1int, 0int,
{
    let legal = legal_board(p, e);
    lemma_evaluation_plain(p, e, 0);
    lemma_evaluation_plain(p, e, turn);
    if !(legal == 0 && legal_board(e, p) == 0) && depth != 0 {
        if legal == 0 {
            lemma_value_plain((depth - 1) as nat, e, p, turn);
        } else {
            lemma_reply_plain(depth, p, e, turn, legal);
        }
    }
}

pub proof fn lemma_reply_plain(depth: nat, p: u64, e: u64, turn: int, moves: u64)
    ensures
        best_reply(depth, p, e, turn, moves) >= -1000000,
        depth >= 1 && moves != 0 ==> plain_score(best_reply(depth, p, e, turn, moves)),
    decreases depth, 0int, moves as int,
{
    if depth != 0 && moves != 0 {
        let m = lowest_stone(moves);
        let boards = next_boards(p, e, m);
        lemma_value_plain((depth - 1) as nat, boards.1, boards.0, turn);
        lemma_remove_lowest_lt(moves);
        lemma_reply_plain(depth, p, e, turn, moves & !m);
    }
}

/// The best reply does not depend on the order in which the moves are looked at:
/// any move of the set can be taken first.
proof fn lemma_reply_any_first(depth: nat, p: u64, e: u64, turn: int, x: u64, b: u64, i: int)
    requires
        depth >= 1,
        only_bit(b, i),
        bit(x, i),
    ensures
        best_reply(depth, p, e, turn, x) == max_of(
            move_value(depth, p, e, turn, b),
            best_reply(depth, p, e, turn, x & !b),
        ),
    decreases x,
{
    lemma_zero_iff_no_bit(x);
    let lo = lowest_stone(x);
    lemma_lowest_stone(x);
    let j = choose|j: int| #[trigger] low_bit(x, j);
    assert(only_bit(lo, j));
    lemma_bit_and(x, !lo);
    lemma_bit_not(lo);
    lemma_bit_and(x, !b);
    lemma_bit_not(b);
    if j == i {
        lemma_only_bit_unique(lo, b, i);
    } else {
        assert(j < i) by {
            if i < j {
                assert(!bit(x, i));
            }
        }
        let x1 = x & !lo;
        let x2 = x & !b;
        assert(bit(x1, i));
        lemma_remove_lowest_lt(x);
        lemma_reply_any_first(depth, p, e, turn, x1, b, i);
        // the lowest stone of x without b is still the lowest stone of x
        assert(low_bit(x2, j));
        lemma_zero_iff_no_bit(x2);
        lemma_lowest_stone(x2);
        lemma_only_bit_unique(lowest_stone(x2), lo, j);
        assert((x & !b) & !lo == (x & !lo) & !b) by (bit_vector);
        assert(best_reply(depth, p, e, turn, x2) == max_of(
            move_value(depth, p, e, turn, lo),
            best_reply(depth, p, e, turn, x2 & !lo),
        ));
    }
}

/// A search visits at least one node.
pub proof fn lemma_search_nodes(
    depth: nat,
    p: u64,
    e: u64,
    limit: int,
    hint: Seq<u64>,
    turn: int,
    node_limit: int,
)
    ensures
        search(depth, p, e, limit, hint, turn, node_limit).2 >= 1,
    decreases depth, 1int, 0int, 0int,
{
    let legal = legal_board(p, e);
    if !(legal == 0 && legal_board(e, p) == 0) && depth != 0 {
        let rest = if hint.len() > 0 {
            hint.drop_last()
        } else {
            hint
        };
        if legal == 0 {
            lemma_search_nodes(
                (depth - 1) as nat,
                e,
                p,
                if limit == 1000000 {
                    limit
                } else {
                    -limit
                },
                rest,
                turn,
                node_limit,
            );
        } else {
            let first_move = if hint.len() > 0 {
                hint.last()
            } else {
                lowest_stone(legal)
            };
            lemma_search_moves_nodes(
                depth,
                p,
                e,
                limit,
                rest,
                turn,
                node_limit,
                legal,
                first_move,
                true,
                -1000000,
                Seq::<u64>::empty(),
                1,
            );
        }
    }
}

/// The move loop only adds to the nodes visited.
proof fn lemma_search_moves_nodes(
    depth: nat,
    p: u64,
    e: u64,
    limit: int,
    rest: Seq<u64>,
    turn: int,
    node_limit: int,
    legal: u64,
    first_move: u64,
    first: bool,
    val: int,
    best: Seq<u64>,
    nodes: int,
)
    ensures
        search_moves(
            depth,
            p,
            e,
            limit,
            rest,
            turn,
            node_limit,
            legal,
            first_move,
            first,
            val,
            best,
            nodes,
        ).2 >= nodes,
    decreases depth, 0int, legal as int, if first {
        1int
    } else {
        0int
    },
{
    if depth != 0 {
        let m = if first {
            first_move
        } else {
            lowest_stone(legal)
        };
        let boards = next_boards(p, e, m);
        let child_hint = if first {
            rest
        } else {
            Seq::<u64>::empty()
        };
        lemma_search_nodes((depth - 1) as nat, boards.1, boards.0, -val, child_hint, turn, node_limit);
        let child = search((depth - 1) as nat, boards.1, boards.0, -val, child_hint, turn, node_limit);
        let total = nodes + child.2;
        let val2 = if child.0 > val {
            child.0
        } else {
            val
        };
        let legal2 = legal & !m;
        if total <= node_limit && !(val2 >= limit || legal2 == 0) {
            lemma_and_not_le(legal, m);
            if !first && legal != 0 {
                lemma_remove_lowest_lt(legal);
            }
            lemma_search_moves_nodes(
                depth,
                p,
                e,
                limit,
                rest,
                turn,
                node_limit,
                legal2,
                first_move,
                false,
                val2,
                if child.0 > val {
                    child.1.push(m)
                } else {
                    best
                },
                total,
            );
        }
    }
}

/// The search reports a fail-soft value: on trees whose passes fall where
/// `pass_free` allows them (at the top only with the widest cut-off), following a
/// hint line of legal moves, and when it stays within its node budget, what it
/// returns (negated) is the negamax value when that lies below the cut-off limit,
/// and otherwise a bound between the limit and the negamax value.
pub proof fn lemma_search_fail_soft(
    depth: nat,
    p: u64,
    e: u64,
    limit: int,
    hint: Seq<u64>,
    turn: int,
    node_limit: int,
    top: bool,
)
    requires
        pass_free(depth, p, e, top),
        top ==> limit == 1000000,
        hint_line_ok(depth, p, e, hint),
        search(depth, p, e, limit, hint, turn, node_limit).2 <= node_limit,
        -1000000 < limit <= 1000000,
    ensures
        fail_soft(
            -search(depth, p, e, limit, hint, turn, node_limit).0,
            negamax_value(depth, p, e, turn),
            limit,
        ),
        depth >= 1 && legal_board(p, e) != 0 ==> ({
            let r = search(depth, p, e, limit, hint, turn, node_limit);
            &&& r.1.len() >= 1
            &&& exists|i: int| only_bit(r.1.last(), i) && #[trigger] bit(legal_board(p, e), i)
            &&& move_value(depth, p, e, turn, r.1.last()) == -r.0
        }),
    decreases depth, 1int, 0int, 0int,
{
    let legal = legal_board(p, e);
    if !(legal == 0 && legal_board(e, p) == 0) && depth != 0 && legal == 0 {
        let rest = if hint.len() > 0 {
            hint.drop_last()
        } else {
            hint
        };
        let child_limit = if limit == 1000000 {
            limit
        } else {
            -limit
        };
        let child = search((depth - 1) as nat, e, p, child_limit, rest, turn, node_limit);
        assert(search(depth, p, e, limit, hint, turn, node_limit).0 == -child.0);
        lemma_value_plain((depth - 1) as nat, e, p, turn);
        if depth == 1 {
            lemma_evaluation_plain(e, p, turn);
            assert(child.0 == -evaluation(e, p, turn));
            assert(negamax_value(0, e, p, turn) == evaluation(e, p, turn));
        } else {
            assert(top && limit == 1000000);
            lemma_search_fail_soft((depth - 1) as nat, e, p, 1000000, rest, turn, node_limit, true);
        }
    } else if !(legal == 0 && legal_board(e, p) == 0) && depth != 0 {
        assert(legal != 0);
        let rest = if hint.len() > 0 {
            hint.drop_last()
        } else {
            hint
        };
        let first_move = if hint.len() > 0 {
            hint.last()
        } else {
            lowest_stone(legal)
        };
        lemma_reply_plain(depth, p, e, turn, legal);
        if hint.len() == 0 {
            lemma_lowest_stone(legal);
            let i = choose|i: int| #[trigger] low_bit(legal, i);
            assert(only_bit(first_move, i) && bit(legal, i));
        }
        lemma_search_moves_fail_soft(
            depth,
            p,
            e,
            limit,
            rest,
            turn,
            node_limit,
            legal,
            first_move,
            true,
            -1000000,
            Seq::<u64>::empty(),
            1,
        );
    }
}

/// The move loop of the search keeps, as its best value, the best value of the
/// moves looked at so far.
proof fn lemma_search_moves_fail_soft(
    depth: nat,
    p: u64,
    e: u64,
    limit: int,
    rest: Seq<u64>,
    turn: int,
    node_limit: int,
    legal: u64,
    first_move: u64,
    first: bool,
    val: int,
    best: Seq<u64>,
    nodes: int,
)
    requires
        depth >= 1,
        legal_board(p, e) != 0,
        pass_free(depth, p, e, false),
        legal != 0,
        forall|t: int| #[trigger] bit(legal, t) ==> bit(legal_board(p, e), t),
        first ==> (exists|i: int| only_bit(first_move, i) && #[trigger] bit(legal, i)),
        first ==> hint_line_ok(
            (depth - 1) as nat,
            next_boards(p, e, first_move).1,
            next_boards(p, e, first_move).0,
            rest,
        ),
        -1000000 <= val < limit,
        limit <= 1000000,
        val > -1000000 ==> best.len() >= 1 && (exists|i: int|
            only_bit(best.last(), i) && #[trigger] bit(legal_board(p, e), i)) && move_value(
            depth,
            p,
            e,
            turn,
            best.last(),
        ) == val,
        max_of(val, best_reply(depth, p, e, turn, legal)) == best_reply(
            depth,
            p,
            e,
            turn,
            legal_board(p, e),
        ),
        search_moves(
            depth,
            p,
            e,
            limit,
            rest,
            turn,
            node_limit,
            legal,
            first_move,
            first,
            val,
            best,
            nodes,
        ).2 <= node_limit,
        nodes >= 0,
    ensures
        fail_soft(
            -search_moves(
                depth,
                p,
                e,
                limit,
                rest,
                turn,
                node_limit,
                legal,
                first_move,
                first,
                val,
                best,
                nodes,
            ).0,
            best_reply(depth, p, e, turn, legal_board(p, e)),
            limit,
        ),
        ({
            let r = search_moves(
                depth,
                p,
                e,
                limit,
                rest,
                turn,
                node_limit,
                legal,
                first_move,
                first,
                val,
                best,
                nodes,
            );
            &&& r.1.len() >= 1
            &&& exists|i: int| only_bit(r.1.last(), i) && #[trigger] bit(legal_board(p, e), i)
            &&& move_value(depth, p, e, turn, r.1.last()) == -r.0
        }),
    decreases depth, 0int, legal as int, if first {
        1int
    } else {
        0int
    },
{
    let lb = legal_board(p, e);
    let m = if first {
        first_move
    } else {
        lowest_stone(legal)
    };
    let i = if first {
        choose|i: int| only_bit(first_move, i) && #[trigger] bit(legal, i)
    } else {
        let j = choose|j: int| #[trigger] low_bit(legal, j);
        j
    };
    if !first {
        lemma_lowest_stone(legal);
    }
    assert(only_bit(m, i) && bit(legal, i));
    let boards = next_boards(p, e, m);
    let child_hint = if first {
        rest
    } else {
        Seq::<u64>::empty()
    };
    let child = search((depth - 1) as nat, boards.1, boards.0, -val, child_hint, turn, node_limit);
    lemma_search_nodes((depth - 1) as nat, boards.1, boards.0, -val, child_hint, turn, node_limit);
    let total = nodes + child.2;
    let result = search_moves(
        depth,
        p,
        e,
        limit,
        rest,
        turn,
        node_limit,
        legal,
        first_move,
        first,
        val,
        best,
        nodes,
    );
    assert(total <= node_limit);
    // the child position has no pass either
    lemma_only_bit_shift(m, i);
    assert(pass_free((depth - 1) as nat, boards.1, boards.0, false));
    lemma_search_fail_soft(
        (depth - 1) as nat,
        boards.1,
        boards.0,
        -val,
        child_hint,
        turn,
        node_limit,
        false,
    );
    let w = move_value(depth, p, e, turn, m);
    lemma_value_plain((depth - 1) as nat, boards.1, boards.0, turn);
    let val2 = if child.0 > val {
        child.0
    } else {
        val
    };
    assert(val2 == max_of(val, w));
    let best2 = if child.0 > val {
        child.1.push(m)
    } else {
        best
    };
    if child.0 > val {
        assert(child.0 == w);
        assert(best2.last() == m);
        assert(bit(lb, i));
    }
    assert(val2 > -1000000);
    let legal2 = legal & !m;
    lemma_reply_any_first(depth, p, e, turn, legal, m, i);
    lemma_reply_plain(depth, p, e, turn, legal2);
    assert(max_of(val2, best_reply(depth, p, e, turn, legal2)) == best_reply(depth, p, e, turn, lb));
    if val2 >= limit || legal2 == 0 {
        assert(result.0 == -val2);
    } else {
        lemma_bit_and(legal, !m);
        lemma_and_not_le(legal, m);
        if !first {
            lemma_remove_lowest_lt(legal);
        }
        lemma_search_moves_fail_soft(
            depth,
            p,
            e,
            limit,
            rest,
            turn,
            node_limit,
            legal2,
            first_move,
            false,
            val2,
            if child.0 > val {
                child.1.push(m)
            } else {
                best
            },
            total,
        );
    }
}

/// From the root of a search (cut-off 1000000), on trees whose passes fall where
/// `pass_free` allows them from the top, with a hint line of legal moves and within
/// the node budget, the search finds the negamax value of the position, and the
/// first move of the line it returns is a legal move of that value.
pub proof fn lemma_root_search_is_negamax(
    depth: nat,
    p: u64,
    e: u64,
    hint: Seq<u64>,
    turn: int,
    node_limit: int,
)
    requires
        pass_free(depth, p, e, true),
        hint_line_ok(depth, p, e, hint),
        search(depth, p, e, 1000000, hint, turn, node_limit).2 <= node_limit,
    ensures
        -search(depth, p, e, 1000000, hint, turn, node_limit).0 == negamax_value(
            depth,
            p,
            e,
            turn,
        ),
        depth >= 1 && legal_board(p, e) != 0 ==> ({
            let r = search(depth, p, e, 1000000, hint, turn, node_limit);
            &&& r.1.len() >= 1
            &&& exists|i: int| only_bit(r.1.last(), i) && #[trigger] bit(legal_board(p, e), i)
            &&& move_value(depth, p, e, turn, r.1.last()) == negamax_value(depth, p, e, turn)
        }),
{
    lemma_search_fail_soft(depth, p, e, 1000000, hint, turn, node_limit, true);
    lemma_value_plain(depth, p, e, turn);
}

/// In the last moves of the game, when the exact search of the whole game tree
/// stays within its node budget and its passes fall where `pass_free` allows them,
/// and the position is not lost, the move chosen is a legal move that keeps the
/// exact value of the position.
pub proof fn lemma_endgame_move_is_best(p: u64, e: u64, turn: int, time_left: int)
    requires
        turn >= 60 - END_SEARCH,
        legal_board(p, e) != 0,
        pass_free(100, p, e, true),
        search(
            100,
            p,
            e,
            1000000,
            Seq::empty(),
            turn,
            if time_left * 6000 < 180000000 {
                time_left * 6000
            } else {
                180000000
            },
        ).2 <= if time_left * 6000 < 180000000 {
            time_left * 6000
        } else {
            180000000
        },
        negamax_value(100, p, e, turn) >= 0,
    ensures
        exists|i: int|
            only_bit(ai_choice(p, e, turn, time_left), i) && #[trigger] bit(legal_board(p, e), i),
        move_value(100, p, e, turn, ai_choice(p, e, turn, time_left)) == negamax_value(
            100,
            p,
            e,
            turn,
        ),
{
    let budget = if time_left * 6000 < 180000000 {
        time_left * 6000
    } else {
        180000000
    };
    assert(hint_line_ok(100, p, e, Seq::empty()));
    lemma_root_search_is_negamax(100, p, e, Seq::empty(), turn, budget);
}

} // verus!
