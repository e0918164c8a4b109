//! The decisions of a game between two players at one board: whose turn it is,
//! whether a move breaks the rules, passing, and the end of the game.
use vstd::prelude::*;
use crate::bits::bit;
use crate::board::{on_board, stone_at, square_board, is_legal_square, turned, lemma_square_of_index, line_of, column_of, lemma_centre_boards};
use crate::popcount::stone_count;
use crate::rule::{
    count_stone,
    judge_move,
    legal_board,
    legal_move,
    next_board,
    next_boards,
    no_move,
    game_over,
    is_legal_stone,
    is_legal_board,
    lemma_legal_board_exists,
};
use crate::laws::{lemma_move_outcome, lemma_move_keeps_and_takes};

verus! {

/// Where a game stands.
#[derive(PartialEq, Eq, Structural, Clone, Copy, Debug)]
pub enum GameState {
    Continue,
    NoMove,
    BlackBreakingRule,
    WhiteBreakingRule,
}

/// A game in progress: both boards, the side to move, and where the game stands.
#[derive(PartialEq, Eq, Structural, Clone, Copy, Debug)]
pub struct Game {
    pub black: u64,
    pub white: u64,
    pub black_playing: bool,
    pub state: GameState,
}

/// Who has more stones at the end.
#[derive(PartialEq, Eq, Structural, Clone, Copy, Debug)]
pub enum Winner {
    Black,
    White,
    Draw,
}

/// The starting position, black to move.
pub open spec fn start_position() -> Game {
    Game {
        black: 0x0000001008000000,
        white: 0x0000000810000000,
        black_playing: true,
        state: GameState::Continue,
    }
}

/// The boards of the side to move, and of the other side.
pub open spec fn sides(g: Game) -> (u64, u64) {
    if g.black_playing {
        (g.black, g.white)
    } else {
        (g.white, g.black)
    }
}

/// One turn: the side to move passes when it has no legal square; otherwise a move
/// that is not a single legal square loses the game for the mover; otherwise the move
/// is played. Then the game ends when neither side can move, and the turn passes.
pub open spec fn turn_result(g: Game, m: u64) -> Game {
    let p = sides(g).0;
    let e = sides(g).1;
    if legal_board(p, e) != 0 && !is_legal_stone(m, p, e) {
        Game {
            state: if g.black_playing {
                GameState::BlackBreakingRule
            } else {
                GameState::WhiteBreakingRule
            },
            ..g
        }
    } else {
        let after = if legal_board(p, e) == 0 {
            (p, e)
        } else {
            next_boards(p, e, m)
        };
        let black = if g.black_playing {
            after.0
        } else {
            after.1
        };
        let white = if g.black_playing {
            after.1
        } else {
            after.0
        };
        Game {
            black,
            white,
            black_playing: !g.black_playing,
            state: if game_over(black, white) {
                GameState::NoMove
            } else {
                GameState::Continue
            },
        }
    }
}

/// The position a game starts from.
pub fn new_game() -> (r: Game)
    ensures
        r == start_position(),
{
    Game {
        black: 0x0000001008000000,
        white: 0x0000000810000000,
        black_playing: true,
        state: GameState::Continue,
    }
}

/// The squares on which the side to move may play.
pub fn mover_legal(game: &Game) -> (r: u64)
    ensures
        r == legal_board(sides(*game).0, sides(*game).1),
{
    if game.black_playing {
        legal_move(game.black, game.white)
    } else {
        legal_move(game.white, game.black)
    }
}

/// Plays one turn of a game in progress; `next_move` is the mover's move, looked at
/// only when the mover has a legal square. Boards without common stones keep none.
pub fn play_turn(game: Game, next_move: u64) -> (r: Game)
    requires
        game.state == GameState::Continue,
    ensures
        r == turn_result(game, next_move),
        game.black & game.white == 0 ==> r.black & r.white == 0,
{
    let mut black = game.black;
    let mut white = game.white;
    if game.black_playing {
        let legal = legal_move(black, white);
        if legal != 0 {
            if judge_move(black, white, next_move) == false {
                return Game { state: GameState::BlackBreakingRule, ..game };
            }
            let (b, w) = next_board(black, white, next_move);
            proof {
                if game.black & game.white == 0 {
                    lemma_keeps_apart(game.black, game.white, next_move);
                }
            }
            black = b;
            white = w;
        }
    } else {
        let legal = legal_move(white, black);
        if legal != 0 {
            if judge_move(white, black, next_move) == false {
                return Game { state: GameState::WhiteBreakingRule, ..game };
            }
            let (w, b) = next_board(white, black, next_move);
            proof {
                let x = game.black;
                let y = game.white;
                assert(x & y == y & x) by (bit_vector);
                assert(b & w == w & b) by (bit_vector);
                if game.black & game.white == 0 {
                    lemma_keeps_apart(game.white, game.black, next_move);
                }
            }
            black = b;
            white = w;
        }
    }
    let state = if no_move(black, white) {
        GameState::NoMove
    } else {
        GameState::Continue
    };
    Game { black, white, black_playing: !game.black_playing, state }
}

/// After a legal move on boards without common stones, the boards still have none.
proof fn lemma_keeps_apart(p: u64, e: u64, m: u64)
    requires
        p & e == 0,
        is_legal_stone(m, p, e),
    ensures
        next_boards(p, e, m).0 & next_boards(p, e, m).1 == 0,
{
    let (l, c) = choose|l: int, c: int| m == square_board(l, c) && #[trigger] is_legal_square(p, e, l, c);
    lemma_move_outcome(p, e, l, c);
    let p2 = next_boards(p, e, m).0;
    let e2 = next_boards(p, e, m).1;
    crate::bits::lemma_bit_and(p2, e2);
    crate::bits::lemma_bit_and(p, e);
    crate::bits::lemma_zero_iff_no_bit(p & e);
    assert forall|t: int| 0 <= t < 64 implies !#[trigger] bit(p2 & e2, t) by {
        lemma_square_of_index(t);
        let l2 = line_of(t);
        let c2 = column_of(t);
        assert(stone_at(p2, l2, c2) ==> (stone_at(p, l2, c2) || (l2 == l && c2 == c) || turned(p, e, l, c, l2, c2)));
        assert(stone_at(e2, l2, c2) == (stone_at(e, l2, c2) && !turned(p, e, l, c, l2, c2)));
        assert(!bit(p & e, t));
    }
    crate::bits::lemma_zero_iff_no_bit(p2 & e2);
}

/// The side with more stones wins; equal counts are a draw.
pub fn winner(black: u64, white: u64) -> (r: Winner)
    ensures
        r == (if stone_count(black) > stone_count(white) {
            Winner::Black
        } else if stone_count(black) < stone_count(white) {
            Winner::White
        } else {
            Winner::Draw
        }),
{
    let black_stone = count_stone(black);
    let white_stone = count_stone(white);
    if black_stone > white_stone {
        Winner::Black
    } else if black_stone < white_stone {
        Winner::White
    } else {
        Winner::Draw
    }
}

/// The board of the side to move in `g`, taken from `r`.
pub open spec fn mover_board(g: Game, r: Game) -> u64 {
    if g.black_playing {
        r.black
    } else {
        r.white
    }
}

/// The board of the side not to move in `g`, taken from `r`.
pub open spec fn waiting_board(g: Game, r: Game) -> u64 {
    if g.black_playing {
        r.white
    } else {
        r.black
    }
}

/// A turn that breaks no rule hands the move to the other side; the mover keeps
/// all its stones (and gains the stone played when it had a legal square), and the
/// other side only loses stones. A turn that breaks the rules is charged to the
/// mover and changes neither the boards nor the side to move.
pub proof fn lemma_turn_passes_the_move(g: Game, m: u64)
    requires
        g.state == GameState::Continue,
    ensures
        ({
            let r = turn_result(g, m);
            &&& r.state != GameState::BlackBreakingRule && r.state != GameState::WhiteBreakingRule
                ==> {
                &&& r.black_playing == !g.black_playing
                &&& mover_board(g, r) & mover_board(g, g) == mover_board(g, g)
                &&& waiting_board(g, r) & waiting_board(g, g) == waiting_board(g, r)
                &&& legal_board(mover_board(g, g), waiting_board(g, g)) != 0 ==> mover_board(g, r) & m
                    == m
            }
            &&& r.state == GameState::BlackBreakingRule || r.state == GameState::WhiteBreakingRule
                ==> {
                &&& r.black == g.black && r.white == g.white
                &&& r.black_playing == g.black_playing
                &&& (r.state == GameState::BlackBreakingRule) == g.black_playing
            }
        }),
{
    let p = sides(g).0;
    let e = sides(g).1;
    lemma_move_keeps_and_takes(p, e, m);
    assert(p & p == p) by (bit_vector);
    assert(e & e == e) by (bit_vector);
}

/// The turn ended with a side breaking the rules.
pub open spec fn breaks_rule(r: Game) -> bool {
    r.state == GameState::BlackBreakingRule || r.state == GameState::WhiteBreakingRule
}

/// Player `b` has no legal square against `w`.
pub open spec fn no_legal_square(b: u64, w: u64) -> bool {
    forall|l: int, c: int| on_board(l, c) ==> !#[trigger] is_legal_square(b, w, l, c)
}

/// The game is over exactly when neither side has a legal square.
proof fn lemma_game_over_iff(b: u64, w: u64)
    ensures
        game_over(b, w) == (no_legal_square(b, w) && no_legal_square(w, b)),
{
    if game_over(b, w) {
        assert forall|l: int, c: int| on_board(l, c) implies !#[trigger] is_legal_square(b, w, l, c) by {
            assert(!is_legal_square(b, w, l, c) && !is_legal_square(w, b, l, c));
        }
        assert forall|l: int, c: int| on_board(l, c) implies !#[trigger] is_legal_square(w, b, l, c) by {
            assert(!is_legal_square(b, w, l, c) && !is_legal_square(w, b, l, c));
        }
    }
    if no_legal_square(b, w) && no_legal_square(w, b) {
        assert forall|l: int, c: int| on_board(l, c) implies !#[trigger] is_legal_square(b, w, l, c)
            && !is_legal_square(w, b, l, c) by {
            assert(!is_legal_square(w, b, l, c));
        }
    }
}

/// When the side to move has no legal square it passes: the boards stay as they
/// were, no rule is broken, and the other side is to move. When it has one, the
/// turn breaks the rules exactly when the move is not a single legal square. A turn
/// that breaks no rule ends the game exactly when neither side has a legal square
/// on the new boards, and otherwise the game goes on.
pub proof fn lemma_turn_pass_and_end(g: Game, m: u64)
    requires
        g.state == GameState::Continue,
    ensures
        no_legal_square(mover_board(g, g), waiting_board(g, g)) ==> !breaks_rule(turn_result(g, m))
            && turn_result(g, m).black == g.black && turn_result(g, m).white == g.white
            && turn_result(g, m).black_playing == !g.black_playing,
        !no_legal_square(mover_board(g, g), waiting_board(g, g)) ==> breaks_rule(
            turn_result(g, m),
        ) == !is_legal_stone(m, mover_board(g, g), waiting_board(g, g)),
        !breaks_rule(turn_result(g, m)) ==> ((turn_result(g, m).state == GameState::NoMove) == (
        no_legal_square(turn_result(g, m).black, turn_result(g, m).white) && no_legal_square(
            turn_result(g, m).white,
            turn_result(g, m).black,
        ))),
        !breaks_rule(turn_result(g, m)) ==> turn_result(g, m).state == GameState::NoMove
            || turn_result(g, m).state == GameState::Continue,
{
    let p = mover_board(g, g);
    let e = waiting_board(g, g);
    assert(p == sides(g).0 && e == sides(g).1);
    let r = turn_result(g, m);
    lemma_legal_board_exists(p, e);
    crate::bits::lemma_zero_iff_no_bit(legal_board(p, e));
    if no_legal_square(p, e) {
        assert forall|t: int| 0 <= t < 64 implies !#[trigger] bit(legal_board(p, e), t) by {
            lemma_square_of_index(t);
            assert(!stone_at(legal_board(p, e), line_of(t), column_of(t)));
        }
        assert(legal_board(p, e) == 0);
    } else {
        let (l, c) = choose|l: int, c: int| on_board(l, c) && #[trigger] is_legal_square(p, e, l, c);
        assert(stone_at(legal_board(p, e), l, c));
        assert(legal_board(p, e) != 0);
    }
    lemma_game_over_iff(r.black, r.white);
}

/// The game starts from the four centre squares, black on D4 and E5 and white on
/// E4 and D5, with black to move.
pub proof fn lemma_start_position()
    ensures
        forall|l: int, c: int|
            #[trigger] stone_at(start_position().black, l, c) == ((l == 3 && c == 3) || (l == 4
                && c == 4)),
        forall|l: int, c: int|
            #[trigger] stone_at(start_position().white, l, c) == ((l == 3 && c == 4) || (l == 4
                && c == 3)),
        start_position().black_playing,
        start_position().state == GameState::Continue,
{
    lemma_centre_boards();
}

} // verus!
