use lib::ai::{ai_play, random};
use lib::rule::{
    count_stone, encode_move, infer_move, judge_move, legal_move, next_board, no_move,
};

const BLACK_START: u64 = 0x0000000810000000;
const WHITE_START: u64 = 0x0000001008000000;

#[test]
fn opening_legal_moves() {
    assert_eq!(legal_move(BLACK_START, WHITE_START), 0x102004080000);
    assert_eq!(legal_move(WHITE_START, BLACK_START), 0x80420100000);
}

#[test]
fn legal_moves_are_empty_squares() {
    let legal = legal_move(BLACK_START, WHITE_START);
    assert_eq!(legal & (BLACK_START | WHITE_START), 0);
}

#[test]
fn no_stones_no_moves() {
    assert_eq!(legal_move(0, 0), 0);
    assert_eq!(legal_move(BLACK_START, 0), 0);
}

#[test]
fn opening_move_flips_one_stone() {
    let (black, white) = next_board(BLACK_START, WHITE_START, 0x80000);
    assert_eq!(black, 0x818080000);
    assert_eq!(white, 0x1000000000);
    assert_eq!(count_stone(black) + count_stone(white), 5);
}

#[test]
fn pass_keeps_boards() {
    assert_eq!(next_board(BLACK_START, WHITE_START, 0), (BLACK_START, WHITE_START));
}

#[test]
fn counting_stones() {
    assert_eq!(count_stone(0), 0);
    assert_eq!(count_stone(u64::MAX), 64);
    assert_eq!(count_stone(0x8100000000000081), 4);
    assert_eq!(count_stone(0x42c300000000c342), 12);
    assert_eq!(count_stone(BLACK_START), 2);
}

#[test]
fn judging_moves() {
    assert!(judge_move(BLACK_START, WHITE_START, 0x80000));
    assert!(!judge_move(BLACK_START, WHITE_START, 0x80000 | 0x100000));
    assert!(!judge_move(BLACK_START, WHITE_START, 0));
    assert!(!judge_move(BLACK_START, WHITE_START, 1));
    assert!(!judge_move(BLACK_START, WHITE_START, BLACK_START & (BLACK_START - 1)));
}

#[test]
fn end_of_game() {
    assert!(!no_move(BLACK_START, WHITE_START));
    assert!(no_move(0, 0));
    assert!(no_move(u64::MAX, 0));
}

#[test]
fn naming_moves() {
    assert_eq!(infer_move(1 << 63), "A1");
    assert_eq!(infer_move(1), "H8");
    assert_eq!(infer_move(0), "PASS");
    assert_eq!(infer_move(0x80000), "E6");
    assert_eq!(infer_move(3), "G8");
}

#[test]
fn reading_moves() {
    assert_eq!(encode_move("PASS".to_string()), 0);
    assert_eq!(encode_move("A1".to_string()), 1 << 63);
    assert_eq!(encode_move("H8".to_string()), 1);
    assert_eq!(encode_move("D3".to_string()), 0x100000000000);
    assert_eq!(encode_move("E6".to_string()), 0x80000);
}

#[test]
fn names_round_trip() {
    for i in 0..64 {
        let stone: u64 = 1 << i;
        assert_eq!(encode_move(infer_move(stone)), stone);
    }
    assert_eq!(encode_move(infer_move(0)), 0);
    for line in ['1', '2', '3', '4', '5', '6', '7', '8'] {
        for column in ['A', 'B', 'C', 'D', 'E', 'F', 'G', 'H'] {
            let name: String = [column, line].iter().collect();
            assert_eq!(infer_move(encode_move(name.clone())), name);
        }
    }
}

#[test]
fn lowest_legal_stone() {
    assert_eq!(random(0b1100), 0b100);
    assert_eq!(random(0), 0);
    assert_eq!(random(1 << 63), 1 << 63);
    assert_eq!(random(legal_move(BLACK_START, WHITE_START)), 0x80000);
}

#[test]
fn legal_iff_something_turns() {
    let black = 0x180c09090a0c080u64;
    let white = 0x3f3f6f6f5f3f7fu64;
    let legal = legal_move(black, white);
    for i in 0..64 {
        let stone: u64 = 1 << i;
        if stone & (black | white) != 0 {
            continue;
        }
        let (_, new_white) = next_board(black, white, stone);
        assert_eq!(legal & stone != 0, new_white != white);
    }
}

#[test]
fn endgame_choice() {
    let player = 0x180c09090a0c080u64;
    let enemy = 0x3f3f6f6f5f3f7fu64;
    let chosen = ai_play(player, enemy, 53, 1000);
    assert_eq!(chosen, 0x400000000000000);
    assert!(judge_move(player, enemy, chosen));
}

#[test]
fn pass_when_no_move() {
    let player = 0xfd99b5d3fbddfe3fu64;
    let enemy = 0x2664a2c04220100u64;
    assert_eq!(legal_move(player, enemy), 0);
    assert_eq!(ai_play(player, enemy, 59, 1000), 0);
}

#[test]
fn it_works() {
    assert_eq!(2 + 2, 4);
    println!("{}", lib::rule::board_text(0x8100000000000081, 0x42c300000000c342, 0));
}

/// Negamax value of a position played to the end, from the library's own rules.
fn game_value(player: u64, enemy: u64) -> i64 {
    let legal = legal_move(player, enemy);
    if legal == 0 && legal_move(enemy, player) == 0 {
        let (mine, theirs) = (count_stone(player), count_stone(enemy));
        return if mine > theirs {
            100000
        } else if mine < theirs {
            -100000
        } else {
            0
        };
    }
    if legal == 0 {
        return -game_value(enemy, player);
    }
    let mut best = i64::MIN;
    for i in 0..64 {
        let stone: u64 = 1 << i;
        if legal & stone != 0 {
            let (p, e) = next_board(player, enemy, stone);
            best = best.max(-game_value(e, p));
        }
    }
    best
}

#[test]
fn winning_endgame_choice_is_optimal() {
    let player = 0xc0603c001802c1f1u64;
    let enemy = 0x3a14c3ffe7fd2e0eu64;
    let value = game_value(player, enemy);
    assert_eq!(value, 100000);
    let chosen = ai_play(player, enemy, 54, 1000);
    assert_eq!(chosen, 0x1000);
    let (p, e) = next_board(player, enemy, chosen);
    assert_eq!(-game_value(e, p), value);
}

#[test]
fn accepted_moves_turn_stones_over() {
    let black = 0x180c09090a0c080u64;
    let white = 0x3f3f6f6f5f3f7fu64;
    for i in 0..64 {
        let stone: u64 = 1 << i;
        if judge_move(black, white, stone) {
            let (new_black, new_white) = next_board(black, white, stone);
            assert!(new_white != white);
            assert_eq!(new_white & !white, 0);
            assert_eq!(new_black & new_white, 0);
        }
    }
}

#[test]
fn end_of_game_is_symmetric() {
    let positions = [
        (BLACK_START, WHITE_START),
        (0xfd99b5d3fbddfe3f, 0x2664a2c04220100),
        (u64::MAX, 0),
        (0x180c09090a0c080, 0x3f3f6f6f5f3f7f),
    ];
    for (black, white) in positions {
        assert_eq!(no_move(black, white), no_move(white, black));
    }
}

fn transpose(x: u64) -> u64 {
    let mut r: u64 = 0;
    for l in 0..8 {
        for c in 0..8 {
            if x >> (63 - 8 * l - c) & 1 == 1 {
                r |= 1u64 << (63 - 8 * c - l);
            }
        }
    }
    r
}

fn mirror_columns(x: u64) -> u64 {
    x.reverse_bits().swap_bytes()
}

fn symmetries() -> Vec<fn(u64) -> u64> {
    vec![
        |x| x,
        |x| x.swap_bytes(),
        |x| x.reverse_bits(),
        mirror_columns,
        transpose,
        |x| transpose(x).swap_bytes(),
        |x| transpose(x).reverse_bits(),
        |x| mirror_columns(transpose(x)),
    ]
}

fn sample_positions() -> Vec<(u64, u64)> {
    vec![
        (BLACK_START, WHITE_START),
        (0x818080000, 0x1000000000),
        (0xc0603c001802c1f1, 0x3a14c3ffe7fd2e0e),
        (0x3a14c3ffe7fd2e0e, 0xc0603c001802c1f1),
        (0x0000203c1c080000, 0x0010100000000000),
    ]
}

#[test]
fn legal_moves_commute_with_mirrors_and_rotations() {
    for (p, e) in sample_positions() {
        for g in symmetries() {
            assert_eq!(legal_move(g(p), g(e)), g(legal_move(p, e)));
        }
    }
}

#[test]
fn moves_commute_with_mirrors_and_rotations() {
    for (p, e) in sample_positions() {
        let legal = legal_move(p, e);
        for i in 0..64 {
            let m = 1u64 << i;
            if legal & m == 0 {
                continue;
            }
            let (p1, e1) = next_board(p, e, m);
            for g in symmetries() {
                assert_eq!(next_board(g(p), g(e), g(m)), (g(p1), g(e1)));
            }
        }
    }
}

#[test]
fn any_empty_square_adds_one_stone() {
    for (p, e) in sample_positions() {
        for i in 0..64 {
            let m = 1u64 << i;
            if (p | e) & m != 0 {
                continue;
            }
            let (p1, e1) = next_board(p, e, m);
            assert_eq!(count_stone(p1) + count_stone(e1), count_stone(p) + count_stone(e) + 1);
        }
    }
    // A corner far from every stone turns nothing over.
    let (p1, e1) = next_board(BLACK_START, WHITE_START, 1);
    assert_eq!((p1, e1), (BLACK_START | 1, WHITE_START));
}

#[test]
fn clock_does_not_matter_before_the_endgame() {
    let player = 0x180c09090a0c080u64;
    let enemy = 0x3f3f6f6f5f3f7fu64;
    let quick = ai_play(player, enemy, 30, 0);
    let slow = ai_play(player, enemy, 30, u64::MAX);
    assert_eq!(quick, slow);
    assert!(judge_move(player, enemy, slow));
    let stuck = 0xfd99b5d3fbddfe3fu64;
    let other = 0x2664a2c04220100u64;
    assert_eq!(ai_play(stuck, other, 10, u64::MAX), 0);
}
