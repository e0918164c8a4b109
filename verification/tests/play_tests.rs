use lib::ai::{human_move_fits, read_human_move};
use lib::client::{
    new_client, open_session, parse_i32, play_my_move, receive, Client, ClientState,
    ProtocolError, Report,
};
use lib::rule::{board_text, is_readable_move};
use lib::testplay::{mover_legal, new_game, play_turn, winner, Game, GameState, Winner};

fn words(text: &str) -> Vec<String> {
    text.split_whitespace().map(|s| s.to_string()).collect()
}

#[test]
fn picture_of_start() {
    let black = 0x0000001008000000u64;
    let white = 0x0000000810000000u64;
    let expected = "  A B C D E F G H\n1 . . . . . . . . \n2 . . . . . . . . \n3 . . . . X . . . \n4 . . . \u{25CF} \u{25CB} X . . \n5 . . X \u{25CB} \u{25CF} . . . \n6 . . . X . . . . \n7 . . . . . . . . \n8 . . . . . . . . \n";
    assert_eq!(board_text(black, white, 0x80420100000), expected);
}

#[test]
fn typed_moves() {
    assert_eq!(read_human_move(&"D3\n".to_string()), Some(0x100000000000));
    assert_eq!(read_human_move(&"A1".to_string()), Some(1 << 63));
    assert_eq!(read_human_move(&"a1".to_string()), Some(1 << 31));
    assert_eq!(read_human_move(&"1A".to_string()), None);
    assert_eq!(read_human_move(&"D".to_string()), None);
    assert_eq!(read_human_move(&"".to_string()), None);
    assert!(human_move_fits(&"H8".to_string()));
    assert!(human_move_fits(&"1A".to_string()));
    assert!(!human_move_fits(&"Z9".to_string()));
    assert!(!human_move_fits(&"PASS".to_string()));
}

#[test]
fn readable_move_texts() {
    assert!(is_readable_move(&"PASS".to_string()));
    assert!(is_readable_move(&"C4".to_string()));
    assert!(!is_readable_move(&"C".to_string()));
    assert!(!is_readable_move(&"PASSED".to_string()));
    assert!(!is_readable_move(&"@1".to_string()));
}

#[test]
fn decimal_numbers() {
    assert_eq!(parse_i32(&"123".to_string()), Some(123));
    assert_eq!(parse_i32(&"-5".to_string()), Some(-5));
    assert_eq!(parse_i32(&"+7".to_string()), Some(7));
    assert_eq!(parse_i32(&"0".to_string()), Some(0));
    assert_eq!(parse_i32(&"2147483647".to_string()), Some(i32::MAX));
    assert_eq!(parse_i32(&"-2147483648".to_string()), Some(i32::MIN));
    assert_eq!(parse_i32(&"2147483648".to_string()), None);
    assert_eq!(parse_i32(&"99999999999".to_string()), None);
    assert_eq!(parse_i32(&"".to_string()), None);
    assert_eq!(parse_i32(&"-".to_string()), None);
    assert_eq!(parse_i32(&"12a".to_string()), None);
    assert_eq!(parse_i32(&" 1".to_string()), None);
    for text in ["0", "42", "-42", "+3", "60000", "-1", "x", "4-2"] {
        assert_eq!(parse_i32(&text.to_string()), text.parse::<i32>().ok());
    }
}

#[test]
fn session_start_and_end() {
    let client = new_client();
    assert_eq!(client.state, ClientState::Start);
    let (client, text) = open_session(client, &"T_A".to_string());
    assert_eq!(text, "OPEN T_A\n");
    assert_eq!(client.state, ClientState::WaitForMatch);
    let (black_client, report) = receive(client, &words("START BLACK someone 60000")).unwrap();
    assert_eq!(report, Report::Started(true));
    assert_eq!(black_client.state, ClientState::MyMove);
    assert_eq!(black_client.black, 0x0000000810000000);
    assert_eq!(black_client.white, 0x0000001008000000);
    assert_eq!(black_client.turn, 1);
    assert_eq!(black_client.time_left, 60000);
    let (white_client, report) = receive(client, &words("START WHITE someone 500")).unwrap();
    assert_eq!(report, Report::Started(false));
    assert_eq!(white_client.state, ClientState::OpponentMove);
    assert!(!white_client.i_am_black);
    let (done, report) = receive(client, &words("BYE")).unwrap();
    assert_eq!(report, Report::Bye);
    assert_eq!(done.state, ClientState::End);
}

#[test]
fn session_errors() {
    let (client, _) = open_session(new_client(), &"T_A".to_string());
    assert_eq!(receive(client, &words("")), Err(ProtocolError::MissingWord));
    assert_eq!(receive(client, &words("START RED x 1")), Err(ProtocolError::UnknownColour));
    assert_eq!(receive(client, &words("START BLACK x")), Err(ProtocolError::MissingWord));
    assert_eq!(receive(client, &words("START BLACK x ten")), Err(ProtocolError::BadTime));
    assert_eq!(receive(client, &words("HELLO")), Err(ProtocolError::UnexpectedMessage));
    assert_eq!(receive(new_client(), &words("BYE")), Err(ProtocolError::NotReading));
}

#[test]
fn opponent_moves() {
    let (client, _) = open_session(new_client(), &"T_A".to_string());
    let (client, _) = receive(client, &words("START WHITE x 500")).unwrap();
    let (same, report) = receive(client, &words("")).unwrap();
    assert_eq!(report, Report::Nothing);
    assert_eq!(same, client);
    let (moved, report) = receive(client, &words("MOVE F5")).unwrap();
    assert_eq!(report, Report::OpponentMoved(0x4000000));
    assert_eq!(moved.state, ClientState::MyMove);
    assert_eq!(moved.black, 0x81c000000);
    assert_eq!(moved.white, 0x1000000000);
    assert_eq!(moved.turn, 2);
    let (passed, report) = receive(client, &words("MOVE PASS")).unwrap();
    assert_eq!(report, Report::OpponentMoved(0));
    assert_eq!(passed.turn, 1);
    assert_eq!(passed.black, client.black);
    assert_eq!(receive(client, &words("MOVE")), Err(ProtocolError::MissingWord));
    assert_eq!(receive(client, &words("MOVE Z")), Err(ProtocolError::BadMove));
    let (ended, report) = receive(client, &words("END WIN 40 24 normal")).unwrap();
    assert_eq!(report, Report::GameEnded);
    assert_eq!(ended.state, ClientState::WaitForMatch);
    assert_eq!(receive(client, &words("END WIN 40")), Err(ProtocolError::MissingWord));
}

#[test]
fn own_move_and_acknowledgement() {
    let client = Client {
        state: ClientState::MyMove,
        black: 0x180c09090a0c080,
        white: 0x3f3f6f6f5f3f7f,
        turn: 53,
        i_am_black: true,
        time_left: 1000,
    };
    let (after, stone, text) = play_my_move(client).unwrap();
    assert_eq!(stone, 0x400000000000000);
    assert_eq!(text, "MOVE F1\n");
    assert_eq!(after.state, ClientState::WaitForAck);
    assert_eq!(after.turn, 54);
    assert_eq!(after.black, 0x588d0b0d0a0c080);
    assert_eq!(after.white, 0x372f4f2f5f3f7f);
    let (waiting, report) = receive(after, &words("ACK 900")).unwrap();
    assert_eq!(report, Report::Acknowledged);
    assert_eq!(waiting.state, ClientState::OpponentMove);
    assert_eq!(waiting.time_left, 900);
    assert_eq!(receive(after, &words("ACK soon")), Err(ProtocolError::BadTime));
    let too_long = Client { turn: 255, ..client };
    assert_eq!(play_my_move(too_long), Err(ProtocolError::TooManyMoves));
}

#[test]
fn game_turns() {
    let game = new_game();
    assert_eq!(game.black, 0x0000001008000000);
    assert_eq!(game.white, 0x0000000810000000);
    assert!(game.black_playing);
    assert_eq!(game.state, GameState::Continue);
    assert_eq!(mover_legal(&game), 0x80420100000);
    let after = play_turn(game, 0x100000);
    assert_eq!(after.black, 0x1018100000);
    assert_eq!(after.white, 0x800000000);
    assert!(!after.black_playing);
    assert_eq!(after.state, GameState::Continue);
    assert_eq!(after.black & after.white, 0);
    assert_eq!(mover_legal(&after), 0x2000280000);
    let broken = play_turn(game, 1);
    assert_eq!(broken.state, GameState::BlackBreakingRule);
    assert_eq!(broken.black, game.black);
    let white_broken = play_turn(after, 0x100000 | 0x200000);
    assert_eq!(white_broken.state, GameState::WhiteBreakingRule);
}

#[test]
fn game_end() {
    let game = Game { black: 0xfd99b5d3fbddfe3f, white: 0x2664a2c04220100, black_playing: true, state: GameState::Continue };
    assert_eq!(mover_legal(&game), 0);
    let passed = play_turn(game, 0);
    assert_eq!(passed.black, game.black);
    assert_eq!(passed.white, game.white);
    assert!(!passed.black_playing);
    let full = Game { black: u64::MAX, white: 0, black_playing: false, state: GameState::Continue };
    assert_eq!(play_turn(full, 0).state, GameState::NoMove);
    assert_eq!(winner(u64::MAX, 0), Winner::Black);
    assert_eq!(winner(0xff, 0xff00), Winner::Draw);
    assert_eq!(winner(1, 3), Winner::White);
}

#[test]
fn move_adds_one_stone() {
    let game = new_game();
    let legal = mover_legal(&game);
    for i in 0..64 {
        let stone: u64 = 1 << i;
        if legal & stone != 0 {
            let after = play_turn(game, stone);
            assert_eq!(
                after.black.count_ones() + after.white.count_ones(),
                game.black.count_ones() + game.white.count_ones() + 1
            );
            assert_eq!(after.black & after.white, 0);
        }
    }
}
