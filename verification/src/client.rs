//! The decisions of a network player: the protocol states, what each server
//! message changes, and the move sent back.
use vstd::prelude::*;
use crate::ai::{ai_play, ai_choice};
use crate::board::{is_move_text, encoded_move, stone_name, stone_at, lemma_centre_boards};
use crate::rule::{encode_move, infer_move, is_readable_move, next_board, next_boards};
use crate::laws::lemma_move_keeps_and_takes;

verus! {

/// Value of the decimal digits `s` (each between '0' and '9').
pub open spec fn digits_value(s: Seq<char>) -> int
    decreases s.len(),
{
    if s.len() == 0 {
        0
    } else {
        digits_value(s.drop_last()) * 10 + (s.last() as int - 48)
    }
}

/// Every character of `s` is a decimal digit.
pub open spec fn all_digits(s: Seq<char>) -> bool {
    forall|i: int| 0 <= i < s.len() ==> '0' <= #[trigger] s[i] <= '9'
}

/// The digits of a number text: everything after a leading sign, if any.
pub open spec fn number_body(s: Seq<char>) -> Seq<char> {
    if s.len() > 0 && (s[0] == '-' || s[0] == '+') {
        s.drop_first()
    } else {
        s
    }
}

/// The 32-bit integer a text writes in decimal: an optional sign, then at least one
/// digit, and nothing else; `None` when the text is not such a number or the number
/// does not fit.
pub open spec fn decimal_i32(s: Seq<char>) -> Option<int> {
    let body = number_body(s);
    let v = if s.len() > 0 && s[0] == '-' {
        -digits_value(body)
    } else {
        digits_value(body)
    };
    if body.len() == 0 || !all_digits(body) {
        None
    } else if i32::MIN <= v <= i32::MAX {
        Some(v)
    } else {
        None
    }
}

proof fn lemma_digits_value_push(s: Seq<char>, c: char)
    ensures
        digits_value(s.push(c)) == digits_value(s) * 10 + (c as int - 48),
{
    assert(s.push(c).drop_last() =~= s);
}

proof fn lemma_digits_value_nonneg(s: Seq<char>)
    requires
        all_digits(s),
    ensures
        digits_value(s) >= 0,
    decreases s.len(),
{
    if s.len() > 0 {
        assert(all_digits(s.drop_last()));
        lemma_digits_value_nonneg(s.drop_last());
        assert('0' <= s[s.len() - 1] <= '9');
    }
}

proof fn lemma_digits_value_grows(s: Seq<char>, n: int)
    requires
        all_digits(s),
        0 <= n <= s.len(),
    ensures
        digits_value(s.subrange(0, n)) <= digits_value(s),
    decreases s.len() - n,
{
    if n < s.len() {
        lemma_digits_value_grows(s, n + 1);
        let t = s.subrange(0, n);
        assert(s.subrange(0, n + 1) =~= t.push(s[n]));
        lemma_digits_value_push(t, s[n]);
        assert(all_digits(t));
        lemma_digits_value_nonneg(t);
        assert('0' <= s[n] <= '9');
    } else {
        assert(s.subrange(0, n) =~= s);
    }
}

/// Reads a decimal 32-bit integer, as `str::parse::<i32>` does.
pub fn parse_i32(text: &String) -> (r: Option<i32>)
    ensures
        match r {
            Some(v) => decimal_i32(text@) == Some(v as int),
            None => decimal_i32(text@) is None,
        },
{
    let s = text.as_str();
    let n = s.unicode_len();
    let ghost t = text@;
    let mut i: usize = 0;
    let mut negative = false;
    if n > 0 {
        let c = s.get_char(0);
        if c == '-' {
            negative = true;
            i = 1;
        } else if c == '+' {
            i = 1;
        }
    }
    let start = i;
    assert(number_body(t) =~= t.subrange(start as int, n as int));
    if start == n {
        return None;
    }
    let mut value: u64 = 0;
    while i < n
        invariant
            t == text@,
            n == t.len(),
            s@ == t,
            start <= i <= n,
            start < n,
            number_body(t) =~= t.subrange(start as int, n as int),
            negative == (t.len() > 0 && t[0] == '-'),
            all_digits(t.subrange(start as int, i as int)),
            value as int == digits_value(t.subrange(start as int, i as int)),
            value <= 2147483648,
        decreases n - i,
    {
        let c = s.get_char(i);
        if c < '0' || c > '9' {
            proof {
                assert(t[i as int] == c);
                assert(number_body(t)[i - start] == c);
                assert(!all_digits(number_body(t)));
            }
            return None;
        }
        let d = (c as u32 - 48) as u64;
        proof {
            assert(t[i as int] == c);
            let before = t.subrange(start as int, i as int);
            assert(t.subrange(start as int, i + 1) =~= before.push(c));
            lemma_digits_value_push(before, c);
        }
        if value * 10 + d > 2147483648 {
            proof {
                let body = number_body(t);
                assert(digits_value(t.subrange(start as int, i + 1)) == value * 10 + d);
                if all_digits(body) {
                    assert(body.subrange(0, i + 1 - start) =~= t.subrange(start as int, i + 1));
                    lemma_digits_value_grows(body, i + 1 - start);
                    assert(digits_value(body) > 2147483648);
                }
            }
            return None;
        }
        value = value * 10 + d;
        i = i + 1;
    }
    proof {
        assert(t.subrange(start as int, n as int) =~= number_body(t));
    }
    if negative {
        Some((0 - value as i64) as i32)
    } else if value <= 2147483647 {
        Some(value as i32)
    } else {
        None
    }
}

/// Where the conversation with the server stands.
#[derive(PartialEq, Eq, Structural, Clone, Copy, Debug)]
pub enum ClientState {
    Start,
    WaitForMatch,
    MyMove,
    OpponentMove,
    WaitForAck,
    End,
}

/// A player's side of the game server protocol: the state, both boards, the move
/// number (passes are not counted), the player's colour and the clock.
#[derive(PartialEq, Eq, Structural, Clone, Copy, Debug)]
pub struct Client {
    pub state: ClientState,
    pub black: u64,
    pub white: u64,
    pub turn: u8,
    pub i_am_black: bool,
    pub time_left: i32,
}

/// What a server message told, for the player to report.
#[derive(PartialEq, Eq, Structural, Clone, Copy, Debug)]
pub enum Report {
    /// A game started; the player has black when true.
    Started(bool),
    /// The server closed the session.
    Bye,
    /// The opponent played the given stone (0 for a pass).
    OpponentMoved(u64),
    /// The game ended.
    GameEnded,
    /// The server took the player's move.
    Acknowledged,
    /// No message.
    Nothing,
}

/// A server message the protocol does not allow at this point.
#[derive(PartialEq, Eq, Structural, Clone, Copy, Debug)]
pub enum ProtocolError {
    /// A word is missing from the message.
    MissingWord,
    /// The message is not one the current state expects.
    UnexpectedMessage,
    /// The colour is neither BLACK nor WHITE.
    UnknownColour,
    /// The clock is not a 32-bit decimal number.
    BadTime,
    /// The move text cannot be read.
    BadMove,
    /// The move count went past 255.
    TooManyMoves,
    /// The current state reads no message.
    NotReading,
}

/// A client before it has opened the session.
pub open spec fn initial_client() -> Client {
    Client { state: ClientState::Start, black: 0, white: 0, turn: 0, i_am_black: true, time_left: 0 }
}

/// A fresh client.
pub fn new_client() -> (r: Client)
    ensures
        r == initial_client(),
{
    Client { state: ClientState::Start, black: 0, white: 0, turn: 0, i_am_black: true, time_left: 0 }
}

/// The message that opens the session.
pub open spec fn open_text(name: Seq<char>) -> Seq<char> {
    seq!['O', 'P', 'E', 'N', ' '] + name + seq!['\n']
}

/// Opens the session under `name`: the message to send, and the client waiting for
/// a match.
pub fn open_session(client: Client, name: &String) -> (r: (Client, String))
    ensures
        r.0 == (Client { state: ClientState::WaitForMatch, ..client }),
        r.1@ == open_text(name@),
{
    proof {
        reveal_strlit("OPEN ");
        reveal_strlit("\n");
    }
    let text = String::from_str("OPEN ").concat(name.as_str()).concat("\n");
    assert(text@ =~= open_text(name@));
    (Client { state: ClientState::WaitForMatch, ..client }, text)
}

/// The message that sends a move.
pub open spec fn move_text(name: Seq<char>) -> Seq<char> {
    seq!['M', 'O', 'V', 'E', ' '] + name + seq!['\n']
}

/// The player's boards, and the opponent's, in that order.
pub open spec fn own_boards(c: Client) -> (u64, u64) {
    if c.i_am_black {
        (c.black, c.white)
    } else {
        (c.white, c.black)
    }
}

/// The clock as the search reads it: negative times count as none.
pub open spec fn clock(c: Client) -> int {
    if c.time_left < 0 {
        0
    } else {
        c.time_left as int
    }
}

/// The client after playing stone `m`.
pub open spec fn after_my_move(c: Client, m: u64) -> Client {
    let own = own_boards(c);
    let boards = next_boards(own.0, own.1, m);
    Client {
        state: ClientState::WaitForAck,
        black: if c.i_am_black {
            boards.0
        } else {
            boards.1
        },
        white: if c.i_am_black {
            boards.1
        } else {
            boards.0
        },
        turn: if m != 0 {
            (c.turn + 1) as u8
        } else {
            c.turn
        },
        ..c
    }
}

/// The move the search picks for the player.
pub open spec fn my_choice(c: Client) -> u64 {
    ai_choice(own_boards(c).0, own_boards(c).1, c.turn as int, clock(c))
}

/// Plays the player's move: the move the search picks is played on the boards,
/// counted unless it is a pass, and sent; then the client waits for the server's
/// acknowledgement. Fails when the move count would pass 255.
pub fn play_my_move(client: Client) -> (r: Result<(Client, u64, String), ProtocolError>)
    requires
        client.state == ClientState::MyMove,
    ensures
        (r is Err) == (my_choice(client) != 0 && client.turn == 255),
        r is Err ==> r == Err::<(Client, u64, String), ProtocolError>(ProtocolError::TooManyMoves),
        r is Ok ==> r->Ok_0.1 == my_choice(client) && r->Ok_0.0 == after_my_move(
            client,
            my_choice(client),
        ) && r->Ok_0.2@ == move_text(stone_name(my_choice(client))),
{
    let my_board = if client.i_am_black {
        client.black
    } else {
        client.white
    };
    let opponent_board = if client.i_am_black {
        client.white
    } else {
        client.black
    };
    let time: u64 = if client.time_left < 0 {
        0
    } else {
        client.time_left as u64
    };
    let my_move = ai_play(my_board, opponent_board, client.turn, time);
    let mut turn = client.turn;
    if my_move != 0 {
        if turn == 255 {
            return Err(ProtocolError::TooManyMoves);
        }
        turn = turn + 1;
    }
    let name = infer_move(my_move);
    proof {
        reveal_strlit("MOVE ");
        reveal_strlit("\n");
    }
    let text = String::from_str("MOVE ").concat(name.as_str()).concat("\n");
    assert(text@ =~= move_text(stone_name(my_move)));
    let (mine, theirs) = next_board(my_board, opponent_board, my_move);
    let black = if client.i_am_black {
        mine
    } else {
        theirs
    };
    let white = if client.i_am_black {
        theirs
    } else {
        mine
    };
    Ok((Client { state: ClientState::WaitForAck, black, white, turn, ..client }, my_move, text))
}

pub open spec fn start_word() -> Seq<char> {
    seq!['S', 'T', 'A', 'R', 'T']
}

pub open spec fn bye_word() -> Seq<char> {
    seq!['B', 'Y', 'E']
}

pub open spec fn black_word() -> Seq<char> {
    seq!['B', 'L', 'A', 'C', 'K']
}

pub open spec fn white_word() -> Seq<char> {
    seq!['W', 'H', 'I', 'T', 'E']
}

pub open spec fn move_word() -> Seq<char> {
    seq!['M', 'O', 'V', 'E']
}

pub open spec fn end_word() -> Seq<char> {
    seq!['E', 'N', 'D']
}

pub open spec fn none_word() -> Seq<char> {
    seq!['N', 'o', 'n', 'e']
}

pub open spec fn ack_word() -> Seq<char> {
    seq!['A', 'C', 'K']
}

/// The texts of the words of a message.
pub open spec fn words_of(tokens: Seq<String>) -> Seq<Seq<char>> {
    tokens.map_values(|s: String| s@)
}

/// The client after the opponent played stone `m`.
pub open spec fn after_opponent_move(c: Client, m: u64) -> Client {
    let own = own_boards(c);
    let boards = next_boards(own.1, own.0, m);
    Client {
        state: ClientState::MyMove,
        black: if c.i_am_black {
            boards.1
        } else {
            boards.0
        },
        white: if c.i_am_black {
            boards.0
        } else {
            boards.1
        },
        turn: if m != 0 {
            (c.turn + 1) as u8
        } else {
            c.turn
        },
        ..c
    }
}

/// What a server message (its words `w`) does to the client: waiting for a match,
/// "START <colour> _ <time>" starts a game from the initial position (move 1) and
/// "BYE" ends the session; waiting for the opponent, "MOVE <move>" plays the move,
/// "END" with four more words ends the game, and no message ("None") changes
/// nothing; waiting for the acknowledgement, "ACK <time>" sets the clock and "END"
/// ends the game. Anything else is a protocol error.
pub open spec fn received(c: Client, w: Seq<Seq<char>>) -> Result<(Client, Report), ProtocolError> {
    match c.state {
        ClientState::WaitForMatch => {
            if w.len() == 0 {
                Err(ProtocolError::MissingWord)
            } else if w[0] == start_word() {
                if w.len() < 2 {
                    Err(ProtocolError::MissingWord)
                } else if w[1] != black_word() && w[1] != white_word() {
                    Err(ProtocolError::UnknownColour)
                } else if w.len() < 4 {
                    Err(ProtocolError::MissingWord)
                } else if decimal_i32(w[3]) is None {
                    Err(ProtocolError::BadTime)
                } else {
                    let black = w[1] == black_word();
                    Ok(
                        (
                            Client {
                                state: if black {
                                    ClientState::MyMove
                                } else {
                                    ClientState::OpponentMove
                                },
                                black: 0x0000000810000000,
                                white: 0x0000001008000000,
                                turn: 1,
                                i_am_black: black,
                                time_left: decimal_i32(w[3])->0 as i32,
                            },
                            Report::Started(black),
                        ),
                    )
                }
            } else if w[0] == bye_word() {
                Ok((Client { state: ClientState::End, ..c }, Report::Bye))
            } else {
                Err(ProtocolError::UnexpectedMessage)
            }
        },
        ClientState::OpponentMove => {
            let head = if w.len() == 0 {
                none_word()
            } else {
                w[0]
            };
            if head == move_word() {
                if w.len() < 2 {
                    Err(ProtocolError::MissingWord)
                } else if !is_move_text(w[1]) {
                    Err(ProtocolError::BadMove)
                } else if encoded_move(w[1]) != 0 && c.turn == 255 {
                    Err(ProtocolError::TooManyMoves)
                } else {
                    let m = encoded_move(w[1]);
                    Ok((after_opponent_move(c, m), Report::OpponentMoved(m)))
                }
            } else if head == end_word() {
                if w.len() < 5 {
                    Err(ProtocolError::MissingWord)
                } else {
                    Ok((Client { state: ClientState::WaitForMatch, ..c }, Report::GameEnded))
                }
            } else if head == none_word() {
                Ok((c, Report::Nothing))
            } else {
                Err(ProtocolError::UnexpectedMessage)
            }
        },
        ClientState::WaitForAck => {
            if w.len() == 0 {
                Err(ProtocolError::MissingWord)
            } else if w[0] == ack_word() {
                if w.len() < 2 {
                    Err(ProtocolError::MissingWord)
                } else if decimal_i32(w[1]) is None {
                    Err(ProtocolError::BadTime)
                } else {
                    Ok(
                        (
                            Client {
                                state: ClientState::OpponentMove,
                                time_left: decimal_i32(w[1])->0 as i32,
                                ..c
                            },
                            Report::Acknowledged,
                        ),
                    )
                }
            } else if w[0] == end_word() {
                if w.len() < 5 {
                    Err(ProtocolError::MissingWord)
                } else {
                    Ok((Client { state: ClientState::WaitForMatch, ..c }, Report::GameEnded))
                }
            } else {
                Err(ProtocolError::UnexpectedMessage)
            }
        },
        _ => Err(ProtocolError::NotReading),
    }
}

/// `word` spells `lit`.
fn word_is(word: &String, lit: &str) -> (b: bool)
    ensures
        b == (word@ == lit@),
{
    let expected = String::from_str(lit);
    *word == expected
}

/// Takes in a server message, split into its words.
pub fn receive(client: Client, tokens: &Vec<String>) -> (r: Result<(Client, Report), ProtocolError>)
    ensures
        r == received(client, words_of(tokens@)),
{
    proof {
        reveal_strlit("START");
        reveal_strlit("BYE");
        reveal_strlit("BLACK");
        reveal_strlit("WHITE");
        reveal_strlit("MOVE");
        reveal_strlit("END");
        reveal_strlit("None");
        reveal_strlit("ACK");
        assert("START"@ =~= start_word());
        assert("BYE"@ =~= bye_word());
        assert("BLACK"@ =~= black_word());
        assert("WHITE"@ =~= white_word());
        assert("MOVE"@ =~= move_word());
        assert("END"@ =~= end_word());
        assert("None"@ =~= none_word());
        assert("ACK"@ =~= ack_word());
    }
    let ghost w = words_of(tokens@);
    assert(w.len() == tokens@.len());
    assert(forall|i: int| 0 <= i < tokens@.len() ==> #[trigger] w[i] == tokens@[i]@);
    match client.state {
        ClientState::WaitForMatch => {
            if tokens.len() == 0 {
                Err(ProtocolError::MissingWord)
            } else if word_is(&tokens[0], "START") {
                if tokens.len() < 2 {
                    Err(ProtocolError::MissingWord)
                } else {
                    let black = word_is(&tokens[1], "BLACK");
                    let white = word_is(&tokens[1], "WHITE");
                    if !black && !white {
                        Err(ProtocolError::UnknownColour)
                    } else if tokens.len() < 4 {
                        Err(ProtocolError::MissingWord)
                    } else {
                        match parse_i32(&tokens[3]) {
                            None => Err(ProtocolError::BadTime),
                            Some(time_left) => {
                                let state = if black {
                                    ClientState::MyMove
                                } else {
                                    ClientState::OpponentMove
                                };
                                Ok(
                                    (
                                        Client {
                                            state,
                                            black: 0x0000000810000000,
                                            white: 0x0000001008000000,
                                            turn: 1,
                                            i_am_black: black,
                                            time_left,
                                        },
                                        Report::Started(black),
                                    ),
                                )
                            },
                        }
                    }
                }
            } else if word_is(&tokens[0], "BYE") {
                Ok((Client { state: ClientState::End, ..client }, Report::Bye))
            } else {
                Err(ProtocolError::UnexpectedMessage)
            }
        },
        ClientState::OpponentMove => {
            let head_move;
            let head_end;
            let head_none;
            if tokens.len() == 0 {
                head_move = false;
                head_end = false;
                head_none = true;
            } else {
                head_move = word_is(&tokens[0], "MOVE");
                head_end = word_is(&tokens[0], "END");
                head_none = word_is(&tokens[0], "None");
            }
            if head_move {
                if tokens.len() < 2 {
                    Err(ProtocolError::MissingWord)
                } else if !is_readable_move(&tokens[1]) {
                    Err(ProtocolError::BadMove)
                } else {
                    let opponent_move = encode_move(tokens[1].clone());
                    if opponent_move != 0 && client.turn == 255 {
                        Err(ProtocolError::TooManyMoves)
                    } else {
                        let turn = if opponent_move != 0 {
                            client.turn + 1
                        } else {
                            client.turn
                        };
                        let my_board = if client.i_am_black {
                            client.black
                        } else {
                            client.white
                        };
                        let opponent_board = if client.i_am_black {
                            client.white
                        } else {
                            client.black
                        };
                        let (theirs, mine) = next_board(opponent_board, my_board, opponent_move);
                        let black = if client.i_am_black {
                            mine
                        } else {
                            theirs
                        };
                        let white = if client.i_am_black {
                            theirs
                        } else {
                            mine
                        };
                        Ok(
                            (
                                Client {
                                    state: ClientState::MyMove,
                                    black,
                                    white,
                                    turn,
                                    ..client
                                },
                                Report::OpponentMoved(opponent_move),
                            ),
                        )
                    }
                }
            } else if head_end {
                if tokens.len() < 5 {
                    Err(ProtocolError::MissingWord)
                } else {
                    Ok((Client { state: ClientState::WaitForMatch, ..client }, Report::GameEnded))
                }
            } else if head_none {
                Ok((client, Report::Nothing))
            } else {
                Err(ProtocolError::UnexpectedMessage)
            }
        },
        ClientState::WaitForAck => {
            if tokens.len() == 0 {
                Err(ProtocolError::MissingWord)
            } else if word_is(&tokens[0], "ACK") {
                if tokens.len() < 2 {
                    Err(ProtocolError::MissingWord)
                } else {
                    match parse_i32(&tokens[1]) {
                        None => Err(ProtocolError::BadTime),
                        Some(time_left) => Ok(
                            (
                                Client { state: ClientState::OpponentMove, time_left, ..client },
                                Report::Acknowledged,
                            ),
                        ),
                    }
                }
            } else if word_is(&tokens[0], "END") {
                if tokens.len() < 5 {
                    Err(ProtocolError::MissingWord)
                } else {
                    Ok((Client { state: ClientState::WaitForMatch, ..client }, Report::GameEnded))
                }
            } else {
                Err(ProtocolError::UnexpectedMessage)
            }
        },
        _ => Err(ProtocolError::NotReading),
    }
}

/// The board of the player's own colour in `r`, for a player whose colour is `c`'s.
pub open spec fn own_colour(c: Client, r: Client) -> u64 {
    if c.i_am_black {
        r.black
    } else {
        r.white
    }
}

/// The board of the opponent's colour in `r`, for a player whose colour is `c`'s.
pub open spec fn other_colour(c: Client, r: Client) -> u64 {
    if c.i_am_black {
        r.white
    } else {
        r.black
    }
}

/// After the player's own move `m`, the player keeps its colour, the board of its
/// colour keeps all its stones and holds `m`, the board of the other colour only
/// loses stones, and the client waits for the acknowledgement.
pub proof fn lemma_my_move_on_my_colour(c: Client, m: u64)
    ensures
        ({
            let r = after_my_move(c, m);
            &&& r.i_am_black == c.i_am_black
            &&& r.state == ClientState::WaitForAck
            &&& own_colour(c, r) & own_colour(c, c) == own_colour(c, c)
            &&& own_colour(c, r) & m == m
            &&& other_colour(c, r) & other_colour(c, c) == other_colour(c, r)
        }),
{
    lemma_move_keeps_and_takes(own_boards(c).0, own_boards(c).1, m);
}

/// When the opponent's move is accepted, it is the move the message names; the
/// board of the opponent's colour keeps all its stones and holds that move, the
/// board of the player's colour only loses stones, the player keeps its colour, and
/// it is the player's turn.
pub proof fn lemma_opponent_move_on_their_colour(c: Client, w: Seq<Seq<char>>)
    requires
        c.state == ClientState::OpponentMove,
        w.len() >= 1,
        w[0] == move_word(),
        received(c, w) is Ok,
    ensures
        ({
            let r = received(c, w)->Ok_0.0;
            let m = encoded_move(w[1]);
            &&& w.len() >= 2 && is_move_text(w[1])
            &&& received(c, w)->Ok_0.1 == Report::OpponentMoved(m)
            &&& r.i_am_black == c.i_am_black
            &&& r.state == ClientState::MyMove
            &&& other_colour(c, r) & other_colour(c, c) == other_colour(c, c)
            &&& other_colour(c, r) & m == m
            &&& own_colour(c, r) & own_colour(c, c) == own_colour(c, r)
        }),
{
    lemma_move_keeps_and_takes(own_boards(c).1, own_boards(c).0, encoded_move(w[1]));
}

/// A message that ends the game, once accepted, leaves the client waiting for a
/// match, with the boards and colour as they were; it is accepted, with four more
/// words, whenever the client waits for the opponent or for an acknowledgement; and
/// afterwards every well-formed START message is accepted.
pub proof fn lemma_game_end_waits_for_match(c: Client, w: Seq<Seq<char>>)
    requires
        w.len() >= 1,
        w[0] == end_word(),
    ensures
        (c.state == ClientState::OpponentMove || c.state == ClientState::WaitForAck) && w.len()
            >= 5 ==> received(c, w) is Ok,
        received(c, w) is Ok ==> ({
            let r = received(c, w)->Ok_0.0;
            &&& received(c, w)->Ok_0.1 == Report::GameEnded
            &&& r.state == ClientState::WaitForMatch
            &&& r.black == c.black && r.white == c.white && r.i_am_black == c.i_am_black
            &&& forall|s: Seq<Seq<char>>|
                s.len() >= 4 && s[0] == start_word() && (s[1] == black_word() || s[1]
                    == white_word()) && decimal_i32(s[3]) is Some ==> (#[trigger] received(
                    r,
                    s,
                )) is Ok
        }),
{
    assert(end_word()[0] != move_word()[0]);
    assert(end_word()[0] != ack_word()[0]);
    assert(end_word()[0] != start_word()[0]);
    assert(end_word()[0] != bye_word()[0]);
    assert(end_word()[0] != none_word()[0]);
    assert(end_word() != move_word());
    assert(end_word() != ack_word());
    assert(end_word() != start_word());
    assert(end_word() != bye_word());
    assert(end_word() != none_word());
}

/// A START message, once accepted, starts a game: the player takes the colour it
/// names, black moves first (so a black player is to move and a white one waits),
/// the clock is the time it gives, the move count is 1, and the board is the
/// opening position, black on E4 and D5 and white on D4 and E5. It is accepted
/// exactly when the colour is BLACK or WHITE and the time is a 32-bit number.
pub proof fn lemma_start_begins_game(c: Client, w: Seq<Seq<char>>)
    requires
        c.state == ClientState::WaitForMatch,
        w.len() >= 1,
        w[0] == start_word(),
    ensures
        (received(c, w) is Ok) == (w.len() >= 4 && (w[1] == black_word() || w[1] == white_word())
            && decimal_i32(w[3]) is Some),
        received(c, w) is Ok ==> ({
            let r = received(c, w)->Ok_0.0;
            &&& r.i_am_black == (w[1] == black_word())
            &&& received(c, w)->Ok_0.1 == Report::Started(r.i_am_black)
            &&& r.state == (if r.i_am_black {
                ClientState::MyMove
            } else {
                ClientState::OpponentMove
            })
            &&& r.time_left == decimal_i32(w[3])->0
            &&& r.turn == 1
            &&& forall|l: int, c: int|
                #[trigger] stone_at(r.black, l, c) == ((l == 3 && c == 4) || (l == 4 && c == 3))
            &&& forall|l: int, c: int|
                #[trigger] stone_at(r.white, l, c) == ((l == 3 && c == 3) || (l == 4 && c == 4))
        }),
{
    lemma_centre_boards();
    assert(black_word() != white_word()) by {
        assert(black_word()[0] != white_word()[0]);
    }
}

/// BYE, while waiting for a match, ends the session and changes nothing else.
pub proof fn lemma_bye_ends_session(c: Client, w: Seq<Seq<char>>)
    requires
        c.state == ClientState::WaitForMatch,
        w.len() >= 1,
        w[0] == bye_word(),
    ensures
        received(c, w) == Ok::<(Client, Report), ProtocolError>(
            (Client { state: ClientState::End, ..c }, Report::Bye),
        ),
{
    assert(bye_word() != start_word()) by {
        assert(bye_word()[0] != start_word()[0]);
    }
}

/// ACK, once accepted, sets the clock to the time it gives and hands the turn to
/// the opponent, leaving the boards, the colour and the move count as they were; it
/// is accepted exactly when the time is a 32-bit number.
pub proof fn lemma_ack_sets_clock(c: Client, w: Seq<Seq<char>>)
    requires
        c.state == ClientState::WaitForAck,
        w.len() >= 1,
        w[0] == ack_word(),
    ensures
        (received(c, w) is Ok) == (w.len() >= 2 && decimal_i32(w[1]) is Some),
        received(c, w) is Ok ==> ({
            let r = received(c, w)->Ok_0.0;
            &&& received(c, w)->Ok_0.1 == Report::Acknowledged
            &&& r.state == ClientState::OpponentMove
            &&& r.time_left == decimal_i32(w[1])->0
            &&& r.black == c.black && r.white == c.white
            &&& r.i_am_black == c.i_am_black && r.turn == c.turn
        }),
{
}

/// Waiting for the opponent, no message at all (no words, or "None") changes
/// nothing.
pub proof fn lemma_no_message_changes_nothing(c: Client, w: Seq<Seq<char>>)
    requires
        c.state == ClientState::OpponentMove,
        w.len() == 0 || w[0] == none_word(),
    ensures
        received(c, w) == Ok::<(Client, Report), ProtocolError>((c, Report::Nothing)),
{
    assert(none_word() != move_word()) by {
        assert(none_word()[0] != move_word()[0]);
    }
    assert(none_word() != end_word()) by {
        assert(none_word()[0] != end_word()[0]);
    }
}

/// A client that reads no messages in its state refuses every one.
pub proof fn lemma_not_reading(c: Client, w: Seq<Seq<char>>)
    requires
        c.state == ClientState::Start || c.state == ClientState::MyMove || c.state
            == ClientState::End,
    ensures
        received(c, w) == Err::<(Client, Report), ProtocolError>(ProtocolError::NotReading),
{
}

} // verus!
