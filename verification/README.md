# reversi

Othello on 64-bit boards: legal moves, flipping, stone counts, move notation, a
negamax player with a node budget, a two-player terminal game and a client for a
game server.

`src/` is a Verus library. Its contracts describe the bitboard operations on a
model of the board as a grid of squares (a move is legal when it encloses enemy
stones in some direction; playing it turns over exactly the enclosed stones), and
`src/laws.rs` proves how the operations relate, `src/symmetry.rs` that they commute
with mirroring and rotating the board, and `src/search_value.rs` that the search finds
the negamax value. `app/` holds the program around it:
the network client's main loop, reading from the terminal, and printing.
