# filler

A bot for the Filler game, verified with Verus. The engine sends the board
("Anfield") and a piece each turn; the bot answers with the column and row
where the piece's top-left corner goes.

- `src/` is the verified library:
  - `input.rs`: reading the engine's text (headers, board rows, piece rows,
    whitespace, decimal numbers, UTF-8 byte offsets) and its errors;
  - `contestant.rs`: the two players and their symbols;
  - `grid_matrix.rs`: grids of cells, their text form, and the row-major sums
    that the contracts use;
  - `pitch.rs`, `object.rs`: the board and the pieces, with the trimming of a
    piece's empty edges;
  - `tactics.rs`: the scoring strategies (chasing the opponent, enclosing its
    cells, filling gaps) and the choice of the best move;
  - `game_analysis.rs`: placement validation and the move for a piece, with the
    laws that the chosen move is a legal placement, lies on the board and has
    the top score;
  - `session.rs`: the decisions between the engine's messages: the first
    board starts the game, and a piece that comes before any board is
    answered `0 0`.
- `app/main.rs` reads stdin, drives the library and prints the answers.
- `tests/` holds the unit tests.
