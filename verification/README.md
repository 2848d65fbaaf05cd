# Zugzwang

A chess engine whose rules, search and notation are verified with Verus.

- `src/` is the library. Each function carries a contract over a
  mathematical model of the position (`Board::at`, `pseudo_legal`, `legal`,
  `value`, `fen_text`, ...), and Verus proves the code against it.
  - `board`, `moves`, `square`, `types`: the position and `make_move`.
  - `movegen`: attacks, pseudo-legal and legal moves in generation order,
    `find_uci_move`, `perft`.
  - `position`: which positions are sound, and the proof that a legal move
    keeps a position sound.
  - `eval`, `pst`: material and piece-square evaluation, with the proof that
    swapping colors negates it.
  - `ordering`, `killers`, `history`: move ordering for the search.
  - `search`: quiescence, fail-soft negamax with alpha-beta, root search and
    iterative deepening, proved against the negamax value of the position,
    on every position whose reachable positions can be played.
  - `fen`: reading and writing FEN, with the proof that reading what was
    written gives the position back.
  - `zobrist`, `tt`: position hashing and the transposition table.
  - `play`: the pure logic of terminal play.
  - `uci`: reading UCI commands: `position` set-up and `go` time budgets.
  - `text`: splitting, decimal numbers and the one trusted string append.
- `app/` is the program: printing the board, the UCI loop, `perft` and
  interactive play. It checks each library precondition before a call.
- `tests/` runs the library on concrete positions.
