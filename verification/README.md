# fdgm

A rule engine and search for 5D Chess with Multiverse Time Travel, written in Verus.
The library's functions carry contracts that Verus proves; the few small functions
that only call the standard library (the clock, `Arc::make_mut`, collecting a
`String`) are trusted.

## Layout

- `src/types.rs`, `src/board.rs`, `src/moves.rs`: colours, pieces, coordinates,
  single boards and moves.
- `src/multiverse.rs`: timelines, the multiverse, the activation rule, the present,
  draw rules and the text picture of a position.
- `src/geometry.rs`, `src/attack.rs`: direction tables and attack detection across
  boards, times and timelines.
- `src/movegen.rs`, `src/apply.rs`, `src/legal.rs`: pseudo-legal moves, making moves
  and turns, and the legal turn plans.
- `src/eval.rs`, `src/zobrist.rs`: static evaluation and position hashing.
- `src/search.rs`: iterative-deepening alpha-beta search with a transposition table.
- `src/notation.rs`, `src/text.rs`: printing and reading coordinates, moves and turns.
- `src/game.rs`, `src/perft.rs`: game status and move-path counting.
- `tests/`: the behaviour on concrete positions.
- `app/`: the command line (`bestmove`, `selfplay`, `play`, `show`, `perft`).
