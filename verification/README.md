# chess_mcts

A chess engine that chooses its moves by Monte Carlo tree search, with a game
clock and the rules that end a game.

- `src/clock.rs`: the clock; times are held in nanoseconds and saturate as
  `std::time::Duration` does.
- `src/board.rs`: a chess position backed by the `pleco` move generator. Its
  view is the setup it came from and the moves played since; what `pleco`
  computes of a position is named as a function of that view.
- `src/enginemove.rs`: the search tree (an arena of nodes linked by index),
  expansion, random playouts and their scoring, back-propagation of results,
  and the choice of the most simulated move.
- `src/game.rs`: mate, stalemate, threefold repetition, insufficient material
  and fallen flags.
- `app/main.rs`: the terminal game, the timing of moves, and the selection of
  the child to descend to, whose confidence bound is computed in floating
  point.

`src/` is verified with Verus; `tests/` exercise it with the real `pleco` and
`rand` crates.
