# settlers_mcts

A verified library for a small settlement-building board game and its
random-playout engine, written in Verus.

- `src/text.rs`: whitespace splitting, trimming and number parsing on chars.
- `src/reader.rs`: the board description (hex lines, ports, dice rolls) read
  into a graph; every error is stated exactly.
- `src/blueprint.rs`: the blueprint form of the board (zones and corners).
- `src/edges.rs`: numbering of the board's edges.
- `src/rules.rs`, `src/network.rs`: the game rules as spec functions, and the
  laws proved of them (what a move changes, what the move list holds).
- `src/mcts.rs`: game state, legal move generation, move application,
  weighted random playouts and the search tree.
- `src/fifo.rs`, `src/rng.rs`: trusted wrappers over the `queues` and
  `fastrand` crates.
- `app/`: the command-line program (reading the board file, printing).
