# alphazero_mcts

The tree-search core of an AlphaZero-style player for Connect Four and
Hnefatafl, verified with Verus.

* `src/connect4.rs` — chips, positions, board states, the legal-move mask.
* `src/con4_play.rs` — the Connect Four board matrix, rewards and training
  examples.
* `src/con4_mcts.rs` — the Connect Four search tree (an arena of nodes):
  expansion, child selection, backpropagation, virtual loss, reuse of the
  tree for the next move; the network's input planes; the values of
  finished games.
* `src/mcts_par.rs` — the Hnefatafl search tree of open and finished-game
  nodes: selection, expansion, backup, the policy counts.
* `src/self_play.rs` — Hnefatafl self-play bookkeeping.
* `app/` — the runtime around the library: the TorchScript network (`tch`),
  random noise and sampling (`rand`, `rv`), worker threads (`threadpool`),
  floating-point statistics, logging, and the interfaces of the game engines.

The trees keep the counts (visits, action counts, virtual losses) and the
structure; the floating-point statistics (priors, values) travel with the
nodes as a payload that the caller computes with. Scores are handed to the
library as order-preserving integer keys, and the library makes the choice
of a move from those keys with verified code. The keys themselves come from
`order_key` in `app/keys.rs`, which reads the bits of an `f32` and is not
verified: the choice is right as far as that mapping keeps the order of the
scores.
