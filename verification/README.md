# rust_solver

The core of a postflop poker solver, written in Verus: every function in
`src/` carries a `requires`/`ensures` contract that Verus proves.

Layout:

- `src/deck.rs`: card encoding (`4 * rank + suit`) and card-mask helpers.
- `src/hand_indexer.rs`: suit-isomorphic hand indexing (configuration and
  rank-set tables, `get_index`, `get_hand`); the table sizes are proved to
  equal their combinatorial counts, and `get_hand` to write a valid hand.
- `src/actions.rs`, `src/state.rs`: betting actions and the game-state
  machine (chip conservation, turn order, street transitions).
- `src/infoset.rs`: regret and strategy-sum storage with sparse rows, and
  building a tree's table from each round's bucket counts.
- `src/range_parse.rs`, `src/hand_range.rs`, `src/text.rs`: range strings
  and hole-card parsing.
- `src/deal.rs`: boards, dealt-card masks, hole-card combinations and
  random deals (through `rand`).
- `src/tree.rs`, `src/nodes.rs`: the game-tree arena and its node kinds.
- `src/python_api.rs`, `src/kk_turn.rs`, `src/constants.rs`: turn-card
  listing and sampling, and the fixed scenario parameters.
- `app/`: ordinary Rust around the library: floating-point strategy
  arithmetic, error display, the JSON convergence log and pinning a tree.
- `tests/`: the test suite.
