# chain_chess_lib

The engine of a chain-reaction board game ("chain chess"), verified with Verus.

Players place pieces on their own squares; a square that reaches its threshold
(3, 4 or 5 pieces, or by position under the degrade border) explodes, sending a
piece to each neighbour and taking it over, which can set off further explosions.
A player with no square left is out.

- `src/` — the verified library: board rules and move generation (`board`), the
  chain reaction (`chain`, laws in `chain_laws`), evaluations (`eval`), move
  ordering (`order`), the alpha-beta and principal-variation searches
  (`alphabeta`, `pvs`) and the minimax value the alpha-beta search computes
  (`minimax`), the integer side of the Monte Carlo search: its generator, untried
  moves, playouts and root plan (`mcts`), the rule-based player (`strategy`), turn
  order, plies and first moves (`search`), games between programs and move
  reports (`sim`), self-play games for training records (`selfplay`), the random
  sources, whose seeded draws make a click reproducible (`rng`), opening layouts
  (`setup`), option lists (`text`), the options
  of the strength test (`opts`), record helpers (`records`) and the update check
  (`version`).
- `tests/` — the game's scenarios and further cases.
- `app/` — the program around the library: the learned evaluation (XGBoost), the
  Monte Carlo tree with its floating-point statistics, the JSON commands of the
  web front end, record storage and a strength test between the AI players.
