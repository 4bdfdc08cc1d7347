# tetris_ai

Tetris models and bots, with their rules proved by Verus.

- `src/common`: the shared model — piece tables (`computed`), pieces with
  wall kicks, a bit-row board, the game and its moves, a functional reading
  of the moves (`play`), the picture of a game (`render`), JSON requests
  (`json`) and the hard-dropping bot (`ai`).
- `src/rusty`: a compact model for a searching bot — a board that drops a
  piece column-wise and can take the drop back, a game with a ring-buffer
  queue, the list of every placement of a piece (`ai`), and the integer part
  of the weight trainer (`trainer`).
- `src/c4w`: the center-four-wide bot — its own piece model, the bot's state
  of a game, transition tables grown from seed states and pruned until every
  listed state is reached from the seed and leads back to it, and the depth
  search over them.
- `src/pc_finder.rs`: a perfect-clear finder over every placement sequence.
- `src/api.rs`: the request and move types of the bot interface.
- `app/`: the programs — JSON loops over standard input, watching a bot play,
  the genetic trainer of the floating-point weights, the threads it uses,
  and the interactive perfect-clear finder.

The tests under `tests/` run the library on concrete games.
