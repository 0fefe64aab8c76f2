# core_engine

The engine of an abstract two-player board game on an 8x8 board, verified with Verus.

A player moves one piece per turn, either by jumping diagonally over an unbroken chain of its
own pieces or by swinging around an orthogonally adjacent friendly piece (90, 180 or 270
degrees, through free squares). Landing on an enemy piece captures it. A player with no legal
move has lost.

## Layout

- `src/` — the verified library.
  - `bitboard`, `moves`, `movegen`, `move_utils`, `state`: board words, moves, the movement
    rules and the position with make/unmake.
  - `luts`, `heuristics`, `evaluators`: precomputed tables, feature extraction and the
    evaluators (dot products over the feature tensor, a simple heuristic).
  - `score`, `score_order`, `tt`, `search`, `negamax`, `progress`, `telemetry`,
    `controllers`: scores and their order, the transposition table, the negamax search as a
    recursive function and as a step-by-step state machine, and the fixed-depth and iterative
    deepening drivers.
  - `agents`, `simulation`: move selection and self-play bookkeeping.
  - `session`: the rules of the interactive board (selection, clicks, keys, sandbox editing).
  - `bindings`, `text`, `weights_file`: the requests of the web front end, text drawings of
    boards and scores, and the framing of NumPy weight files.
- `tests/` — tests of the library.
- `app/` — the terminal program: drawing with ratatui, keyboard input, threads, clocks,
  random and temperature-based move choice, parallel self-play, weight files on disk, the
  conversion of the web front end's JavaScript values, and the Python training module.
