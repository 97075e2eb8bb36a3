# quintara

A Gomoku (five in a row) engine library whose rules, match arbiter, bots
and protocol codecs are specified with `requires` / `ensures` contracts and
proved with Verus.

## Layout

- `src/` — the verified library.
  - `model/` — board, positions, coordinates and notation, rule sets,
    terminations, turn context.
  - `game.rs`, `rules.rs`, `renju.rs` — legal moves, move application,
    win detection under each win rule, and renju fouls for black.
  - `arbiter/` — the match state machine (start, submit, resign, rewind,
    abort), failure policies, the decisions of the match conductor, and
    the seats and score of a series of games.
  - `onyx/`, `titan/`, `sage/`, `greedy.rs`, `aegis.rs`, `random.rs` — the
    bots: threat search (VCF / VCT), alpha-beta search on incremental
    boards, pattern evaluation.
  - `bot/` — the bot interface, the Gomocup brain protocol codec and the
    brain's command handling.
  - `opening.rs`, `mobile.rs`, `cli.rs` — opening presets, the phone
    session view and its transfer values, and the command line's text
    helpers.
  - `screen.rs` — what the interactive board shows as the match's events
    come in, and what each event asks of the clocks.
- `tests/` — tests run against the compiled library.
- `app/` — the command-line program: the match conductor loop, external
  engine processes, the Gomocup brain on stdio, the interactive board, and
  the phone session with JSON transfer values.
