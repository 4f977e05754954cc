# Warhorse

A chess engine whose rules, move generation, evaluation and search bookkeeping are a
Verus-verified library, with a thin command-line program around it.

## Layout

- `src/` — the verified library (`warhorse`):
  - `board`, `attacks`, `zobrist`: squares, pieces, move encoding, attack detection, hash keys.
  - `position`: the position model, making and unmaking moves and null moves with exact
    incremental hash and evaluation sums.
  - `movegen`, `perft`, `safety`: pseudo-legal and legal move generation (sound, complete,
    no repeats, in a fixed order), leaf counting of the legal move tree, and the law that a
    legal move never leaves the mover's king attacked.
  - `text`, `notation`, `fen`, `fen_roundtrip`: square and move names, UCI move parsing,
    reading and writing FEN, with their read-back laws.
  - `material`, `eval`: draw material, static exchange evaluation, the evaluation function.
  - `tt`, `clock`, `search`: transposition table, clock and stop flag, alpha-beta search, whose
    values (quiescence, negamax, root, iterative deepening) are stated exactly by spec functions
    over the tables the search reads and writes.
  - `book`, `protocol`, `uci`, `web`: opening book, UCI commands, the web front end's answers.
- `tests/` — tests of the library.
- `app/` — the program: UCI loop on standard input, perft, self-test, benchmark, self-play
  and web commands.
