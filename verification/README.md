# chess engine, verified

A UCI chess engine whose rules, notation, evaluation and search live in a
library checked by Verus: the functions in `src/` are verified against their
`requires` / `ensures` contracts, and the properties that span several
functions are stated as proof functions. A handful of small wrappers around
std (the clock, UTF-8 decoding, `String::push`, `size_of`)
are trusted: their contracts restate std's documentation.

## Layout

| Path | What it holds |
| --- | --- |
| `src/types.rs` | colours, pieces, squares, 16-bit packed moves |
| `src/bitboard.rs` | `u64` square sets, shifts, population counts |
| `src/attacks.rs` | leaper and slider attack sets, with their geometry as spec relations; sliders walk their rays to the first blocker (there are no magic tables) |
| `src/position.rs` | the board, make/unmake, null moves, Zobrist hashing |
| `src/fen.rs` | FEN parsing and writing |
| `src/movegen.rs` | pseudo-legal generation, legality filter, UCI move parsing |
| `src/eval.rs` | tapered evaluation and score formatting |
| `src/tt.rs` | transposition table and principal-variation extraction |
| `src/search.rs` | iterative deepening alpha-beta |
| `src/perft.rs` | node counting and per-move divide |
| `src/san.rs` | standard algebraic notation, both directions |
| `src/symmetry.rs` | the board seen from the other side |
| `src/play.rs` | game state and the terminal front-end's commands |
| `src/server.rs` | HTTP request framing and the browser API |
| `src/uci.rs` | UCI command helpers |
| `app/` | `main`, the UCI loop, the terminal and HTTP front-ends, timing and I/O |
| `tests/` | scenario tests |

## What is proved

Besides each function's own contract:

- making a move and unmaking it restores the position (board, clocks,
  rights, hash and history); the same for null moves;
- the incremental hash equals the hash recomputed from scratch;
- move generation is sound and complete for the spec of legal moves, without
  duplicates;
- `perft` counts exactly the legal move sequences, and `divide` splits that
  count by first move;
- writing a position as FEN and reading it back gives the same position;
- reading back the SAN or the UCI text of a legal move gives that move;
- reflecting a position and swapping colours leaves perft counts and the
  static evaluation unchanged;
- a transposition-table probe after a store returns what was stored;
- a search that has a mate in one scores it as a mate: a PV node reaches at
  least the mate score (or its window's upper edge), and the first
  iteration of `think` reports a score of at least `MATE - 1` and stops
  there, unless the table has at some point stored an entry under the
  mated position's key (which only a Zobrist collision can cause, since
  mated positions are never stored) or the search was stopped; when,
  besides, the side to move is not in check and every other move leaves
  the opponent out of check and not evaluated below a mate
  (`mates_or_quiet`), `think` plays a mating move and reports exactly
  `MATE - 1`;
- the transposition table holds the largest power of two of entries that
  fits in the megabytes asked for, and never fewer than 1024.

`app/` is ordinary Rust: it reads and writes, keeps time and runs threads,
and hands the library plain values.
