# reversi_engine

A Reversi engine on 64-bit bitboards, verified with Verus.

- `src/bits.rs` — the bit-level model: squares of a bitboard, board geometry
  (directions, rays), disc counts, and the lemmas tying machine words to them.
- `src/board.rs` — board state, shifts that never wrap around an edge, legal move
  generation (proved equal to "an empty square that traps at least one opposing
  disc"), move application (proved to turn over exactly the trapped lines), passing,
  game over, coordinates.
- `src/eval.rs` — the phase-dependent evaluation, stated as a formula over mobility,
  corners, corner-adjacent squares, stable discs and disc difference.
- `src/minimax.rs` — the game-tree value a depth-limited negamax search computes, and
  the positions a search meets below its root.
- `src/engine.rs` — negamax with alpha-beta pruning, a transposition table and
  iterative deepening. A search answers as fail-soft alpha-beta does against the
  game-tree value, at every depth, whenever no position is met at two different plies
  (so that a cached score always belongs to the same remaining depth); the table
  entry stored, and the reuse of a cached entry, are stated exactly; the chosen move is
  legal, no legal move is worth more at the searched depth, and ties go to the first
  such move in deepening order. The condition is proved for searches of up to two
  plies and for searches in which no forced pass happens above the last ply; deeper
  searches that pass on the way, which the front ends' depth 7 can reach, are not
  covered by the proof.
- `src/api_logic.rs`, `src/web.rs` — the json responses of the web front ends, the
  turns the AI plays between the human's moves (a trace of passes and moves that
  `best_move` may pick), the parsing and routing of requests and the framing of
  responses.
- `src/game.rs` — the decisions of the terminal game: what a typed line asks for, what
  happens next turn, the drawn board and the result line.
- `src/laws.rs` — properties across operations (moves keep the sides apart, add one
  disc, turn over only trapped discs; evaluation is zero-sum; coordinates round-trip;
  a board rebuilt from its parts, or passed twice, is the same board; the legal-move
  list joins back into the move bitboard; a legal move leaves the next side to move
  fewer discs; searches of one ply, of two plies, or with no forced pass, from a board
  whose sides do not overlap, meet no position twice).
- `app/` — the terminal game, the local web server and the serverless functions.
