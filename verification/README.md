# chess_engine

A negamax chess engine with alpha-beta pruning and a transposition table.
Move generation comes from the `chess` crate; the rest of the machinery
carries contracts, with proofs that the code meets them.

Layout:

- `src/types.rs`: colours, pieces, moves and the table's bound flags.
- `src/bits.rs`: bitboards as `u64` and the facts about their bits.
- `src/board.rs`: the `chess::Board` type and the few calls made into the
  `chess` crate, each with the contract it is trusted to meet.
- `src/moveiterator.rs`: the ordered move iterator (entries as the move
  generator keeps them, en passant captures apart; phases by mask, a
  table move first, promotions expanded); `src/iterator_laws.rs` states
  what each step keeps and produces, and `src/iterator_run.rs` what a
  whole run of `next` produces.
- `src/search.rs`: the search's rules that do not depend on scores: move
  ordering, child depths, what a table entry permits, bound flags, table
  upkeep within its capacity.
- `src/pgn.rs`: writing a move as PGN text, replaying a PGN game, and
  reading a written game back.
- `src/log.rs`: the text of a benchmark log entry.
- `app/`: the program: the score-driven search (floating point), the
  benchmark loop, and the log file.
