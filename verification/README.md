# chess

A chess engine on bitboards, written in Verus: the rules of the game, move
generation, evaluation and the searches that pick a move are proved against
their specifications. A search may stop at its deadline, which no
specification can foresee; what it returns otherwise is specified, including
the order it tries the moves in (among moves of equal ordering score, any)
and how deep it searches each.

## Layout

- `src/` — the verified library.
  - `bits`, `types`, `bitboards`, `attacks`, `zobrist`: boards as 64-bit
    sets, pieces and moves, attack patterns, hashing.
  - `position`, `movegen`: making and taking back moves, check, and the legal
    moves of a position (pseudo-legal moves that leave the king safe).
  - `game`: a game with its history, repetition counts and result
    (checkmate, stalemate, threefold repetition, fifty moves, insufficient
    material); `perft` counts move paths.
  - `fen`, `text`, `validate`: reading and writing FEN, and deciding before a
    call whether a text or a position is one the engine accepts.
  - `eval`, `pst`, `see`: material, piece-square tables, pawn structure,
    king proximity, and static exchange evaluation.
  - `search`, `bot`: the engine's player (alpha-beta with iterative
    deepening, aspiration windows, a transposition table, null-move pruning,
    late-move reductions, killer and history ordering, quiescence search).
  - `gauntlet`: the earlier players, from a random mover to a quiescence
    search, kept to compare strength.
  - `uci`, `cli`, `web`, `book`: what the front ends compute — UCI command
    values and move notation, the terminal board, the browser's questions
    about a game, and the opening book format.
- `tests/` — tests run against the compiled library.
- `app/` — the programs: a UCI engine, a terminal game, the gauntlet players,
  and the browser bindings. The opening book's text is read from the file
  named by the `CHESS_BOOK` environment variable.
