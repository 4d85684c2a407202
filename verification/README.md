# chess_engine

A chess move generator and a small negamax engine, verified with Verus.

- `src/game/piece.rs`: pieces, colours and move patterns.
- `src/game/board/`: the board and its moves: move generation (`movegen`),
  attacks and checks (`attack`), playing a move (`apply`), the analysis of a
  position with its legal moves and captures (`analysis`), FEN and UCI text
  (`fen`, `fen_read`, `text`) with the proof that FEN text reads back
  (`fen_round_trip`), Zobrist hashing (`zobrist`), and tests of the conditions
  under which each function is free of faults (`safety`).
- `src/engine/`: a material evaluator, the search with its transposition
  table, and the engine that plays on a board.
- `app/`: a demonstration program, and searches whose table helper threads
  fill first.
