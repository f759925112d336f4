# Angelika

A chess engine whose library is verified with Verus.

- `src/` is the library. Squares, pieces and bitboards; attack sets of every piece, with magic
  bitboards for the sliders proved to give the same squares as walking the rays; positions
  with FEN reading and writing (reading back what is written gives the position), making
  moves, and generating the pseudo-legal moves with an exact specification; material
  evaluation; perft; and an alpha-beta search proved to return the negamax value unless it is
  stopped, also on positions whose bitboards disagree with the board.
- `app/` is the program around it: the UCI loop on standard input and output, the search
  thread and its timer, and `perft <fen> <depth>`.
- `tests/` holds the tests of the library.
