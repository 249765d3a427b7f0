# game2048

The rules of a 2048 game, with 4x4 and 6x6 boards, verified with Verus, and
the screens of the game around them.

- `src/line.rs`: one line of the board pushed towards its front (tiles move
  up, equal neighbours merge pairwise, a merged tile does not merge again),
  proved against its mathematical definition; sums and settled lines.
- `src/game_field.rs`: the board, the four moves, the test for a possible
  move, the score, new tiles, and the saved game (`Field`).
- `src/board_laws.rs`: laws of the board: a move keeps the sum of the tiles,
  a new tile adds 2, and no move is possible exactly when the board is empty
  or full with no two equal tiles side by side.
- `src/leader.rs`: the leader boards, kept sorted by score.
- `src/screens.rs`, `src/game.rs`: what every screen does with an event,
  including a turn of the game and a random game.
- `app/`: the screens themselves on the `amethyst` engine, the music, and the
  save files in RON; every decision is taken by the library.
