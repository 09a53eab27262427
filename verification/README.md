# coop_tetris

The game logic of a cooperative, multiplayer Tetris server, verified with Verus,
and the websocket server around it.

- `src/` — the verified library:
  - `piece_state`, `input`: pieces, board squares and player input;
  - `shapes`: the seven tetrominoes and reading them in any rotation;
  - `board`: the fallen blocks, a map from board squares to shapes;
  - `tetris`: collisions with the board, fallen blocks and other pieces,
    applying input with wall kicks, and clearing full rows;
  - `game`: the bag queue of pieces, dropping, freezing and spawning pieces,
    the waiting queue of players, and the end of a game;
  - `frame`: one frame of the game;
  - `connection`: the decisions about a client's connection (pings and
    disconnection);
  - `rng`: the calls into `rand` that shuffle a bag;
  - `laws`: properties of the game stated and proved over several functions.
- `tests/` — tests of the library.
- `app/` — the server: websocket handling, JSON, the clock, the drop speed
  (computed in floating point) and the frame loop.
