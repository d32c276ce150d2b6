# tetris_rs

The rules of a falling-block puzzle game, proved with Verus, and the
window program that plays it.

- `src/` is the verified library:
  - `pieces` — the seven tetrominoes, their orientations and colours;
  - `board` — the playfield as a grid: where a piece fits, where it lands,
    what clearing full rows leaves;
  - `bag` — the seven-piece randomizer;
  - `game` — the game state and its moves (shift, rotate, gravity, hard
    drop, locking, scoring, the auto-player's moves);
  - `ai` — the board features the auto-player weighs and the placements it
    chooses among;
  - `canvas`, `font` — drawing into a frame buffer;
  - `layout` — where the playfield goes in the window;
  - `laws` — properties that span several operations.
- `app/` is the program: the window and keyboard (minifb), the high-score
  database (rusqlite, chrono), the floating-point weighting of the
  auto-player's evaluation, and the animated background.
- `tests/` runs the library on concrete games and pictures.
