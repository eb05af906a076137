# daygames

The rules of seven small games, written in Verus with their behaviour stated in
contracts and proved: Block Blast, Pipes, Match Three, Klondike Solitaire,
Minesweeper, Sudoku and Reversi.

## Layout

- `src/` is the verified library, one module per game:
  - `blockblast.rs`: the board, placing pieces, clearing lines, dealing trays and the
    search that decides whether a tray can still be placed.
  - `pipes.rs`: the seeded maze that makes a puzzle, scrambling, turning, locking and the
    check that the water reaches every tile.
  - `matchthree.rs`: the stages, dealing boards without lines, swaps with their full
    resolution (bursts, specials, frosting, falls, refills) and the stars a level keeps.
  - `solitaire.rs`: the table and its moves, scoring and undo, the save text, the seeded
    deal, the search that proves a deal winnable and the replay that confirms it.
  - `mines.rs`, `sudoku.rs`, `reversi.rs`: the other three games, with the sudoku
    generator and the reversi computer player.
  - `tally.rs`, `text.rs`, `xorshift.rs`: small shared pieces.
- `tests/` holds the tests, one file per game.
- `app/` is the ordinary Rust around the library: the hosts that drive each game from a
  frame clock and gestures, and saving games as JSON.

Every game draws its randomness from a seed, so a seed always gives the same deal,
board or puzzle. For the solitaire deal, the match-three board, the sudoku puzzle, the
pipes maze and the minesweeper layout the contracts say which one.
