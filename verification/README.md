# tui48

2048 in the terminal.

- `src/` is the library, verified with Verus:
  - `engine`: rounds of the game, how a shift slides and merges tiles and where a new tile
    appears, and the board that keeps the rounds played;
  - `round`: a simpler round, whose shift leaves gaps after merges;
  - `random`: the random choices, made by `rand`;
  - `tui`: geometry, tuxels, a canvas of stacked layers on which draw buffers own cells,
    draw buffers and text buffers, and the events of the terminal;
  - `tui48`: the board as the terminal shows it, the animation of a shift, and the state of
    the game between the events of the terminal.
- `app/` is the program: it reads the terminal's events and size (crossterm), renders the
  canvas, computes the tile colors (palette), parses the command line (clap) and logs (fern).
- `tests/` runs the library.
