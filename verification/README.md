# water_sort

A verified library for an automatic player of water-sort puzzles, written in
Verus, with a thin program around it.

- `src/` holds the game logic, each function with a contract that Verus
  proves: bottles and the pouring rules (`bottle`, `rules`), the best-first
  move search with its estimate and state keys (`solver`, `estimate`,
  `reach`), the discovery of hidden and mystery colours (`discovery`), the
  player's state machine (`player`, `autoplay`), bottle layouts, detection
  decisions on plain values, notation, replays, and the classic game
  (`classic`).
- `tests/` runs the library on concrete levels.
- `app/` is ordinary Rust: the command line, screen capture and device
  control, OpenCV image handling and drawing, which hand plain values to the
  library and carry out what it decides.

What the search promises, in short: every sequence it returns is allowed and
reaches its goal; when it returns none it has explored every level it can
reach; on a plain level (no mystery marks, no hidden bottle holding
anything) "none" means no sequence exists, and a full solution it returns is
a shortest one.
