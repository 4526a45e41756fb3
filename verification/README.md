# Wood Cutter

A 2D rectangular nesting optimiser: it cuts a list of rectangular pieces
out of as few boards of a given size as it can, and shows the result step
by step in a desktop window.

## Layout

- `src/` is the verified library. Lengths are integers: the application
  counts thousandths of a millimetre, up to `MAX_LEN` (about 2.1 km); any
  longer length, infinity included, is read as `TOO_LONG`, so a shape that
  long fits on no board and is set aside.
  - `geometry`, `model`: rectangles, shapes, placements, boards, and what a
    valid layout is (pieces on the board, no two overlapping).
  - `maxrects`, `guillotine`, `bottom_left`, `nfp_greedy`: the single-board
    packers. Each is proved to place or hand back every shape and to give
    a valid layout (the no-fit-polygon packer when its collision test is
    sound); the first three are specified exactly (`run`, `select`), the
    last given the collision test's answers.
  - `packing`, `order`: packing board after board, largest shape first.
  - `fitness`: the score of a packing, kept as an exact fraction.
  - `perm`, `search`, `genetic`, `annealing`, `svgnest`, `random`: the
    searches over the packing order, with their random choices drawn from
    `rand`. Each search also hands back, as ghost data, the orders it
    evaluated (for the annealer, the walk it took); its history and result
    are proved to be the best among them.
  - `steps`: the cutting walk-through and moving through it.
  - `parse`, `import`, `shape_entry`, `shape_list`, `algo_id`,
    `stat_cell`: reading what the user types or imports, and the texts of
    the interface.
- `tests/`: tests of the library on concrete values.
- `app/`: the `eframe` window, the threads that run the searches, the
  floating-point parts (the no-fit-polygon collision test with `geo` and
  `nfp`, the annealing temperature, the SVGNest score, the figures shown
  on screen).

The interface looks for its CJK font at
`assets/SourceHanSerifCN-Regular-1.otf` next to the program.
