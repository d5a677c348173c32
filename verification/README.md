# parks

A generator, solver and play engine for "Parks" puzzles (a star-battle
variant): an `n x n` board is cut into `n` regions, and a solution places one
tree in every row, every column and every region, with no two trees touching,
not even diagonally.

The library under `src/` is verified with Verus:

- `rng` — the splitmix64 generator, ranges and Fisher–Yates shuffling;
- `bitset`, `bits`, `neighbors`, `grid` — 1024-bit cell sets and neighbour masks;
- `trees` — random tree placements by backtracking;
- `puzzle`, `solver` — what a solution is, and the search that counts and lists solutions;
- `connectivity`, `unionfind` — region connectivity by breadth-first walk and by union-find;
- `polyomino`, `gadget` — growing the regions around the trees;
- `generator` — ordering the trees of an attempt and accepting a board with a unique solution;
- `play` — marking cells, drags, releases, undo and redo while playing a level;
- `ansi`, `difficulty` — terminal colours and difficulty names.

`app/main.rs` is the command-line program: it runs the timed generation loop
(including the floating-point ordering of trees from an edge) and prints the
board.
