# tipe_project

Building blocks for shortest-path planning, written in Verus with their contracts proved.

- `datastructures`: a binary-heap priority queue, a union-find with path compression and union
  by height, and arena-backed lists of intervals with cursors that insert, remove, split and
  join.
- `graphs`: the `Graph` and `IterableGraph` interfaces; adjacency-list graphs (`LinkGraph`,
  `MapGraph`), graphs given by a function (`FuncGraph`, `CachedFuncGraph`), filtered graphs
  (`SubGraph`), path graphs on ranges, `N`-dimensional grids, parent trees, and
  `dijkstra_with`, a cheapest-first search with optional shortcuts.
- `geometry`: fixed-size vectors (`VecN`), the shared geometric traits, and the integer part of
  square polygon maps: merging cells from random draws without closing a loop
  (`merge_square_cells`) and walking the outline of each group of cells (`square_map_outlines`).
- `framework`, `parallel`, `path_planning`: the plain settings and small types used by the
  planners.

`app/` is a small driver that runs a grid search, draws the random merges and corner
coordinates of a polygon map, and holds the parts that need a process-wide counter or outside
derives.
