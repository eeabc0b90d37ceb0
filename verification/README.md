# swarm_rs

The integer core of a swarm simulation game, verified with Verus: the quad tree navigation
mesh with its pixel cache and cell search, flood fills and region labels, marching squares
contour tracing, maze generation, the fog of war, spawners and resource transfers, behavior
tree timers, and the virtual file system that holds the behavior trees.

Layout:

- `src/` — the verified library. Each module states its operations over spec functions and
  proves them; the laws that relate several operations are public proof functions.
  - `qtree` (with `cache_map`, `qtree`, `adjacency`, `search`): the pixel cache, the quad
    tree built from it and kept consistent with it through updates, the geometry of the
    neighbors it finds (each touches the cell, and in a consistent tree every uniform cell
    touching it is found), and the breadth-first search over its cells that finds paths and
    contours.
  - `dijkstra`: breadth-first flood fill, marking each cell with its distance, and region
    labelling.
  - `marching_squares`: contour tracing over boolean fields.
  - `maze`, `iterative_maze`, `boards`: board generators; `rooms`: the corridor graph of
    the rooms board.
  - `game`, `fog`, `raycast`, `spawner`, `agent`: the game's rules on integers; `raycast`
    clears the fog that an entity sees, with the shadows that obstacles cast.
  - `xor128`: the xorshift generator that board generation draws from.
  - `bt_source`: the check of behavior tree source before it is applied.
  - `tick`: the decisions that close a game tick (clock, team statistics, surviving
    entities, the winner) and the refresh of the quad tree from the entities' boxes.
  - `text`, `vfs`, `shape`, `ui`: small helpers.
- `tests/` — tests run against the compiled library.
- `app/` — ordinary Rust around the library: floating-point geometry and path nodes,
  behavior tree node adapters, the end of a tick on float boxes, and
  file access.
