# quack_nav

Where the duck is, and how it gets somewhere else: the occupancy map it
receives, the planner that finds frontiers and routes over that map, and
the small decisions of the navigation daemon — proved with Verus.

## Layout

- `src/` — the verified library.
  - `map.rs`: the map frame's cells (base64, trinary grid) and the status
    a map lane keeps (frames, epoch, whether the pose is trusted).
  - `wire.rs`: the map library's vocabulary: map names, saved maps in
    name order, base64 writing.
  - `frontier.rs`, `queue.rs`, `clearance.rs`, `grid_index.rs`: the
    costmap, the cheapest-path search, frontier cells and their groups,
    the start cell, and each cell's distance to the nearest wall.
  - `mapd.rs`: the hosted mapper's decisions (head sweep, body verdicts,
    depth zones, pairing a frame with its odometry sample, frames that
    wait).
  - `explore.rs`, `homecoming.rs`, `cliff.rs`, `config.rs`, `words.rs`:
    the explorer's rules that count (distrust, slivers, modes), the
    trusted floor, the homecoming's adoption rule, configuration choices.
- `tests/` — tests of the library on concrete values.
- `app/` — the daemon around it: configuration files, sockets, threads,
  and the geometry in metres and radians.
