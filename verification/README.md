# robot_sim

A resource-collection simulation on a grid: scouts explore the map and report
deposits and obstacles, collectors fetch deposits one unit at a time and carry
them back to the central base, which aggregates everything the robots report.

- `src/` is the library, verified with Verus:
  - `map` — tiles, map generation from a relief (base at the centre, a cleared
    square around it, deposit top-up), walkability;
  - `base` — how the base takes in robot reports;
  - `robot/path` — moves, routes and reachability;
  - `robot/collector` — breadth-first search (a shortest route whenever one
    exists, the first in the order down, up, right, left) and the collector's
    state machine, with the laws that units are conserved, kind by kind, and
    that no two collectors work on the same deposit. The search keeps its
    links in a grid of parents shaped like the map and its queue in a `Vec`
    read from a head index: Verus specifies `Vec` fully, while a map keyed by
    positions and a double-ended queue would leave the proof of the search
    without a model of their contents;
  - `robot/scout` and `robot` — the explorers;
  - `ui` — what each cell shows.
- `app/` is the terminal program around it: Perlin-noise relief (floating
  point), threads, the message channel, and drawing with ratatui.
- `tests/` exercises the library on concrete maps.
