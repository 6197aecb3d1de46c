# pixel_agents

Little pixel people in a 16x12 office, drawn in the terminal with the Kitty
graphics protocol, one per active agent transcript. Each agent follows a state
machine driven by the tool calls it makes; agents walk between desks along
shortest paths.

The library under `src/` is verified with Verus:

- `agent`: the agent state machine (`transition`) and its laws;
- `grid`: the default office and breadth-first path search, proved to find a
  shortest walk exactly when one exists;
- `path_order`: which shortest walk the search returns (the first in move
  order), and the symmetry of path lengths;
- `transcript`: the events a JSON transcript line carries;
- `watcher`: incremental reading of a transcript (complete lines only) and the
  path check;
- `pixels`, `sprites`, `scene`: RGBA images, agent sprites and the composited
  office, each pixel stated;
- `renderer`: the escape sequences of a frame, chunked at 4096 bytes;
- `office`: the decisions of the main loop (desks, walking, side effects,
  keys, timers, the status line);
- `roster`: the agents in the office with the desks they hold, kept matched.

`app/` is the program around it: command line, terminal setup, the clock, file
scanning and reading, and colours computed in floating point.
