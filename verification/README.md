# heatmapping

A transit heat-mapping engine: it reads GTFS timetables, finds the earliest
arrival at every stop from a departure place and time, and draws travel
times as a heat map with a jump flood on the GPU.

- `src/` is the verified library (Verus): the timetable model and how feed
  records enter it (`structs`, `fields`, `feed`, `loading`, `timetable`), culling of
  the connections to a date and time (`culling`), the earliest-arrival
  search with its priority queue (`min_queue`, `search`, `dijkstra`), the
  spatial grid of stops and its GPU arrays (`grid`, `hashing`), the pass
  plan of a rendered frame (`render_plan`) and the decisions of the map
  window (`input`).
- `app/` is the program around it: reading the files' bytes, floating point
  geometry, the window and the GPU.
- `tests/` runs the library on concrete timetables, grids and events.

The WGSL shaders are read at run time from `./shaders/`; feeds are read
from the directories under `./GTFS/`.
