# tso_engine

The discrete core of the TSO engine, with its behaviour stated in Verus
contracts and proved.

- `src/` — the verified library:
  - `episodic` — episodic sequence memory (store, recall by longest overlap,
    remapping of concept ids) and the sliding context window;
  - `tso_core` — conflict kinds, repair moves and their numbering, and the
    greedy batch of independent violated edges;
  - `topology` — the conflict graph's edges, pair lookup table and incidence
    lists: adding, removing, decaying, filtering edges, neighbourhoods;
  - `grid_world` — flood fill, breadth-first distances, the whisker maze and
    its random generation and repair;
  - `environment` — the 5×5 water world's moves and episode rules;
  - `grid_cells` — exact grid-cell ids;
  - `fpi` — inference settings;
  - `chance` — the random draws, from `rand`.
- `app/` — ordinary Rust around it: everything computed in floating point
  (node embeddings, the tension Φ, the critic, annealed resolution, perception
  and rewards, active inference, attention, attractors, drives), the PNG
  renderer and serialisable copies of the plain types.
- `tests/` — tests of the library.
