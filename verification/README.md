# poisson_disk

Density-driven Poisson-disk stippling of images, with a verified core.

- `src/` — the library, with machine-checked contracts and proofs: the integer GIF timing
  (`config`), the spatial grid used for collision lookups (`density`), the
  samplers' cell order, attempt decisions and active list (`sampler`), and the frame
  plan, stippling canvas and Voronoi flooding and colouring (`renderer`).
- `app/` — the command-line program: argument parsing, image I/O, the
  floating-point density map and candidate geometry, PNG and GIF output.
- `tests/` — tests of the library's public functions.
