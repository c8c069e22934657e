# hypervolume

The hypervolume indicator of a set of points (maximisation) with respect to a reference
point, computed by the WFG recursion, serially and with its top levels spread over rayon's
thread pool, together with the point-set generators used to exercise it.

Coordinates are `i64`; values are exact `i128` integers. For points that dominate the
reference point the value is the number of unit lattice cells covered by the boxes
`[r, p)`, which Verus proves of the recursion.

- `src/point.rs`: dominance, the non-dominated filter, limiting a set by a point, box volumes.
- `src/measure.rs`: sums over lattice grids, cube counts, and the hypervolume as a cell count.
- `src/wfg.rs`: the recursion, its two-dimensional sweep, its range conditions, and the proof
  that it computes the hypervolume.
- `src/par.rs`: the recursion with parallel top levels (the one call into rayon).
- `src/input.rs`: a test of the conditions the computations need.
- `src/rng.rs`: the linear congruential generator and its Fisher-Yates shuffle.
- `src/hypervolume_random.rs`, `src/hypervolume_worst_case.rs`: the entry points and the
  structured random and cyclic point sets.
- `app/`: the timing runs, tables and plots.
