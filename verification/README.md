# sim_core

The mobility logic of a city simulation, verified with Verus: level-of-detail
classification of chunks, chunk subscriptions and population bookkeeping,
activity plans and the boarding/alighting of transit riders, route choice on
a routing graph and route following, wandering, seeding of pedestrians and
cars from an authored network, per-chunk deltas, the legacy transit shim,
snapshot stores, the rebuilding of the routing graph from a persisted
snapshot, and the monthly population step (due months, deaths, births).

## Layout

- `src/` — the verified library. Each module states its contracts over
  mathematical views (`Seq`, `Set`, `Map`) and proves them; the public proof
  functions (`lemma_*`) state the laws the library keeps across calls.
- `tests/` — tests on concrete values, run against the compiled library.
- `app/` — the host side that Verus does not see: floating-point geometry and
  demography, serialisable copies of the records, async store interfaces,
  seeding from float coordinates, and the ECS resources with the systems
  wired so far (tick, population bookkeeping, chunk classification with
  warm-to-active promotion), and the driver of the monthly population step
  (`population::population_monthly_step`, which draws and hands the draws to
  the library). Route assignment and following, boarding, vehicles, deltas
  and snapshots are library functions that no app system calls yet.
