# rangemap (verified)

Range maps from `u32` keys to `i32` values, with the property functions
that check their promises, verified with Verus.

- `src/segment_map.rs`: the core map, a canonical list of half-open `u64`
  segments (sorted, disjoint, coalesced), with `insert`, the overlapping
  queries in both directions, and the proof that the canonical list is
  determined by the values it gives.
- `src/range_map.rs`, `src/inclusive_map.rs`: `RangeMap` over half-open
  ranges and `RangeInclusiveMap` over inclusive ranges, built on the core
  map, with their laws (canonical form, coalescing, what the stored ranges
  say of the map).
- `src/map_eq.rs`: `==` on the two maps and its laws.
- `src/etna.rs`: the property functions and their verdicts.
- `src/witness.rs`, `src/inputs.rs`, `src/metrics.rs`, `src/json.rs`,
  `src/text.rs`: the witness inputs, the arithmetic that turns random draws
  into inputs, run measurements, JSON quoting (with the proof that it can be
  undone) and the drivers' report line, and how messages write numbers and
  ranges.
- `app/`: the driver program that runs the properties under proptest,
  quickcheck, crabcheck and hegel and prints one JSON line per run.
