# genetic_logic

Verified building blocks of a set of evolutionary logic experiments:

- `ops`, `grid`, `components`: 4-bit truth-table gate cells on a toroidal
  grid, jump wires, the step semantics with forced inputs, and the harness
  circuits (half adder, SR latch, shift register, jump chain, full adder).
- `gate`, `gate_multi`, `gate_universal`, `dag`: feed-forward gate networks
  (bit-parallel, multi-output, and 4-bit-table nodes), their evaluation,
  active-node marking, compaction, merging, mutation and serialization.
- `tasks`, `evolve`, `islands`, `frontier`: fitness functions (adder,
  constant, pi digits, quine), the (1 + N) strategy, the island search and
  the frontier selection of the image search.
- `inputs`, `targets`, `gpu_pack`: bit-sliced pixel coordinates, target
  images, and the word layouts handed to a compute device.
- `quine_grid`, `quine16`: organisms on a 16x16 grid, their tracing,
  simulation and self-description scores.
- `universe`, `life`: the per-frame schedules and censuses of the two-layer
  universes.
- `threshold`: how many inputs a self-describing network of `n` nodes needs.
- `shapes`: pixel classes and errors of the image search.
- `elements`: element data of the semiconductor model.

`src/` is verified with Verus; `tests/` runs it; `app/` is a command-line
front end (`components`, `analyze`, `adder`, `constant`, `pi`, `quine`,
`targets`, `universe`, `life`, `threshold`).
