# Order batching with set-based particle swarm optimization

A library for the order batching problem, verified with Verus, and the
programs around it.

- `src/` is the verified library:
  - `text`, `number`, `parse`, `entries`, `problem`: the instance format
    (`o i a`, the order lines, the aisle lines, `lb ub`), read into a
    `Problem`, and the greedy choice of orders for a supply of items
    (`Problem::add_orders`);
  - `seeds`: the seeds file of the benchmark;
  - `supply`: what a set of aisles offers of each item;
  - `methods::sbpso`: positions and velocities of set-based particle swarm
    optimization, the tournament that adds aisles, and the random sampling
    that the method draws its moves with;
  - `laws`: properties that hold across these operations.
- `app/` holds what is left: reading files, the floating-point parts of the
  swarm (coefficients, objectives, their comparisons), the benchmark
  statistics, the CSV output and the command lines.
- `tests/` runs the library on concrete values.
