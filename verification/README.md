# origin-ir, verified

A sort-native intermediate representation. Every value is `Origin`,
`Container(x)` or `Contents(x)`; every IR instruction carries a sort that the
passes resolve.

- `src/val.rs`, `src/ops.rs`: sorted values and the operations on them. Each
  operation states, for every sort combination, what it returns.
- `src/ir.rs`: the IR (instructions in SSA form, programs, sort counts).
- `src/pass_resolve.rs`: static sort resolution, with its laws (one pass
  suffices in SSA order, resolved sorts are kept, the pass is the unique
  locally consistent assignment, origin only comes from origin).
- `src/pass_fold.rs`: origin folding, a worklist search proved to mark
  exactly the instructions that depend on an origin value.
- `src/bench_*.rs`: the four benchmarks (transformer, Cramer's rule,
  projectile simulation, stb_image gamma bug); their builders state the
  graph they build, and their results are proved to be the published
  numbers.
- `app/`: the command-line program, which prints the benchmark results, and
  the floating-point square root and logarithm of sorted values.

Floating-point constants in the benchmark graphs are recorded by their
IEEE-754 binary64 bit patterns.
