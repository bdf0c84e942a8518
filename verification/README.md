# ssa_passes

Optimisation passes over a small SSA intermediate representation, with proofs.

- `src/ir.rs`, `edit.rs`, `emit.rs`, `util.rs`, `query.rs`, `patterns.rs`: functions, their
  mathematical views, and the elementary edits.
- `src/cfg.rs`, `loops.rs`, `verify.rs`, `flow.rs`, `region.rs`, `memory.rs`, `objects.rs`,
  `bits.rs`, `names.rs`: analyses.
- `src/semantics.rs`: what a function computes, whatever its instructions mean. `src/ssa.rs`: what
  is known of its values at each place of a run. `src/rewriting.rs`: when a rewritten function
  computes the same.
- `src/pass/`: the passes, one module each, and `pipeline.rs`, which orders them.
- `tests/`: functions built by hand, and run by an interpreter before and after a pass.

Every pass states its effect exactly: the view of the function after the call is a specification
function of the view before it. A result that would not be a valid function is discarded.

Laws are public proof functions. That what every call returns stays the same is proved of

- the integer simplification (`src/pass/range_integer/laws.rs`),
- the fast path of expressions in pieces (`src/pass/piecewise_laws.rs`),
- the unrolling of loops (`src/pass/unroll_laws.rs`),
- the zeroing and the copying of arrays at once (`src/pass/memset_laws.rs`, `memcpy_laws.rs`),
- the steps of the control-flow simplification other than the threading of edges past known
  branches, and of that simplification as a whole where it threads no such edge
  (`src/pass/simplify_cfg/`).

Each law says what it asks of the operations and of the function. A memoized recursion returns what
the recursion returns by itself, and runs its body at most once for the arguments of a slot
(`src/pass/wrapper_laws.rs`, `memo_laws.rs`). The helper that sums chains returns the sum
(`src/pass/odd_chain_group/run_laws.rs`). The other passes state what holds of their results and of
the arithmetic behind them.
