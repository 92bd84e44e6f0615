# optimize

Query optimizers over a small logical IR, from fixed heuristic rewrites
to a rule engine and a memo of equivalent join expressions, run against
DataFusion as the execution engine. The optimization logic is written in
Verus and proved against its contracts.

## Layout

- `src/` — the verified library.
  - `ir.rs` — logical plans and expressions, with their models.
  - `order.rs`, `sorting.rs` — total orders on expressions and keys, and
    the sorting they drive.
  - `canon.rs` — the canonical form of expressions (idempotent, and blind
    to the order of conjuncts and disjuncts).
  - `remap.rs` — column remappings and their inverses.
  - `render.rs` — the text of plans and expressions.
  - `sql.rs`, `bind.rs` — the parsed SQL the binder reads, and the binder
    from it to the IR, with every refusal stated.
  - `catalog.rs`, `stats.rs` — the four-table schema and table statistics.
  - `p1.rs` — the heuristic passes: constant folding, predicate pushdown,
    projection pruning, redundancy removal.
  - `p2.rs` — the join graph of the dynamic-programming join orderer: a
    tree's leaves and keys, connecting keys, connected components.
  - `p3.rs` — the rule engine: rule classes driven to a fixpoint under a
    budget, with its trip report.
  - `p4.rs` — the memo: interning, commutation and re-association,
    expansion rounds and expansion to a fixpoint (closed under both rules
    when a round adds nothing), the harvest of a join tree, physical plans.
  - `opt.rs`, `error.rs`, `harness.rs`, `text.rs` — the optimizer
    interface, errors, result normalization and diffing, integer parsing.
- `app/` — the command line and everything around the library that
  performs I/O or computes in floating point: parsing SQL with sqlparser,
  the DataFusion sessions and lowering, statistics files, the cost model,
  dynamic-programming join ordering, and the memo's winner selection.
- `tests/` — tests of the library on concrete values.
