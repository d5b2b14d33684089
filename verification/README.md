# rustred_cover

Verified decision structures for symbolic sector coverage in an
integration-by-parts reduction: which candidate reduction rule applies where,
which points remain residual, and how residual leaves are split and solved.
Every function in `src/` is written in Verus and proved against its contract.

## Modules

- `coverage_decision_dag` — reduced ordered multi-terminal decision DAG in an
  append-only arena: `branch`, `ite`, Boolean `and`/`or`, candidate-priority
  composition, rooted export and rebuild, and evaluation.  Every operation
  preserves the value of every existing reference.
- `parametric_sector_formula_ir` — normalized DNF "bad" formulas of the
  coverage candidates over base structural loci.
- `parametric_sector_mtbdd` — compilation of that IR into a single-rooted
  decision function; its classification of every assignment equals the
  reference priority semantics of the candidates.
- `parametric_sector_mtbdd_certificate` — the owning stage-1 certificate:
  a shared normalized source with its compiled decision function.
- `parametric_sector_residual_path` — a lazy, resumable depth-first cursor
  that yields the residual (uncovered or unsupported) root-to-terminal paths
  of a certificate in nonzero-first order, retaining only the current
  frontier.
- `sector_mask`, `live_leaf_queue` — sectors and the plain-value view of a
  generated live-leaf queue.
- `product_locus_boolean_cover` — positive CNF of product loci on one
  residual leaf and its zero-first DPLL partition into disjoint ready
  terminals, with replay, payload comparison and a memory envelope.
- `parametric_elimination`, `persistent_parametric_elimination` — the
  replayable append-only elimination database: batch submission, row-by-row
  consumption whose committed pivots stay a prefix of every rebuild, and the
  finished certificate's audited replay.

The elimination kernel itself is supplied by the caller through the
`ParametricEliminationBuilder` trait.

## Layout

`src/` is the library, `tests/` its tests.
