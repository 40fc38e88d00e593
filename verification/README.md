# csimulator

A cycle-level simulator for block-matrix programs (`BlockMat`), with the
structural part of the pipeline verified in Verus:

`BlockMat IR -> optimize -> lower -> schedule -> simulate -> report`

## Layout

- `src/` — the verified library.
  - `ir.rs`: kernels, block matrices, shape validation.
  - `semantics.rs`: structural constructors (`proj`, `inj`, `copy`, `merge`,
    `identity`, `pair`, `copair`, `bimap`, `kernel_app`), the dense layout
    `eval`, the plan of `compose` and the factors of `morph_add`, and the
    symbolic cases of kernel products and sums.
  - `optimize.rs`: rewrites R1/R2 and the structure statistics.
  - `lower.rs`: lowering to a scheduling graph, with shared parameter handles.
  - `schedule.rs`: Kahn order and the greedy cycle-level scheduler.
  - `simulate.rs`: buffer bookkeeping cycle by cycle and the data-flow steps.
  - `release.rs`: why every temporary buffer is freed by the end of a run.
  - `dataflow.rs`: why the steps of a run compute the block matrix applied
    to the input, read symbolically as sums of kernels applied to input
    blocks.
  - `report.rs`: analytic cost formulas, measured spans and peaks.
  - `benchmarks.rs`: the cases V1 to V8.
- `app/` — the command-line program: the single-precision arithmetic (numeric
  tests, matrix algebra, step execution, oracle) and the JSON export.
- `tests/` — tests of the library.

Parameter entries and block values are single-precision numbers. The library
holds them by bit pattern and never computes with them; decisions that depend
on their values (is a matrix zero, the identity, a scalar multiple of the
identity, are two matrices equal up to rounding) come in as flags computed by
the numeric layer.
