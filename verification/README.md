# ferrous_ta

Technical-analysis indicators (moving averages and the buffers they are built on), written in
Verus with their behaviour stated in contracts and proved.

- `src/traits.rs`: the `Scalar` number trait, the `Filter` trait every indicator implements
  (`step`, `reset`, with the spec functions `inv`, `step_req`, `step_post`, `reset_post`), and
  `specified_arith`, which says that a scalar type's arithmetic follows its `vstd`
  specification, and `ExactInt`, the scalar types (`i64`, `i128`) whose arithmetic is exact
  integer arithmetic wherever it is defined.
- `src/helpers.rs`: `SlidingWindow` (a fixed-size circular buffer whose view is the sequence of
  the last `N` items pushed, oldest first) and `Accumulator` (a running sum over such a
  window), with the laws that tie them together, over single calls and over histories of
  calls.
- `src/lib.rs`: the indicators `WWS`, `EMA`, `CMA`, `DEMA`, `TEMA`, `SMA`, `WMA`, `VWAP`, `HMA`,
  each with spec functions for the value a step returns and the state it leaves, and laws over
  histories of steps: when the first value comes, what each value is for exact integer types,
  and how `DEMA`, `TEMA` and `HMA` follow the averages they are built from.

The tests under `tests/` run the indicators on `i64`, `i128`, `f64` and `rust_decimal::Decimal`.
