# windit

Generic windowed-sequence processing: place windows over an input, cut, pad and mask them,
aggregate their embeddings into one, and turn their scores into ranges, all at once or window
by window. The library is written in Verus, and every function of it is proved to meet its
contract.

## Layout

- `src/plan.rs`, `src/pre.rs`: window geometry, and slices with padding and masks.
- `src/windowed.rs`, `src/scalar.rs`: values with their windows, and what an embedding is
  stored and computed in.
- `src/aggregate/`: the aggregation policies. `policy.rs`, `ema.rs`, `fold.rs`, `norm.rs`,
  `domain.rs` and `drive.rs` compute; the other modules state what holds of the results.
- `src/segment/`, `src/smooth.rs`, `src/decode.rs`: the stages of a streaming decoder.
  `src/behaviour.rs` is the model that their contracts are written in.
- `src/binary.rs`, `src/arith.rs`, `src/rounding.rs`, `src/represent.rs`, `src/ratio.rs`,
  `src/widen.rs`: IEEE 754 numbers as bit patterns, with correctly rounded arithmetic.
- `src/exact.rs`, `src/scaling.rs`, `src/roots.rs`, `src/roundoff.rs`, `src/close.rs`,
  `src/triangle.rs`: what is known of that arithmetic.
- `app/`: the bridge to ordinary Rust, with floats, half-precision storage, and configuration
  that is read and written through serde.

## Reading the contracts

A number is a pattern; its value is an integer count of the least positive binary64 number,
`2^-1074`, so that every statement about rounding is one about integers. `nearest(a, b)` is
the pattern nearest to `a / b` of them, ties to even. The public proof functions are the laws
of the library: each states, in one place, something that holds across several functions.
