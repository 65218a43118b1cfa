# serp_ctr

Search-console arithmetic with Verus proofs: click-through rates as exact
fractions, impression-weighted position totals, SERP page bucketing, pooled
totals, and a CTR-by-position curve built from your own observations, which
never invents a rate for a position it has not seen.

- `src/` is the verified library. Its contracts speak of a curve as its
  ascending sequence of `(position, clicks, impressions)` buckets; the laws
  (in `curve_laws.rs`, `position.rs` and `totals.rs`) state what holds across
  calls, such as that a curve holds exactly the pooled counts of what was fed
  to it, in any order.
- `tests/` runs the library on concrete values.
- `app/` is the floating-point face: it takes `f64` positions and returns
  `f64` rates, and leaves every decision to the library.
