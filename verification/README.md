# kmeans

K-means clustering of fixed-width vectors, verified with Verus.

- `src/` is the verified library. A model is a set of centroids; training
  assigns each vector to its nearest centroid, moves the centroids to the means
  of their vectors and starts over until little changes.
- `src/scalar.rs` holds the traits for floating point arithmetic. The proofs take
  nothing for granted of it: contracts say how results follow from what the
  arithmetic gave.
- `src/laws.rs` and `src/splitting.rs` hold what holds of the library whatever the
  arithmetic is, `src/determined.rs` and `src/copies.rs` what holds where the
  arithmetic is a function of its arguments, and `src/exact.rs`, `src/balance.rs`
  and `src/scaling.rs` what holds where it does not round.
- `app/` brings hardware arithmetic, Arrow's errors and an asynchronous runtime.
- `tests/` runs the library on single precision vectors.
