# rinha

Fraud scoring by exact nearest-neighbour search. A transaction becomes a vector
of 14 features; its `fraud_score` is the share of frauds among the 5 nearest of
the labelled reference transactions, and it is approved if that is below 0.6.

The references are partitioned by an 8-bit key. Each partition has a bounding
box and a vantage-point tree. A search looks at the partition with the query's
key first, then at the others, nearest box first, for as long as a box can hold
a nearer point. The key sets the order of the search, not its result.

- `src/` is the library, verified with Verus. Its functions state what they
  return in `ensures`; the properties that span functions are the public proof
  functions named `law_..`.
- `tests/` runs it.
- `app/` is the program: the HTTP service, the builder of the index file, and
  the normalisation of the features, which is floating point.

Four calls are trusted rather than proved: `slice::select_nth_unstable` in
`select`, `bytemuck::pod_read_unaligned` and `bytemuck::cast` in `codec`, and
`sonic_rs::from_slice` in `references`.
