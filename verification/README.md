# wasm_data_aggregator

Filtering, grouping and day-bucketing of timestamped observations, with
their JSON metadata, verified with Verus.

- `src/json.rs` — JSON values as the library holds them (floats by their
  text), their compact JSON text, equality, `as_u64`/`as_i64`, and the text
  by which a value enters a group key.
- `src/decode.rs` — reading JSON texts (through serde_json) into the
  library's values, each result named by the text it was read from.
- `src/metadata.rs` — what the logic reads of an observation, and metadata
  lookup.
- `src/partition.rs` — what it means to group items by key, and the lemmas
  that every grouping step keeps it so.
- `src/grouping.rs` — group keys (`a|b|null`) and grouping of observations.
- `src/filtering.rs` — filter criteria (`minValue`, `maxValue`,
  `minTimestamp`, `maxTimestamp`, metadata equality), their laws, and the
  reading of a filter-and-aggregate request.
- `src/daily.rs` — bucketing of in-range timestamps by day, with each day's
  name and date, and the reading of a daily-metrics request.
- `app/lib.rs` — parsing of observations (they carry `f64` values),
  serialization, and the floating-point figures (sums, averages, extremes,
  comparisons with float bounds), around the library.
