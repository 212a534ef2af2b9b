# sombra

A delay-tolerant bundle queue for degraded and intermittent networks,
written in Verus.

- `src/` is the verified library: bundles and their identifiers
  (`bundle`, `ident`), the bounded deduplication cache (`dedup`), the
  transmission scheduler (`scheduler`), the bounded store with expiry,
  readiness and retry backoff (`store`), the delivery tally used by the
  simulator (`simulation`) and transport kinds (`transport`).
- `app/` is the command-line program around it: argument parsing, the JSON
  store file, and the outage simulator with its floating-point link scoring.
- `tests/` exercises the library on concrete values.
