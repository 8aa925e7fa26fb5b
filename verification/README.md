# subms_ts

A time-series core verified with Verus: ordered series of timestamped
points, their metadata, multi-series containers, latency-plan
certificates, retention policies, a write-ahead-log record format, grid
resampling, and the PromQL and SQL front ends built over them.

## Layout

- `src/` — the verified library. Each public function states what it returns
  or changes in its `ensures`, over spec functions and views
  (`Seq`, `Map`, `Set`, `int`); the laws that relate several functions are
  public proof functions (`lemma_*`).
  - `series`, `point`, `meta`, `collection`, `panel`: the containers.
  - `codec`, `roundtrip`: the columnar JSON document and its read-back law.
  - `plan`, `retention`, `wal`, `resample`, `datetime`: certificates,
    retention, log records and recovery, bucketing, instants.
  - `promql`, `vector`: the PromQL lexer and parser, selector resolution,
    grouping and vector pairing.
  - `sql`, `lower`: the SQL lexer and parser, and the checks a statement
    passes before it is run.
  - `dataframe`, `window`: the typed frame, and the row-level building
    blocks of window functions (shift sources, row numbers, gathering,
    partition sub-frames).
  - `text`: escaping, decimal rendering, hashing and string helpers.
- `tests/` — tests run against the compiled library.
- `app/` — what stays outside the verified part: the floating-point value
  type and the arithmetic on float samples, file I/O for the log, and
  calendar conversions.
