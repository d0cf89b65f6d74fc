# backend

Data pipeline and API behind an LVR (loss-versus-rebalancing) dashboard.
Simulated CEX–DEX arbitrage per block and markout time (from Aurora) and
Brontes' measured arbitrage (from ClickHouse) are summarised into daily
interval files and per-pool checkpoints, checked against each other,
condensed into precomputed tables, and served over HTTP.

## Layout

- `src/` — the verified library (Verus). Every public function carries a
  contract over mathematical models (`Seq`, `Map`, integers, views), and the
  properties that span functions are stated as public proof functions
  (`lemma_*`).
  - `blocks`, `processor`: per-block values, bucket counts, interval
    summaries, checkpoint updates, chunking of the block range.
  - `files`, `markout`, `pools`: file names, markout times, the pool and
    cluster tables.
  - `running`, `pool_metrics`, `max_lvr`, `clusters`, `selection`,
    `ranking`: the analytical tables and the answers of the API;
    `group_sums`: what each running-total point adds up.
  - `validation`: checkpoint totals against the interval files.
  - `config`, `retry`, `compress`, `details`, `text`, `error`, `models`,
    `queries`: configuration, fetch and retry decisions, digest parameters,
    parsing of Aurora details, strings, shared types.
- `tests/` — tests of the library on concrete values.
- `app/` — the program: command line, database clients, parquet storage,
  the HTTP server, and the float columns (shares, ratios, percentiles).
