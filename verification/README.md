# snap_coin_stats

Statistics over a snapshot of a Snap Coin node's UTXO store (a sled database that maps
base-36 transaction ids to bincode-encoded lists of optional transaction outputs), and the
HTTP server that publishes them.

- `src/` — the verified library: decoding of store entries (`numerals`, `frame`, `codec`,
  `ledger`), tallies of unspent outputs (`tally`), global metrics and snapshots
  (`metrics`), per-address statistics (`intelligence`), the top receivers (`top`), the
  rolling history (`history`), the request and response types (`api`), and laws relating
  the statistics of merged or extended stores (`laws`).
- `app/` — the axum server: reads the store, keeps it fresh with rsync, and serves the
  statistics as JSON.
- `tests/` — tests of the library on encoded store entries.
