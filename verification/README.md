# bochk_check

A monitor for BOCHK account-opening appointment slots. It polls the booking
service, drills down from the available dates to the branches that offer each
time slot, notifies Bark endpoints of new and vanished slots, keeps the history
in SQLite, and serves a small status page.

Layout:

- `src/` — the verified library (Verus): reading the service's JSON answers,
  comparing snapshots, the notification texts, the slot store's plans and
  read-backs, the release statistics, the status-page data, the retry policy,
  the drill-down state machine, the decisions of each polling round and the
  settings. `src/laws.rs` and `src/release_laws.rs` hold properties of the
  library as a whole; `src/store_model.rs` models the store's tables and proves
  what reading them back after each write gives.
- `tests/` — tests of the library on concrete values.
- `app/` — the program around it: HTTP requests, SQLite, files, environment,
  the web server and the main loop.
