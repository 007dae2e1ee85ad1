# exchange_core

A deterministic, single-writer central limit order book for sovereign spot
and future instruments, with its surrounding machinery: admission and
sequencing, price-time matching, risk reservations, a double-entry ledger
and settlement, Raft-style consensus, a binary gateway protocol, command
and event journals, market data, hot-standby replication and certification
checks.

The library under `src/` is written in Verus: every function carries a
contract over a mathematical model of its data, and Verus proves the code
against it. Laws that relate several operations (round trips of every
codec, zero-sum postings, one vote per term, fencing of stale
generations, a failed journal append consuming nothing, replay from the
same state and commands reaching states with equal fingerprints, books
never crossing, ...) are public proof functions beside the code they
speak of; `determinism`, `shape` and `uncrossed` hold the replay and
book-shape laws, and `room` reads off the price levels how much of an
incoming order matching would fill.

Layout:

- `src/` the verified library, one module per concern (`engine`,
  `matching`, `execution`, `book`, `pool`, `risk`, `ledger`, `consensus`,
  `protocol`, `journal`, `command_journal`, `durable`, `replication`,
  `market_data`, ...). `channel` holds the trusted declarations for the
  bounded channels of `crossbeam-channel`.
- `tests/` ordinary Rust tests against the compiled library.
- `app/` the process around it: CPU pinning, the trade scavenger thread,
  the HTTP health endpoint, journal files, and the load drivers
  (`--bot-swarm`, `--stress`, `--harness`).
