# cachex

A distributed in-memory cache: nodes keep keys in an LRU store with TTL
expiry and a memory cap, speak a line protocol, shard keys with consistent
hashing, copy writes to replicas, detect failed peers by heartbeat and
rebuild their data from an append-only file.

## Layout

- `src/` — the library, verified with Verus:
  - `storage` — the LRU store (index, recency list, memory accounting,
    eviction, TTL purge, snapshots) and its laws;
  - `protocol` — request and reply lines, with their round-trip laws;
  - `hashing`, `rebalance` — consistent and modulo routing, replica
    selection, and what a node joining or leaving moves;
  - `server` — request handling (a write is logged, then stored, then
    handed to the replicas), replication planning, the append-only file's
    lines and their replay, with the replay laws;
  - `heartbeat` — the failure detector's state machine and its laws;
  - `internal` — internal addresses and message framing;
  - `metrics`, `latency` — counters, rates, histograms and the INFO text;
  - `workload`, `bench` — the benchmark's key, value and request mix and
    its command line;
  - `client` — what replies mean to a client;
  - `control`, `experiment`, `ports` — the control service's cluster
    bookkeeping, experiment decisions and listing parsing;
  - `config`, `entry`, `text` — settings, entries and the clock, text helpers.
- `app/` — the programs around the library: sockets, files, timers,
  HTTP endpoints, serde and the float arithmetic of reports
  (`cachex server CONFIG`, `cachex bench ARGS`, `cachex control ARGS`).
- `tests/` — tests of the library on concrete values.
