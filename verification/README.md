# atlas_txn_sender

The core of a service that sends Solana transactions and retries them, verified
with Verus.

- `src/` is the library. Every function states what it returns or changes, and
  Verus proves it. Calls into `solana-sdk`, `solana-program-runtime`, `dashmap`
  and `indexmap` stand behind small functions whose contracts are taken on
  trust; the doc comment of each one says what it claims.
  - `txn_sender`: which transactions are taken, what is sent where, what is
    reported.
  - `transaction_store`, `retry_order`, `rounds`: the retry queue, load
    shedding, and what retry rounds do over time.
  - `priority`, `transaction`: the fee that a transaction offers.
  - `leader_tracker`: who leads the coming slots.
  - `delivery`: to whom to send, and how often to try.
  - `validators`, `config`, `keys`, `metrics`, `contact`, `text`, `outside`:
    validators, settings, keys, tags, and shared types.
- `app/` connects the library to the cluster, the clock, the environment and
  the metrics.
- `tests/` runs the library.
