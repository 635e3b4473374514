# ordust

A price-time priority order matching engine and a market-data book kept in
sync with an exchange depth feed, written in Verus: the library in `src/` is
verified, the programs around it in `app/` are ordinary Rust.

## Library (`src/`)

- `types` — prices, quantities, orders, trades, book events, engine errors.
- `arena` — the `slab::Slab` arena that holds order nodes, seen by the proofs
  through `arena_view` and a handful of trusted wrappers.
- `price_level` — one price level: a FIFO queue kept as an intrusive
  doubly-linked list in the arena, with its running total.
- `sorted` — ordered reads of a `BTreeMap` (first key, all entries).
- `model` — the abstract book (price to queue of orders, per side) in which
  the book's and the engine's contracts are stated.
- `book` — the order book: both sides, the arena and the id index.
- `engine` — validation, matching, time-in-force handling, cancellation.
- `properties` — laws of the engine: fill-or-kill, immediate-or-cancel and
  market orders, where trades happen, cancellation, an uncrossed book.
- `market`, `reconciler` — the market-data book and its synchronisation
  (buffering, snapshot bridging, gap detection).
- `feed`, `client` — feed messages, the Hyperliquid adapter's verified part,
  and the decisions of the WebSocket connection loop.
- `workload` — the order flow used to profile the engine.

## Programs (`app/`)

`app/main.rs` runs one of: `terminal` (the order-book viewer), `debugger`,
`market-data`, `profile`. The WebSocket I/O, JSON decoding, decimal-to-tick
scaling, backoff timing and rendering live there.
