# engine

An event-driven trading engine whose core is verified with Verus: a single-symbol limit
order book with FIFO price levels and an order-ID index, limit and market matching,
cancellation and expiry, deterministic JSONL replay with strict sequence checks,
average-cost portfolio accounting, pre-trade risk limits with a kill switch, built-in
momentum and market-making strategies, a multi-symbol runtime, and a mock paper
market-data adapter.

## Layout

- `src/` — the library. Every executable function carries a contract that Verus proves:
  - `book/` — the order book, its mathematical model (`model.rs`) and the structural
    invariant checker (`check.rs`);
  - `matching/` — the matching engine, its behaviour as a function on values
    (`model.rs`) and laws such as price-time priority and quantity conservation
    (`laws.rs`);
  - `replay/` — the replay driver, its output/summary model, and which lines of a
    line-oriented input hold records (`lines.rs`);
  - `portfolio/`, `risk/`, `strategy/`, `paper/`, `elite/` — accounting, risk checks,
    strategies, the paper adapter, the order pool and the bounded event queue;
  - `runtime/` — symbol routing, risk-before-matching, strategy dispatch, and
    (`model.rs`) the runtime's own steps over values: the whole behaviour when no
    strategy is registered, with its determinism, and otherwise the step each call
    takes before strategies are called back, beside a ghost log of the events
    dispatched to them;
  - `batch.rs` — preparing input batches and counting outputs;
  - `workload.rs` — the synthetic workload the measurement harness replays;
  - `keyed.rs` — symbol-ordered maps.
- `tests/` — scenario tests and tests of each law on concrete values.
- `app/` — the command-line program: file and socket I/O, JSON formats, timing and
  the measurement harness.

## Behaviour worth knowing

- A cancel on a book with no order on either side is rejected with `EmptyBook`, before
  the order ID is looked up; `UnknownOrder` answers a cancel of an ID the book does not
  hold when the book is not empty. Replayed streams see the same answers.
- Limit prices must be positive: a limit order at price zero or below is rejected with
  `InvalidPrice`.
- A strategy is told it is active once, when it is registered, with a context of its own
  ID, sequence and time zero and no book; whatever it returns then is not acted on.
