# foothold

The core of a centralized exchange, verified with Verus.

- `src/amount.rs` — decimal amounts (mantissa and scale, as `rust_decimal`
  holds them); comparison and arithmetic are done by `rust_decimal` behind
  trusted wrappers whose contracts say when the result is exact.
- `src/order.rs` — orders, trades, match results.
- `src/order_book.rs` — a price-time priority limit order book: matching of
  limit and market orders, cancellation, depth; each operation's contract
  is an exact specification over the two queues of resting orders and what
  the book keeps beside them (level prices, the order index).
- `src/book_laws.rs` — laws of the book: it stays uncrossed, trades happen at
  the maker's price within the taker's limit, quantity is conserved,
  cancelling a fresh resting order undoes it, depth levels are strictly
  ordered.
- `src/sequencer.rs` — sequence IDs, the append-only log, and replay.
- `src/risk.rs` — wallets and the lock/release of funds, with their laws.
- `src/exchange.rs`, `src/exchange_laws.rs` — order entry and cancellation
  as the gateway performs them, and their laws.
- `app/` — the HTTP gateway (axum): reads requests, calls the library,
  writes responses.
- `tests/` — the scenarios of the library.

## Collections

- The book does not keep its price levels in a `BTreeMap` keyed by price:
  a price is a decimal whose order is by value (100 and 100.0 are one
  level), and Verus's specifications of ordered maps cover keys whose order
  it knows, such as integers. Each side is a `Vec` of resting orders kept in
  price-time priority (part of `OrderBook::wf`), with the price each level
  opened at beside it. The order index stays a `HashMap`, keyed by the
  128 bits of the order id.
- A wallet's positions and the gateway's books are keyed by symbol strings.
  Verus proves what a `HashMap` holds after a lookup or an insert only for
  keys whose hashing it models (integers here), not for `String` keys, so
  these are `Vec`s of entries with the invariant that no symbol occurs twice
  (`wallets_wf`, `books_wf`).
