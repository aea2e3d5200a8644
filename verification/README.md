# order_book

A limit order book with price-time priority matching, written in Verus.

- `src/order.rs`: sides, order types, fixed-point prices (units of 10^-8), requests and orders.
- `src/order_book.rs`: the book itself: submitting (matching, then resting what is left of a
  limit order), cancelling, looking orders up, best bid and ask, snapshots.
- `src/book_model.rs`: the mathematical model the contracts speak of: the book as maps of id
  queues and an orders table, its well-formedness, and the matching rule as a recursive function.
- `src/laws.rs`: properties spanning operations (quantity conservation, consistency kept by
  submissions, trades within the
  taker's limit, an uncrossed book stays uncrossed, cancel undoing a resting submission, ...).
- `src/events.rs`, `src/service.rs`: engine requests and reports, and the service's decisions
  (message decoding, routing, feed framing).
- `app/`: a small program around the library: decimal price conversion, text rendering of a
  book, and channel-based delivery of engine events.
