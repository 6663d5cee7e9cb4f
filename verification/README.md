# match_engine

A limit order book matching engine whose logic is verified with Verus.

- `src/level.rs`: a price level, a first-in-first-out queue of resting orders
  with its total amount and order count; the specification of matching an
  incoming amount against a queue (`match_queue`) and its laws.
- `src/engine.rs`: the book (`MatchingEngine`, viewed as `BookView`), with
  placing, cancelling and amending orders specified over the view, and the
  laws that relate these operations.
- `src/order.rs`, `src/errors.rs`, `src/types.rs`: orders, events, errors and
  configuration.
- `app/`: the asynchronous trading pair that runs the engine on a blocking
  task behind channels and restarts it when it panics.
- `tests/`: behaviour on concrete books.
