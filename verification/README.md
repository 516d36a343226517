# dig-peer-selector

Peer selection for multi-source downloads. Given the peers that may hold some content, the selector
decides which of them should serve a request, in what order, and with how many concurrent ranges
each. It learns from measured transfers alone: throughput, latency and reliability of each peer, the
concurrency at which each kind of path saturates, and how relayed paths compare to the others.

The library is written in Verus. Its contracts state, for every function, what it returns and how it
changes the selector; its laws, the public proof functions, state what follows for all inputs.

## Layout

- `src/types.rs`, `address.rs`, `identity.rs`, `config.rs`, `pool_event.rs`: plain values.
- `src/measure.rs`, `formula.rs`, `order.rs`: measured quantities, the formulas over them, and what
  holds of formulas where the arithmetic keeps the order of measures.
- `src/rounding.rs`, `doubles.rs`: doubles as numbers, and arithmetic in doubles on bit patterns.
- `src/quality.rs`, `scoring.rs`, `judging.rs`: what is learned of a peer and of a kind of path, and
  the score made of it.
- `src/registry.rs`, `peer_table.rs`: the bounded registry of peers, and tables keyed by a peer.
- `src/ranking.rs`, `draw.rs`: from the contenders of a round to the chosen.
- `src/state.rs`, `engine.rs`: the state of a selector, how each event moves it, and the selector.
- `src/dial.rs`, `observe.rs`: where to dial the chosen, and snapshots of what was learned.
- `src/*_laws.rs`, `determinism.rs`, `turns.rs`: the laws of one call, or of a few.
- `src/history.rs`, `life.rs`, `starvation.rs`: the laws of many calls, in whatever order.
- `src/in_doubles.rs`: the laws that ask something of the arithmetic, in the library's own.
- `app/`: the selector behind a lock, conversions from and to the types of the network crates, and
  serialisable snapshots.
- `tests/`: scenarios, exact values, and the outside functions the library relies on.

## Numbers

Measured quantities are non-negative doubles, kept by their bit patterns, which order as the numbers
do. The library compares and bounds them itself and asks an `Arithmetic` for the operations proper.
Contracts say which formula a value comes from. Laws that need more of the arithmetic name it: that
it is `steady` (the same question has the same answer), `orderly` (it keeps the order of measures) or
`discerning` (it tells a measure from half of it), or that it rounds in order.

The library's own arithmetic, `Doubles`, rounds every result to the nearest double, ties to even, and
takes what is not a number for zero. That is its contract, and `double_laws.rs` proves of it whatever
those laws ask. `in_doubles.rs` restates the central ones with nothing left to ask.

## What is trusted

Identities are spelled and read by `dig-nat`, addresses are ranked and dial orders made by `dig-dht`,
draws come from `rand_pcg`, and the time from the system clock. Each is called in one small function
whose doc comment says what is claimed of it.
