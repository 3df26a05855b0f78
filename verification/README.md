# coinshift_state

The state of a pegged sidechain, and what changes it: blocks, the events of
mainchain blocks, and swaps with other chains. The functions in `src/` are
verified with Verus, but for those that call other crates (see below). Their
contracts say what they return and what they do to the state, on success and on
failure; what a call of another crate returns, they say by a name for it.

## Layout

- `block`, `block_check`: checking, connecting and disconnecting blocks. What
  this means stands in `block_model`, what holds of it in `block_laws`,
  `coin_laws` and `undo_laws`.
- `two_way_peg_data`, `peg_events`: connecting and disconnecting deposits and
  the events of withdrawal bundles; `peg_model` and `peg_laws` go with them.
- `bundle`, `bundle_laws`: putting withdrawals together into bundles.
- `coinshift`, `coinshift_laws`: following the payments of swaps.
- `state`, `types`, `ids`, `swap`, `withdrawal`, `rollback`, `mainchain`,
  `error`: the data.
- `table`, `order`: ordered tables, and what it means to list things in order.
- `accumulator`: the Utreexo accumulator of unspent outputs.

`app/` keeps the state in a database and runs the operations in its
transactions.

## Errors and halts

What is wrong with a block or an event is an `Error`. A state that cannot be, a
number that runs out of its range, or two leaves of the accumulator that cannot
be told apart, is a `Halt`. Functions named `try_..` report both, as a `Fault`;
their namesakes without the prefix are for callers that know that nothing halts.

## What is not proved

The functions marked `external_body` call other crates: `rustreexo` for the
forest behind the accumulator, `rayon` for sorting, `bitcoin` for addresses and
the weight of a standard transaction. The comment above each says what is
believed of the call.

What other parts of a node decide is handed in as plain values: the merkle root
of a body, the fee of a transaction and whether it keeps the rules of swaps,
whether signatures hold, what parent chains report, and how building the
transaction of a bundle went.
