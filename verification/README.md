# lnconv-core

A verified core for simulating how gossip spreads in the Lightning Network.
Nodes exchange channel updates, node announcements and channel
announcements over a peer graph, each by one of four strategies: flooding,
batches per stagger interval, batches trickled out over the interval, or set
reconciliation with sketches.

- `src/` is the library: messages and their keys, per-node state and its
  differences, the node state machines, topologies and channel registries,
  event sources and the shaping of captured traces, metrics and their
  aggregation, report figures, and the schedule of a run. Every public
  function states what it does in `requires` and `ensures`, and all of it is
  checked by Verus. Public proof functions state what holds across functions, such as that the order
  in which messages arrive does not matter, or that two replies bring two
  peers to the same state.
- `app/` is the program around it: the command line, files, the
  discrete-event executor, threads, the report database, and what is
  computed in floating point.
- `tests/` runs the library on concrete values.

Functions marked `external_body`, and the `assume_specification` items, are
the calls into other crates. Their contracts are taken as given; the comment
above each says what it relies on.
