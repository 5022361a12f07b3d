# omni_spacetimedb

A replicated durability layer for a SpacetimeDB-style datastore, built on the
OmniPaxos replicated log, with its logic verified by Verus.

- `src/` is the verified library:
  - `datastore`: the transaction data model (offsets, rows, insert/delete lists,
    transaction data and results, durability levels, errors).
  - `bonustask`: the access-log request carried with each transaction.
  - `durability`: the log entry appended for each transaction, the durability
    layer's view of its OmniPaxos replica (durable offset, decided reads, replay of
    decided transactions), and the checked OmniPaxos configuration of a node.
  - `node`: a node's leader tracking and its decisions on rolling back, advancing
    the replicated offset and replaying the log, with the laws they obey.
  - `connections`: a node's table of outgoing channels, with disconnection and
    reconnection and the laws relating them.
- `app/` drives OmniPaxos replicas and the nodes on a tokio runtime over any
  datastore that implements its `Datastore` trait.
- `tests/` exercises the library on concrete values.
