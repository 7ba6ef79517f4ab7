# kad

The data structures and decision logic of a Kademlia DHT node, written in
Verus: every function of the library carries a contract that Verus proves.

## Layout

- `src/kbucket/`: the routing table. `key` (keys, the XOR metric and its
  laws), `sub_bucket`, `swamp`, `weighted` and `bucket` (the buckets and
  their pending entries), `table` (the table, its entries and the
  placement invariant), `closest`, `weighted_iter`, `ordering` and
  `sorting` (visiting the buckets by distance to a target).
- `src/query/`: lookups. `peers::closest` (the iterative lookup towards the
  closest peers, with disjoint paths), `peers::closest::disjoint` and
  `peers::disjoint_closest` (lookups over several disjoint paths),
  `peers::fixed` (a fixed set of peers), and the query pool in `query`.
- `src/record/`: records, provider records and the in-memory record store.
- `src/behaviour.rs`, `src/behaviour/kademlia.rs`: the node itself: its
  configuration, the events it reports, the operations it offers (lookups,
  storing and providing, bootstrap and bucket refresh, adding addresses),
  how it answers and takes in the messages of other peers, and one step of
  driving it (`Kademlia::poll_step`), whose actions (dialing a peer,
  sending a message, reporting an event) the surrounding program takes.
- `src/addresses.rs`, `src/handler.rs`, `src/high_level.rs`,
  `src/parity.rs`, `src/indexed_stream.rs`, `src/kad_server.rs`,
  `src/metrics.rs`: smaller pieces (a peer's addresses, protocol status,
  random identities per bucket, namespaces, configurations).
- `src/time.rs`, `src/random.rs`: the clock and the random number
  generator, the only places besides SHA-256 and byte order where the
  library calls code it does not prove.
- `tests/`: tests run against the compiled library.

Addresses and peer identities are held as the bytes of their encodings.
Points in time are `std::time::Instant` values. The library names what std's
comparisons and arithmetic on them give (`instant_ge`, `instant_plus`,
`instant_elapsed`, `duration_ge`) without stating how those behave, so the
contracts of the functions that take an instant hold for every outcome of
them; the functions that read the clock state their result for the instant
of the call.
