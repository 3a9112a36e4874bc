# p2p_services

Services that run over a peer-to-peer network of nodes, each built as a
state machine whose behaviour is stated in contracts and proved with Verus:

- `alias_service`: registering aliases on a node and finding which node
  holds one (hints first, then a scan), with generations so that old
  announcements cannot undo newer ones.
- `pubsub_service`: channels with local and remote publishers and
  subscribers, data and feedback, questions (RPCs) answered by the first
  responder, heartbeats, tombstones and caps on every table.
- `replicate_kv_service`: a key-value store whose local data is replicated
  to every other node, with change streams, snapshots and catch-up.
- `visualization_service`, `metrics_service`: collecting the network's
  topology and connection metrics from trusted collectors.
- `stream`: the two-byte length framing of one object on a stream.

Each module states its operations over a view (`@`) of its state; the
`properties` modules and the `law_*` / `lemma_*` proof functions state what
holds across operations.  `replicate_kv_service::convergence` states that a
replica converges to the data of the node it follows over any history of
changes at that node and of lost, late or repeated broadcasts and answers
(`lemma_replica_converges`).

Layout:

- `src/`: the verified library.
- `tests/`: tests of the library on concrete values.
- `app/`: the asynchronous services that drive the state machines over a
  base service (`transport`), with the wire forms of the messages.
