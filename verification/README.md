# mmo_core

The verified core of a small sharded multiplayer game: clients, game
servers, a publish/subscribe broker, a gatekeeper that logs players in and an
orchestrator that keeps enough game servers running.

`src/` holds the library, checked by Verus:

- `wire`, `packet`, `game_message`, `entity`, `heartbeat`, `frames`, `topic`:
  the binary formats exchanged on the network, with their readers and writers
  and the laws that what is written reads back.
- `pubsub`: the broker's state (registrations, subscriptions, topic data,
  per-peer queues) and how packets change it.
- `quad_tree`: the spatial tree that assigns positions to shards.
- `server`, `client`, `network`: what game servers and clients decide on the
  messages and connection events they receive.
- `gatekeeper`, `login`, `orchestrator`: login decisions, server records and
  server spawning.
- `input`, `rand`, `text`, `assoc`: actions, the pseudo-random generator,
  decimal text, and key/value lists.

`app/` holds the programs around it (the gatekeeper's HTTP service, the
orchestrator) and the floating-point geometry that feeds the library.
