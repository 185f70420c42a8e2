# brz_net

Protocol-independent transports for service clients, verified with Verus.

- `Node` keeps one connection to one endpoint. Requests are admitted without waiting, into
  256 response slots; untagged responses answer the oldest request, tagged ones the request
  that they name.
- `Sharded` routes by key, `ReplicaSet` selects a replica by consumed request time. They
  nest in either order.
- `RxBuffer` is the receive ring of a connection. Responses taken out of it stay valid while
  the connection goes on reading.
- `DnsResolver` follows hostnames with bounded lookups and publishes address changes.
- `NodePool` and `Pool` lease exclusive connections to protocols that need one at a time.

## Layout

- `src/` is the library. Every function in it is verified against its contract. State that
  several tasks share is a plain value here, changed through `&mut`; contracts say how each
  operation changes its model (`RxView`, `TableView`, `SharedView`, `LinkView`,
  `SelectorView`, `ActorView` and the like). Proof functions named `law_*` state what holds
  across operations.
- `src/outside.rs` holds what is believed of other crates and of std.
- `app/` puts sockets, timers, tasks and locks around the library.
- `tests/` runs the library with the real crates.
