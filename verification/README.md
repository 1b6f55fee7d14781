# void_engine

The engine core of a networked game: replication, lockstep, persistence, a
double-entry ledger, logging and the bookkeeping of a physics solver. The
library under `src/` is written in Verus: each function carries a contract, and
the properties that span functions stand beside them as proof functions named
`law_…`.

| module | what it holds |
|---|---|
| `net::bitpack` | bit-granular reading and writing, varints, zig-zag |
| `net::chunk` | splitting a packet over datagrams of unknown capacity |
| `net::snapshot` | the replication packet and its wire format |
| `net::replication` | which grid slot is which entity |
| `net::input` | held and one-shot input, reconciled over lossy transport |
| `net::interp` | the clock of render-behind interpolation |
| `net::framing` | length-prefixed messages |
| `net::lockstep` | messages, handshake, tick buffer, desync detection, the socket script |
| `net::quic` | which TLS identity a server uses, and what each refusal is |
| `persist::registry` | stable component names |
| `persist::snapshot` | capturing and restoring a world |
| `persist::checkpoint` | crash-safe saves as a list of steps, and which file to load |
| `persist::ledger`, `persist::store` | double-entry accounts, reservations, idempotent transfers |
| `persist::ledger_pg` | the write-behind journal of a database-backed ledger |
| `log` | filtering, formatting, the relay ring, rotation, the boot pusher |
| `pathfind`, `min_heap` | shortest paths on a grid |
| `text`, `sorted_map`, `rotation`, `rng`, `ecs` | what the others share |
| `physics3d`, `pick3d` | sleep, waking, warm starting, the order of a solve, the order of hits |

`app/` holds what is left: floating-point arithmetic, sockets, files, threads,
the database connection and serde codecs. It performs what the library decides
and hands back what happened.

What the library takes on trust is marked `#[verifier::external_body]`,
`external_type_specification` or `assume_specification`, each with a comment on
the outside function and what is claimed of it.
