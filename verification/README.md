# Aulon

A message broker for the NATS-core protocol with a verified core.

`src/` is the library: everything the broker decides. Its functions carry
`requires` / `ensures` contracts that Verus proves, and public proof functions
named `law_*` state what several of them promise together.

| Module | What it holds |
| --- | --- |
| `grammar`, `parse`, `emit`, `codec` | the wire format, both directions, and that each undoes the other |
| `subject`, `subscription`, `matching` | subject validation, the subscription trie, and which patterns a subject reaches |
| `connection_state`, `writer` | a connection's outbound buffer and what its writer does next |
| `links`, `sid_map`, `dispatch`, `worker`, `broker` | live connections, queue groups, acting on frames, and the promises to clients |
| `shard_inbox`, `handoff` | the inbox between shards, alone and step by step between threads |
| `topology`, `buffer_pool`, `connection` | cache domains, the registered buffers, the connection lifecycle |
| `fanout` | the client side of the fan-out benchmark |

Calls into other crates and into parts of the standard library that the
verifier does not know stand behind small functions marked
`#[verifier::external_body]`; the comment above each says what is taken on
trust.

`app/` is ordinary Rust around the library: sockets, timers, system
directories, atomics, and the command line
(`server`, `bench`, `fanout`, `topology`).

`tests/` runs the library.
