# lexikon

A small key-value store, verified with Verus.

- `src/hashtable.rs`: `InnerHashTable`, a fixed-size chaining hash table
  (slots of chains, newest node first); `HashMap`, two such tables with
  progressive rehashing; `HashTable`, string keys and values on top of them.
- `src/protocol.rs`: the byte encoding of a request (argument count, then
  each argument behind its length, little-endian `u32`s).
- `src/net.rs`: the socket address, the length header framing each message,
  and the chunking of reads and writes.
- `src/mem.rs`: field offsets of `#[repr(C)]` structs.
- `src/event_loop.rs`: descriptor flags.
- `app/`: the socket server and client (system calls, loops, printing).
- `tests/`: tests of the library.
