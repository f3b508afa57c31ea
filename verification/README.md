# rustycache

A sharded, thread-safe cache with LRU, LFU and FIFO eviction and
time-to-live expiration, written in Verus.

## Layout

- `src/strategy/arena.rs`: the doubly linked list of entries kept in a
  `Vec` and linked by slot indices, with its key index; LRU and FIFO store
  their entries in it. Its contracts describe it as the sequence of its
  entries from head to tail.
- `src/strategy/fifo.rs`, `lru.rs`, `lfu.rs`: for each strategy, a state
  (`FIFOState`, `LRUState`, `LFUState`) whose operations take the current
  instant as an argument and whose contracts give the exact resulting
  entries, and a shared cache (`FIFOCache`, `LRUCache`, `LFUCache`) that
  guards one state with a lock, reads the clock and implements
  `CacheStrategy`.
- `src/rustycache.rs`: `Rustycache`, which spreads keys over shards by hash.
  The constructors split the total capacity over the shards, the first
  `capacity % shards` of them taking one entry more, so the shares add up
  to the capacity.
- `src/laws.rs`: what holds across calls: a read after a write, which
  entry a full cache drops, the bound on the number of entries, expiry,
  removal and purging.
- `src/clock.rs`, `src/keys.rs`: the wall clock (chrono) and the hash
  structures of ahash, behind small trusted wrappers with stated contracts.
- `app/`: the background cleaners (tokio tasks) and the constructors that
  start them.

Keys are `String`s; lookups take `&str`. Instants are nanoseconds since the
Unix epoch, as `i128`.
