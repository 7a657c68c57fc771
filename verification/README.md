# mglru

A multi-generational LRU cache, verified with Verus.

Entries sit in four generations, youngest first. A new key becomes the head
of generation 0; a lookup moves a key to the head of the next younger
generation; `age` moves every generation one older (the oldest keeps its keys
behind the ones that join it); when the cache is full, inserting a new key
evicts the tail of the oldest non-empty generation.

- `src/model.rs`: the cache as mathematics (`CacheView`) and the effect of
  each operation on it.
- `src/laws.rs`: laws of the operations, proved over `CacheView`.
- `src/probe.rs`: linear probing as mathematics: the table a removal leaves
  (the rest of the run shifted back), and the proof that it keeps every key
  reachable.
- `src/no_std_impl.rs`: a cache whose capacity is a constant of its type,
  with its own bucket table; also the `Hash` trait it uses for keys.
- `src/std_impl.rs`: a cache whose capacity is chosen at run time, keyed by
  `std::collections::HashMap`.

Every public operation of both caches states its result and its new state
as the corresponding `CacheView` operation.
