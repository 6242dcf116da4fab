# kvstore

An in-memory key-value store whose core is verified with Verus.

`src/` is the library, every function of it proved against its contract:

- `avl` — an arena-allocated AVL tree: insertion by a comparator, deletion,
  offsets in in-order, with its shape, order and balance tracked in ghost
  state; `balance` holds the proof that rebalancing restores the AVL
  invariant. Slots are handles: an insertion keeps every slot's element,
  and a deletion moves elements only between the slot deleted and the slot
  it frees.
- `heap` — the flat-array min-heap of expiry times.
- `concurrent_map` — the map from byte strings, split into shards by hash.
- `protocol` — request framing and response encoding of the wire protocol.
- `zset` — sorted sets: members ordered by score key and then by name in
  the AVL tree, found by descent, with a map from names to score keys. A
  score key is an unsigned integer that orders as the `f64` score does.
- `server` — the routing of GET, SET, DEL, PEXPIRE and of the sorted-set
  commands to the engine, and what a connection does with the bytes it
  receives and sends.
- `storage` — the database engine: string, expiry and sorted-set commands;
  each entry records the heap slot of its own expiry time.

`app/` is the program around it: the `mio` event loop, the clock, the
thread pool, and the reading of the floating-point score arguments of ZADD
and ZQUERY, which it hands to the library as score keys.
