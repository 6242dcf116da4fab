//! An in-memory key-value store: a flat min-heap for expiry times, an
//! arena-allocated AVL tree kept balanced, a sharded hash map, the binary
//! wire protocol, the per-connection buffer handling and the storage engine,
//! with their contracts proved by Verus.

pub mod avl;
pub mod balance;
pub mod concurrent_map;
pub mod heap;
pub mod protocol;
pub mod server;
pub mod storage;
pub mod zset;
