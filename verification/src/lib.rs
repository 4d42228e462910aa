//! In-memory container primitives built on index-based arenas: a bounded
//! least-recently-used cache, a doubly-linked list threaded through a node
//! arena, an N-ary tree, an N-ary forest with slot recycling, and a fixed
//! capacity ring buffer.

pub mod linked_list;
pub mod lru_cache;
pub mod naryforest;
pub mod narytree;
pub mod ring_buffer;
