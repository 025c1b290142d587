//! Three classic in-memory data structures with verified contracts: an
//! open-addressing hash map, a doubly linked list over an index arena, and a
//! bloom filter.
pub mod hashtable;
pub mod probe;
pub mod nodes;
pub mod linkedlist;
pub mod bloom_filter;
