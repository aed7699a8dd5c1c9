//! General-purpose containers and algorithms.

pub mod array_list;
pub mod bitmask;
pub mod coords;
pub mod dense_grid;
pub mod doubly_linked_list;
pub mod dsu;
pub mod fenwick;
pub mod freq_map;
pub mod graph;
pub mod hash_set_ext;
pub mod heap;
pub mod indexed_heap;
pub mod intervals;
pub mod linked_list;
pub mod monotonic_queue;
pub mod neighbors;
pub mod parsing;
pub mod queue;
pub mod rolling_hash;
pub mod search;
pub mod shortest;
pub mod sparse_grid;
pub mod stack;
pub mod string_alg;
pub mod tree_map;
