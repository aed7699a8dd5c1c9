//! Puzzle solvers and the small data structures they are built from.
//!
//! - `days`: one module per puzzle; `days::day10` holds the factory solver
//!   (toggle reachability, linear-system reduction, exact row reduction and
//!   the bounded search for a press vector of least total).
//! - `ds`: general-purpose containers and algorithms.

pub mod days;
pub mod ds;

pub use ds::array_list::ArrayList;
pub use ds::bitmask::BitMask;
pub use ds::coords::{ComplexI, Point, Point3};
pub use ds::dense_grid::DenseGrid2D;
pub use ds::doubly_linked_list::DoublyLinkedList;
pub use ds::dsu::DisjointSet;
pub use ds::fenwick::Fenwick;
pub use ds::freq_map::FreqMap;
pub use ds::graph::Adjacency;
pub use ds::hash_set_ext::HashSetExt;
pub use ds::heap::{MaxHeap, MinHeap};
pub use ds::indexed_heap::IndexedMinHeap;
pub use ds::intervals::{Interval, IntervalSet};
pub use ds::linked_list::LinkedList;
pub use ds::monotonic_queue::{MonotonicQueueMax, MonotonicQueueMin};
pub use ds::parsing::{
    parse_grid_chars, parse_grid_digits, parse_ints_whitespace, parse_lines_i64,
};
pub use ds::queue::{Deque, Queue};
pub use ds::search::{bfs_distances, dfs_preorder};
pub use ds::shortest::dijkstra_indexed;
pub use ds::sparse_grid::SparseGrid;
pub use ds::stack::Stack;
pub use ds::tree_map::BstMap;
