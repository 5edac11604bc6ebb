//! Classic data structures and algorithms, each with a contract that says
//! what it computes, proved with Verus.
//!
//! The heart of the crate is [`lru_cache`], a cache that evicts the entry
//! used least recently, and [`queue`], the first-in, first-out queue that the
//! breadth-first searches rest on. Around them stand a stack, a binary heap,
//! two sorts, two searches on slices, binary trees with their walks, three
//! searches on graphs and a maze solver.
pub mod adjacency_list;
pub mod adjacency_matrix;
pub mod binary_search;
pub mod binary_tree;
pub mod bubble_sort;
pub mod dijkstra_list;
pub mod lru_cache;
pub mod maze_solver;
pub mod min_heap;
pub mod paths;
pub mod queue;
pub mod quick_sort;
pub mod sequences;
pub mod stack;
pub mod two_crystal_balls;
